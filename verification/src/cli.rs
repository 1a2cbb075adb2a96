//! Classification of the command-line arguments: which are flags, which one
//! is the input, and which invocations are usage errors, together with the
//! usage and help texts.

use vstd::prelude::*;

verus! {

use vstd::string::StringExecFns;

/// What a help request asks about.
#[derive(Clone, Copy, Debug, PartialEq, Eq, Structural)]
pub enum HelpTopic {
    General,
    Reverse,
    Unique,
}

/// What one run of the program was asked to do.
#[derive(Debug, PartialEq)]
pub enum Invocation {
    /// The first argument asks for help; the topic is taken from the next.
    Help(HelpTopic),
    /// Sort the comma-separated list in `input`, with the two flags.
    Run { reverse: bool, unique: bool, input: String },
    /// No non-flag argument was given.
    MissingInput,
    /// More than one non-flag argument was given.
    ExtraInput,
}

/// The argument asks for descending output.
pub open spec fn is_reverse_flag(s: Seq<char>) -> bool {
    s == "-r"@ || s == "--reverse"@
}

/// The argument asks for duplicate removal.
pub open spec fn is_unique_flag(s: Seq<char>) -> bool {
    s == "-u"@ || s == "--unique"@
}

/// The argument asks for help.
pub open spec fn is_help_flag(s: Seq<char>) -> bool {
    s == "-h"@ || s == "--help"@
}

/// The argument is one of the two sorting flags; anything else counts as
/// input.
pub open spec fn is_flag(s: Seq<char>) -> bool {
    is_reverse_flag(s) || is_unique_flag(s)
}

/// How many of the arguments strictly before `upto`, the leading program
/// name excluded, are not flags.
pub open spec fn num_positionals(args: Seq<String>, upto: int) -> int
    decreases upto,
{
    if upto <= 1 {
        0
    } else {
        num_positionals(args, upto - 1) + if is_flag(args[upto - 1]@) {
            0int
        } else {
            1int
        }
    }
}

/// A reverse flag stands somewhere before `upto`.
pub open spec fn has_reverse_flag(args: Seq<String>, upto: int) -> bool {
    exists|k: int| 1 <= k < upto && is_reverse_flag(#[trigger] args[k]@)
}

/// A unique flag stands somewhere before `upto`.
pub open spec fn has_unique_flag(args: Seq<String>, upto: int) -> bool {
    exists|k: int| 1 <= k < upto && is_unique_flag(#[trigger] args[k]@)
}

/// The argument at `i` is the input (a non-flag past the program name).
pub open spec fn positional_at(args: Seq<String>, i: int) -> bool {
    1 <= i < args.len() && !is_flag(args[i]@)
}

/// The help topic an argument list asks about: the argument after the help
/// flag picks a flag's detail, anything else the general text.
pub open spec fn help_topic_of(args: Seq<String>) -> HelpTopic {
    if args.len() >= 3 && is_reverse_flag(args[2]@) {
        HelpTopic::Reverse
    } else if args.len() >= 3 && is_unique_flag(args[2]@) {
        HelpTopic::Unique
    } else {
        HelpTopic::General
    }
}

/// What `parse_args` owes for a given argument list.
pub open spec fn invocation_of(args: Seq<String>, r: Invocation) -> bool {
    let n = args.len() as int;
    if n >= 2 && is_help_flag(args[1]@) {
        r == Invocation::Help(help_topic_of(args))
    } else if num_positionals(args, n) == 0 {
        r == Invocation::MissingInput
    } else if num_positionals(args, n) >= 2 {
        r == Invocation::ExtraInput
    } else {
        &&& r matches Invocation::Run { reverse, unique, input }
        &&& r matches Invocation::Run { reverse, .. } ==> reverse == has_reverse_flag(args, n)
        &&& r matches Invocation::Run { unique, .. } ==> unique == has_unique_flag(args, n)
        &&& r matches Invocation::Run { input, .. } ==> forall|i: int|
            positional_at(args, i) ==> input@ == args[i]@
    }
}

/// The count of positionals never shrinks as more arguments are read.
proof fn lemma_num_positionals_mono(args: Seq<String>, a: int, b: int)
    requires
        a <= b,
    ensures
        num_positionals(args, a) <= num_positionals(args, b),
    decreases b - a,
{
    if a < b {
        lemma_num_positionals_mono(args, a, b - 1);
    }
}

/// Two distinct positionals push the count to two.
proof fn lemma_two_positionals(args: Seq<String>, j: int, k: int)
    requires
        positional_at(args, j),
        positional_at(args, k),
        j < k,
    ensures
        num_positionals(args, args.len() as int) >= 2,
{
    lemma_num_positionals_mono(args, 0, j);
    lemma_num_positionals_mono(args, j + 1, k);
    lemma_num_positionals_mono(args, k + 1, args.len() as int);
}

/// The two views are equal exactly when the texts are.
fn str_eq_lit(a: &String, lit: &str) -> (r: bool)
    ensures
        r == (a@ == lit@),
{
    let other = String::from_str(lit);
    a.eq(&other)
}

/// Classifies the argument list of one invocation, the program name first.
/// A leading help flag wins; otherwise the two sorting flags may come in any
/// order and any count, and exactly one remaining argument must carry the
/// input.
pub fn parse_args(args: &Vec<String>) -> (r: Invocation)
    ensures
        invocation_of(args@, r),
{
    let n = args.len();
    if n >= 2 {
        let first = &args[1];
        if str_eq_lit(first, "-h") || str_eq_lit(first, "--help") {
            if n >= 3 {
                let second = &args[2];
                if str_eq_lit(second, "-r") || str_eq_lit(second, "--reverse") {
                    return Invocation::Help(HelpTopic::Reverse);
                }
                if str_eq_lit(second, "-u") || str_eq_lit(second, "--unique") {
                    return Invocation::Help(HelpTopic::Unique);
                }
            }
            return Invocation::Help(HelpTopic::General);
        }
    }
    if n == 0 {
        return Invocation::MissingInput;
    }
    let mut reverse = false;
    let mut unique = false;
    let mut input: Option<usize> = None;
    let mut i: usize = 1;
    while i < n
        invariant
            1 <= i <= n == args@.len(),
            n >= 2 ==> !is_help_flag(args@[1]@),
            reverse == has_reverse_flag(args@, i as int),
            unique == has_unique_flag(args@, i as int),
            match input {
                Option::None => num_positionals(args@, i as int) == 0,
                Option::Some(j) => num_positionals(args@, i as int) == 1 && positional_at(
                    args@,
                    j as int,
                ) && j < i,
            },
        decreases n - i,
    {
        let a = &args[i];
        let r_flag = str_eq_lit(a, "-r") || str_eq_lit(a, "--reverse");
        let u_flag = str_eq_lit(a, "-u") || str_eq_lit(a, "--unique");
        proof {
            assert(r_flag == is_reverse_flag(args@[i as int]@));
            assert(u_flag == is_unique_flag(args@[i as int]@));
            if has_reverse_flag(args@, i + 1) && !is_reverse_flag(args@[i as int]@) {
                let k = choose|k: int| 1 <= k < i + 1 && is_reverse_flag(#[trigger] args@[k]@);
                assert(1 <= k < i && is_reverse_flag(args@[k]@));
            }
            if has_unique_flag(args@, i + 1) && !is_unique_flag(args@[i as int]@) {
                let k = choose|k: int| 1 <= k < i + 1 && is_unique_flag(#[trigger] args@[k]@);
                assert(1 <= k < i && is_unique_flag(args@[k]@));
            }
        }
        if r_flag {
            reverse = true;
        }
        if u_flag {
            unique = true;
        }
        if !r_flag && !u_flag {
            proof {
                assert(!is_flag(args@[i as int]@));
            }
            if input.is_none() {
                input = Some(i);
            } else {
                proof {
                    let j = input->Some_0 as int;
                    lemma_two_positionals(args@, j, i as int);
                    lemma_num_positionals_mono(args@, i + 1, n as int);
                }
                return Invocation::ExtraInput;
            }
        }
        i += 1;
    }
    match input {
        Some(j) => {
            let s = args[j].clone();
            proof {
                assert forall|k: int| positional_at(args@, k) implies s@ == args@[k]@ by {
                    if k != j {
                        if k < j {
                            lemma_two_positionals(args@, k, j as int);
                        } else {
                            lemma_two_positionals(args@, j as int, k);
                        }
                    }
                }
            }
            Invocation::Run { reverse, unique, input: s }
        },
        None => Invocation::MissingInput,
    }
}

/// The usage text, the lines the program prints joined by line breaks.
pub open spec fn usage_chars(name: Seq<char>) -> Seq<char> {
    "Usage: "@ + name
        + " [-r | --reverse] [-u | --unique] <comma-separated numbers>\nSort a list of comma-separated integers using the quick sort algorithm.\nOptions:\n-r, --reverse    Sort in descending order.\n-u, --unique     Remove duplicate values from the sorted output.\n-h, --help       Display this help message."@
}

/// The help text for a topic: a flag's detail, or the usage text.
pub open spec fn help_chars(topic: HelpTopic, name: Seq<char>) -> Seq<char> {
    match topic {
        HelpTopic::Reverse => "Option: -r, --reverse\nSort the list of comma-separated integers in descending order."@,
        HelpTopic::Unique => "Option: -u, --unique\nRemove duplicate values from the sorted list of comma-separated integers."@,
        HelpTopic::General => usage_chars(name),
    }
}

/// Builds the usage text around the program's name.
pub fn usage_text(program_name: &str) -> (r: String)
    ensures
        r@ == usage_chars(program_name@),
{
    let mut r = String::from_str("Usage: ");
    r.append(program_name);
    r.append(
        " [-r | --reverse] [-u | --unique] <comma-separated numbers>\nSort a list of comma-separated integers using the quick sort algorithm.\nOptions:\n-r, --reverse    Sort in descending order.\n-u, --unique     Remove duplicate values from the sorted output.\n-h, --help       Display this help message.",
    );
    proof {
        assert(r@ =~= usage_chars(program_name@));
    }
    r
}

/// Builds the help text for a topic.
pub fn help_text(topic: HelpTopic, program_name: &str) -> (r: String)
    ensures
        r@ == help_chars(topic, program_name@),
{
    match topic {
        HelpTopic::Reverse => String::from_str(
            "Option: -r, --reverse\nSort the list of comma-separated integers in descending order.",
        ),
        HelpTopic::Unique => String::from_str(
            "Option: -u, --unique\nRemove duplicate values from the sorted list of comma-separated integers.",
        ),
        HelpTopic::General => usage_text(program_name),
    }
}

} // verus!
