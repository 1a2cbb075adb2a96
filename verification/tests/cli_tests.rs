use quicksort::cli::{help_text, parse_args, usage_text, HelpTopic, Invocation};
use quicksort::parse::parse_int_list;
use quicksort::post::process;
use quicksort::render::format_sorted;

fn args_of(words: &[&str]) -> Vec<String> {
    words.iter().map(|w| w.to_string()).collect()
}

#[test]
fn classifies_a_plain_run() {
    let r = parse_args(&args_of(&["quicksort", "5,3,8,1"]));
    match r {
        Invocation::Run {
            reverse,
            unique,
            input,
        } => {
            assert!(!reverse);
            assert!(!unique);
            assert_eq!(input, "5,3,8,1");
        }
        other => panic!("unexpected classification: {:?}", other),
    }
}

#[test]
fn flags_may_stand_on_either_side_of_the_input() {
    let r = parse_args(&args_of(&["quicksort", "-r", "5,3", "-u"]));
    match r {
        Invocation::Run {
            reverse,
            unique,
            input,
        } => {
            assert!(reverse);
            assert!(unique);
            assert_eq!(input, "5,3");
        }
        other => panic!("unexpected classification: {:?}", other),
    }
}

#[test]
fn long_flags_work_too() {
    let r = parse_args(&args_of(&["quicksort", "--reverse", "--unique", "1"]));
    match r {
        Invocation::Run {
            reverse, unique, ..
        } => {
            assert!(reverse);
            assert!(unique);
        }
        other => panic!("unexpected classification: {:?}", other),
    }
}

#[test]
fn missing_input_is_reported() {
    assert_eq!(
        parse_args(&args_of(&["quicksort"])),
        Invocation::MissingInput
    );
    assert_eq!(
        parse_args(&args_of(&["quicksort", "-r", "-u"])),
        Invocation::MissingInput
    );
}

#[test]
fn a_second_input_is_reported() {
    assert_eq!(
        parse_args(&args_of(&["quicksort", "1,2", "3,4"])),
        Invocation::ExtraInput
    );
}

#[test]
fn help_beats_everything_else() {
    assert_eq!(
        parse_args(&args_of(&["quicksort", "-h"])),
        Invocation::Help(HelpTopic::General)
    );
    assert_eq!(
        parse_args(&args_of(&["quicksort", "--help", "-r"])),
        Invocation::Help(HelpTopic::Reverse)
    );
    assert_eq!(
        parse_args(&args_of(&["quicksort", "-h", "--unique"])),
        Invocation::Help(HelpTopic::Unique)
    );
    assert_eq!(
        parse_args(&args_of(&["quicksort", "-h", "5,3"])),
        Invocation::Help(HelpTopic::General)
    );
}

#[test]
fn help_counts_as_input_when_it_comes_late() {
    assert_eq!(
        parse_args(&args_of(&["quicksort", "5,3", "-h"])),
        Invocation::ExtraInput
    );
}

#[test]
fn repeated_flags_are_harmless() {
    let r = parse_args(&args_of(&["quicksort", "-r", "-r", "2,1"]));
    match r {
        Invocation::Run {
            reverse, unique, ..
        } => {
            assert!(reverse);
            assert!(!unique);
        }
        other => panic!("unexpected classification: {:?}", other),
    }
}

#[test]
fn usage_names_the_program_and_the_flags() {
    let u = usage_text("quicksort");
    assert!(u.starts_with("Usage: quicksort "));
    assert!(u.contains("-r, --reverse"));
    assert!(u.contains("-u, --unique"));
    assert!(u.contains("-h, --help"));
}

#[test]
fn help_topics_have_their_own_text() {
    assert!(help_text(HelpTopic::Reverse, "quicksort").starts_with("Option: -r, --reverse"));
    assert!(help_text(HelpTopic::Unique, "quicksort").starts_with("Option: -u, --unique"));
    assert_eq!(
        help_text(HelpTopic::General, "quicksort"),
        usage_text("quicksort")
    );
}

#[test]
fn renders_the_sorted_line() {
    assert_eq!(format_sorted(&vec![1, 3, 5, 8]), "Sorted: [1, 3, 5, 8]");
    assert_eq!(format_sorted(&vec![]), "Sorted: []");
    assert_eq!(format_sorted(&vec![-1]), "Sorted: [-1]");
    assert_eq!(
        format_sorted(&vec![i32::MIN, i32::MAX]),
        "Sorted: [-2147483648, 2147483647]"
    );
}

#[test]
fn whole_run_without_flags() {
    let mut v = parse_int_list("5,3,8,1").unwrap();
    process(&mut v, false, false);
    assert_eq!(format_sorted(&v), "Sorted: [1, 3, 5, 8]");
}

#[test]
fn whole_run_with_reverse() {
    let mut v = parse_int_list("5,3,8,1").unwrap();
    process(&mut v, false, true);
    assert_eq!(format_sorted(&v), "Sorted: [8, 5, 3, 1]");
}
