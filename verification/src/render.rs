//! Rendering of the sorted result: decimal text for each value and the
//! bracketed output line the program prints.

use vstd::prelude::*;

verus! {

use vstd::string::StringExecFns;

/// The character of one decimal digit.
pub open spec fn digit_char(d: int) -> char {
    if d == 0 {
        '0'
    } else if d == 1 {
        '1'
    } else if d == 2 {
        '2'
    } else if d == 3 {
        '3'
    } else if d == 4 {
        '4'
    } else if d == 5 {
        '5'
    } else if d == 6 {
        '6'
    } else if d == 7 {
        '7'
    } else if d == 8 {
        '8'
    } else {
        '9'
    }
}

/// The decimal digits of a non-negative number, most significant first.
pub open spec fn dec_digits(n: int) -> Seq<char>
    decreases n,
{
    if n < 10 {
        seq![digit_char(n)]
    } else {
        dec_digits(n / 10).push(digit_char(n % 10))
    }
}

/// The decimal text of an integer: a minus sign for a negative one, then
/// the digits of its magnitude.
pub open spec fn int_chars(n: int) -> Seq<char> {
    if n < 0 {
        seq!['-'] + dec_digits(-n)
    } else {
        dec_digits(n)
    }
}

/// The elements of `s` in decimal, separated by comma and space.
pub open spec fn list_chars(s: Seq<i32>) -> Seq<char>
    decreases s.len(),
{
    if s.len() == 0 {
        Seq::empty()
    } else if s.len() == 1 {
        int_chars(s[0] as int)
    } else {
        list_chars(s.drop_last()) + ", "@ + int_chars(s.last() as int)
    }
}

/// The output line for a result `s`.
pub open spec fn sorted_line_chars(s: Seq<i32>) -> Seq<char> {
    "Sorted: ["@ + list_chars(s) + "]"@
}

/// The text of one decimal digit.
fn digit_str(d: u64) -> (r: &'static str)
    requires
        d < 10,
    ensures
        r@ == seq![digit_char(d as int)],
{
    proof {
        reveal_strlit("0");
        reveal_strlit("1");
        reveal_strlit("2");
        reveal_strlit("3");
        reveal_strlit("4");
        reveal_strlit("5");
        reveal_strlit("6");
        reveal_strlit("7");
        reveal_strlit("8");
        reveal_strlit("9");
    }
    let r: &'static str = if d == 0 {
        "0"
    } else if d == 1 {
        "1"
    } else if d == 2 {
        "2"
    } else if d == 3 {
        "3"
    } else if d == 4 {
        "4"
    } else if d == 5 {
        "5"
    } else if d == 6 {
        "6"
    } else if d == 7 {
        "7"
    } else if d == 8 {
        "8"
    } else {
        "9"
    };
    proof {
        assert(r@ =~= seq![digit_char(d as int)]);
    }
    r
}

/// The decimal text of a non-negative number, most significant digit first.
fn render_digits(m: u64) -> (r: String)
    ensures
        r@ == dec_digits(m as int),
    decreases m,
{
    if m < 10 {
        String::from_str(digit_str(m))
    } else {
        let mut r = render_digits(m / 10);
        r.append(digit_str(m % 10));
        proof {
            assert(dec_digits(m as int / 10) + seq![digit_char(m as int % 10)] =~= dec_digits(
                m as int / 10,
            ).push(digit_char(m as int % 10)));
        }
        r
    }
}

/// The decimal text of one 32-bit integer, sign included.
fn render_int(v: i32) -> (r: String)
    ensures
        r@ == int_chars(v as int),
{
    if v < 0 {
        let mut r = String::from_str("-");
        let m: u64 = (-(v as i64)) as u64;
        let d = render_digits(m);
        r.append(d.as_str());
        proof {
            reveal_strlit("-");
            assert("-"@ =~= seq!['-']);
        }
        r
    } else {
        render_digits(v as u64)
    }
}

/// The line the program prints for a result: the values in decimal, comma
/// separated, between `Sorted: [` and `]`.
pub fn format_sorted(v: &Vec<i32>) -> (r: String)
    ensures
        r@ == sorted_line_chars(v@),
{
    let mut r = String::from_str("Sorted: [");
    let n = v.len();
    let mut i: usize = 0;
    while i < n
        invariant
            0 <= i <= n == v@.len(),
            r@ == "Sorted: ["@ + list_chars(v@.subrange(0, i as int)),
        decreases n - i,
    {
        if i > 0 {
            r.append(", ");
        }
        let d = render_int(v[i]);
        r.append(d.as_str());
        proof {
            let pre = v@.subrange(0, i as int);
            let ext = v@.subrange(0, i + 1);
            assert(ext.drop_last() =~= pre);
            assert(ext.last() == v@[i as int]);
            if i == 0 {
                assert(pre =~= Seq::<i32>::empty());
                assert(list_chars(pre) =~= Seq::<char>::empty());
                assert(r@ =~= "Sorted: ["@ + list_chars(ext));
            } else {
                assert(list_chars(ext) == list_chars(pre) + ", "@ + int_chars(
                    ext.last() as int,
                ));
                assert(r@ =~= "Sorted: ["@ + list_chars(ext));
            }
        }
        i += 1;
    }
    r.append("]");
    proof {
        assert(v@.subrange(0, n as int) =~= v@);
        assert(r@ =~= "Sorted: ["@ + list_chars(v@) + "]"@);
    }
    r
}

} // verus!
