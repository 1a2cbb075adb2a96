//! Parsing of a comma-separated list of 32-bit integers, the shape the
//! command line hands in: tokens split on commas, each an optional sign
//! followed by decimal digits, each value within the 32-bit signed range.

use vstd::prelude::*;

verus! {

use vstd::slice::slice_subrange;
use vstd::string::StringSliceAdditionalSpecFns;

/// The ASCII bytes the grammar speaks of.
pub const COMMA: u8 = 44;

pub const PLUS: u8 = 43;

pub const MINUS: u8 = 45;

pub const ZERO: u8 = 48;

pub const NINE: u8 = 57;

/// An ASCII decimal digit.
pub open spec fn is_digit(b: u8) -> bool {
    ZERO <= b <= NINE
}

/// The numeric value of a digit string, most significant digit first.
pub open spec fn digits_val(d: Seq<u8>) -> int
    decreases d.len(),
{
    if d.len() == 0 {
        0
    } else {
        digits_val(d.drop_last()) * 10 + (d.last() - ZERO)
    }
}

/// The digits of a token: what follows the sign, if one is written.
pub open spec fn token_body(t: Seq<u8>) -> Seq<u8> {
    if t.len() > 0 && (t[0] == PLUS || t[0] == MINUS) {
        t.drop_first()
    } else {
        t
    }
}

/// The token carries a minus sign.
pub open spec fn token_negative(t: Seq<u8>) -> bool {
    t.len() > 0 && t[0] == MINUS
}

/// The token is an optional sign followed by at least one digit.
pub open spec fn token_shape_ok(t: Seq<u8>) -> bool {
    token_body(t).len() > 0 && forall|i: int|
        0 <= i < token_body(t).len() ==> is_digit(#[trigger] token_body(t)[i])
}

/// The signed numeric value a well-shaped token denotes.
pub open spec fn token_val(t: Seq<u8>) -> int {
    if token_negative(t) {
        -digits_val(token_body(t))
    } else {
        digits_val(token_body(t))
    }
}

/// The token denotes a 32-bit signed integer.
pub open spec fn valid_token(t: Seq<u8>) -> bool {
    token_shape_ok(t) && i32::MIN <= token_val(t) <= i32::MAX
}

/// The pieces of `b` between its commas, in order.  A text without commas is
/// one token; each comma ends a token, so the empty text holds one empty
/// token.
pub open spec fn split_commas(b: Seq<u8>) -> Seq<Seq<u8>>
    decreases b.len(),
{
    if b.len() == 0 {
        seq![Seq::empty()]
    } else if b[0] == COMMA {
        seq![Seq::empty()] + split_commas(b.drop_first())
    } else {
        let rest = split_commas(b.drop_first());
        seq![seq![b[0]] + rest[0]] + rest.drop_first()
    }
}

/// Every token of `b` denotes a 32-bit signed integer.
pub open spec fn valid_list(b: Seq<u8>) -> bool {
    forall|i: int|
        0 <= i < split_commas(b).len() ==> valid_token(#[trigger] split_commas(b)[i])
}

/// The values of the tokens of `b`, in order.
pub open spec fn list_values(b: Seq<u8>) -> Seq<int> {
    split_commas(b).map_values(|t: Seq<u8>| token_val(t))
}

/// A token that does not denote a 32-bit integer, reported by the position
/// of the first such token in the list.
#[derive(Debug, PartialEq, Eq, Structural)]
pub struct ParseError {
    pub token_index: usize,
}

/// There is always at least one token.
proof fn lemma_split_commas_len(b: Seq<u8>)
    ensures
        split_commas(b).len() >= 1,
    decreases b.len(),
{
    if b.len() > 0 {
        lemma_split_commas_len(b.drop_first());
    }
}

/// A text without commas is a single token.
proof fn lemma_split_commas_no_comma(b: Seq<u8>)
    requires
        forall|i: int| 0 <= i < b.len() ==> b[i] != COMMA,
    ensures
        split_commas(b) == seq![b],
    decreases b.len(),
{
    if b.len() == 0 {
        assert(split_commas(b) =~~= seq![b]);
    } else {
        lemma_split_commas_no_comma(b.drop_first());
        lemma_split_commas_len(b.drop_first());
        assert(seq![b[0]] + b.drop_first() =~= b);
        assert(split_commas(b) =~~= seq![b]);
    }
}

/// Splitting at the first comma: the part before it is the first token and
/// the rest splits on its own.
proof fn lemma_split_commas_at_comma(b: Seq<u8>, k: int)
    requires
        0 <= k < b.len(),
        b[k] == COMMA,
        forall|i: int| 0 <= i < k ==> b[i] != COMMA,
    ensures
        split_commas(b) == seq![b.subrange(0, k)] + split_commas(
            b.subrange(k + 1, b.len() as int),
        ),
    decreases k,
{
    if k == 0 {
        assert(b.subrange(0, 0) =~= Seq::<u8>::empty());
        assert(b.subrange(1, b.len() as int) =~= b.drop_first());
        assert(split_commas(b) =~~= seq![b.subrange(0, 0)] + split_commas(
            b.subrange(1, b.len() as int),
        ));
    } else {
        let d = b.drop_first();
        lemma_split_commas_at_comma(d, k - 1);
        lemma_split_commas_len(d.subrange(k, d.len() as int));
        assert(d.subrange(0, k - 1) =~= b.subrange(1, k));
        assert(d.subrange(k, d.len() as int) =~= b.subrange(k + 1, b.len() as int));
        assert(seq![b[0]] + b.subrange(1, k) =~= b.subrange(0, k));
        assert(split_commas(b) =~~= seq![b.subrange(0, k)] + split_commas(
            b.subrange(k + 1, b.len() as int),
        ));
    }
}

/// A digit string has a non-negative value.
proof fn lemma_digits_val_nonneg(d: Seq<u8>)
    requires
        forall|i: int| 0 <= i < d.len() ==> is_digit(#[trigger] d[i]),
    ensures
        digits_val(d) >= 0,
    decreases d.len(),
{
    if d.len() > 0 {
        lemma_digits_val_nonneg(d.drop_last());
    }
}

/// Dropping trailing digits never increases the value: a prefix of a digit
/// string is worth at most the whole.
proof fn lemma_digits_val_prefix(d: Seq<u8>, k: int)
    requires
        0 <= k <= d.len(),
        forall|i: int| 0 <= i < d.len() ==> is_digit(#[trigger] d[i]),
    ensures
        digits_val(d.subrange(0, k)) <= digits_val(d),
    decreases d.len() - k,
{
    if k == d.len() {
        assert(d.subrange(0, k) =~= d);
    } else {
        let p = d.subrange(0, k);
        let q = d.subrange(0, k + 1);
        assert(q.drop_last() =~= p);
        lemma_digits_val_nonneg(p);
        assert(digits_val(q) == digits_val(p) * 10 + (q.last() - ZERO));
        lemma_digits_val_prefix(d, k + 1);
    }
}

/// Reads one token as a 32-bit integer: `Some` exactly when the token is an
/// optional sign followed by digits and the value fits.
fn parse_token(t: &[u8]) -> (r: Option<i32>)
    ensures
        r is Some <==> valid_token(t@),
        r matches Some(x) ==> x as int == token_val(t@),
{
    let n = t.len();
    let mut pos: usize = 0;
    let mut neg = false;
    if n > 0 && (t[0] == PLUS || t[0] == MINUS) {
        neg = t[0] == MINUS;
        pos = 1;
    }
    let ghost body = token_body(t@);
    proof {
        if pos == 0 {
            assert(body =~= t@.subrange(0, n as int));
        } else {
            assert(body =~= t@.subrange(1, n as int));
        }
    }
    if pos >= n {
        return None;
    }
    let mut acc: u64 = 0;
    let mut i = pos;
    while i < n
        invariant
            pos <= i <= n == t@.len(),
            pos <= 1,
            pos == 1 ==> n >= 1 && (t@[0] == PLUS || t@[0] == MINUS),
            pos == 0 ==> !(t@[0] == PLUS || t@[0] == MINUS),
            neg == token_negative(t@),
            body == token_body(t@),
            body =~= t@.subrange(pos as int, n as int),
            forall|k: int| pos <= k < i ==> is_digit(#[trigger] t@[k]),
            acc as int == digits_val(t@.subrange(pos as int, i as int)),
            acc <= 0x8000_0000,
        decreases n - i,
    {
        let c = t[i];
        if c < ZERO || c > NINE {
            proof {
                assert(body[i - pos] == t@[i as int]);
                assert(!token_shape_ok(t@));
            }
            return None;
        }
        acc = acc * 10 + ((c - ZERO) as u64);
        proof {
            let p = t@.subrange(pos as int, i as int);
            let q = t@.subrange(pos as int, i + 1);
            assert(q.drop_last() =~= p);
            assert(q.last() == t@[i as int]);
        }
        i += 1;
        if acc > 0x8000_0000 {
            proof {
                // Either some later byte spoils the shape, or the token is a
                // digit string whose value already exceeds the 32-bit range.
                if token_shape_ok(t@) {
                    let k = i - pos;
                    assert(body.subrange(0, k) =~= t@.subrange(pos as int, i as int));
                    lemma_digits_val_prefix(body, k);
                    assert(digits_val(body) > 0x8000_0000);
                }
            }
            return None;
        }
    }
    proof {
        assert(body =~= t@.subrange(pos as int, i as int));
        assert(token_shape_ok(t@));
        lemma_digits_val_nonneg(body);
    }
    if neg {
        Some((-(acc as i64)) as i32)
    } else {
        if acc == 0x8000_0000 {
            proof {
                assert(token_val(t@) == 0x8000_0000);
            }
            None
        } else {
            Some(acc as i32)
        }
    }
}

/// Parses a comma-separated list of 32-bit integers.  Returns the values in
/// order when every token is well formed and in range; otherwise reports the
/// position of the first token that is not.
pub fn parse_int_list(s: &str) -> (r: Result<Vec<i32>, ParseError>)
    ensures
        r is Ok <==> valid_list(s.spec_bytes()),
        r matches Ok(v) ==> v@.len() == list_values(s.spec_bytes()).len() && forall|i: int|
            0 <= i < v@.len() ==> v@[i] as int == list_values(s.spec_bytes())[i],
        r matches Err(e) ==> e.token_index < split_commas(s.spec_bytes()).len() && !valid_token(
            split_commas(s.spec_bytes())[e.token_index as int],
        ) && forall|k: int|
            0 <= k < e.token_index ==> valid_token(#[trigger] split_commas(s.spec_bytes())[k]),
{
    let b = s.as_bytes();
    let ghost bs = s.spec_bytes();
    let ghost toks = split_commas(bs);
    let n = b.len();
    let mut out: Vec<i32> = Vec::new();
    let mut start: usize = 0;
    let mut i: usize = 0;
    proof {
        assert(bs.subrange(0, n as int) =~= bs);
    }
    while i < n
        invariant
            0 <= start <= i <= n == bs.len(),
            bs == s.spec_bytes(),
            b@ == bs,
            toks == split_commas(bs),
            out@.len() <= toks.len(),
            split_commas(bs.subrange(start as int, n as int)) == toks.subrange(
                out@.len() as int,
                toks.len() as int,
            ),
            forall|k: int| start <= k < i ==> bs[k] != COMMA,
            forall|k: int|
                0 <= k < out@.len() ==> valid_token(#[trigger] toks[k]) && out@[k] as int
                    == token_val(toks[k]),
        decreases n - i,
    {
        if b[i] == COMMA {
            let tok = slice_subrange(b, start, i);
            let ghost rest = bs.subrange(start as int, n as int);
            let ghost done = out@.len() as int;
            let ghost klen = toks.len() as int;
            let ghost k = i - start;
            proof {
                assert(forall|m: int| 0 <= m < k ==> rest[m] == bs[start + m]);
                assert(rest[k] == bs[i as int]);
                lemma_split_commas_at_comma(rest, k);
                let head = rest.subrange(0, k);
                let tail = rest.subrange(k + 1, rest.len() as int);
                lemma_split_commas_len(tail);
                assert(head =~= bs.subrange(start as int, i as int));
                assert(tail =~= bs.subrange(i + 1, n as int));
                assert(toks.subrange(done, klen) == seq![head] + split_commas(tail));
                assert(toks.subrange(done, klen).len() == klen - done);
                assert((seq![head] + split_commas(tail)).len() == 1 + split_commas(tail).len());
                assert(klen - done == 1 + split_commas(tail).len());
                assert((seq![head] + split_commas(tail))[0] == head);
                assert(toks.subrange(done, klen)[0] == toks[done]);
                assert(toks[done] == tok@);
                assert(toks.subrange(done + 1, klen) =~= toks.subrange(done, klen).subrange(
                    1,
                    klen - done,
                ));
                assert(toks.subrange(done, klen).subrange(1, klen - done) =~~= split_commas(
                    tail,
                ));
                assert(toks.subrange(done + 1, klen) == split_commas(
                    bs.subrange(i + 1, n as int),
                ));
            }
            match parse_token(tok) {
                Some(x) => {
                    out.push(x);
                },
                None => {
                    proof {
                        assert(!valid_token(split_commas(bs)[done]));
                        assert(!valid_list(bs));
                        assert(forall|m: int|
                            0 <= m < done ==> valid_token(#[trigger] split_commas(bs)[m]));
                    }
                    return Err(ParseError { token_index: out.len() });
                },
            }
            start = i + 1;
        }
        i += 1;
    }
    let tok = slice_subrange(b, start, n);
    let ghost rest = bs.subrange(start as int, n as int);
    let ghost done = out@.len() as int;
    let ghost klen = toks.len() as int;
    proof {
        assert(forall|m: int| 0 <= m < rest.len() ==> rest[m] == bs[start + m]);
        lemma_split_commas_no_comma(rest);
        assert(toks.subrange(done, klen) == seq![rest]);
        assert(toks.subrange(done, klen).len() == klen - done);
        assert(seq![rest].len() == 1);
        assert(klen == done + 1);
        assert(toks.subrange(done, klen)[0] == toks[done]);
        assert(toks[done] == tok@);
    }
    match parse_token(tok) {
        Some(x) => {
            out.push(x);
            proof {
                assert(forall|k: int|
                    0 <= k < toks.len() ==> valid_token(#[trigger] toks[k]) && out@[k] as int
                        == token_val(toks[k]));
                assert(list_values(bs).len() == toks.len());
            }
            Ok(out)
        },
        None => {
            proof {
                assert(!valid_token(split_commas(bs)[done]));
                assert(!valid_list(bs));
                assert(forall|m: int|
                    0 <= m < done ==> valid_token(#[trigger] split_commas(bs)[m]));
            }
            Err(ParseError { token_index: out.len() })
        },
    }
}

} // verus!
