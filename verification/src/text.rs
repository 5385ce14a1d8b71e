//! Text helpers: rendering a number as a decimal numeral, and reading a
//! signed 32-bit integer back from text, both against one spec-level
//! description of the numeral format.

use vstd::prelude::*;

verus! {

/// Relies on `String::push`: appends exactly one character at the end.
#[verifier::external_body]
pub fn push_char(s: &mut String, c: char)
    ensures
        final(s)@ == old(s)@.push(c),
{
    s.push(c)
}

pub open spec fn char_of_digit(d: int) -> char {
    if d == 0 {
        '0'
    } else if d == 1 {
        '1'
    } else if d == 2 {
        '2'
    } else if d == 3 {
        '3'
    } else if d == 4 {
        '4'
    } else if d == 5 {
        '5'
    } else if d == 6 {
        '6'
    } else if d == 7 {
        '7'
    } else if d == 8 {
        '8'
    } else {
        '9'
    }
}

/// The decimal numeral of `n`, most significant digit first, no sign and no
/// leading zeros (except for `n == 0` itself).
pub open spec fn dec_rep(n: nat) -> Seq<char>
    decreases n,
{
    if n < 10 {
        seq![char_of_digit(n as int)]
    } else {
        dec_rep(n / 10) + seq![char_of_digit((n % 10) as int)]
    }
}

fn digit_char(d: usize) -> (c: char)
    requires
        d < 10,
    ensures
        c == char_of_digit(d as int),
{
    match d {
        0 => '0',
        1 => '1',
        2 => '2',
        3 => '3',
        4 => '4',
        5 => '5',
        6 => '6',
        7 => '7',
        8 => '8',
        _ => '9',
    }
}

/// Appends the decimal numeral of `n` to `out`.
pub fn push_dec(n: usize, out: &mut String)
    ensures
        final(out)@ == old(out)@ + dec_rep(n as nat),
    decreases n,
{
    if n >= 10 {
        push_dec(n / 10, out);
        push_char(out, digit_char(n % 10));
        assert((old(out)@ + dec_rep((n / 10) as nat)).push(char_of_digit((n % 10) as int)) =~= old(
            out,
        )@ + dec_rep(n as nat));
    } else {
        push_char(out, digit_char(n));
        assert(old(out)@.push(char_of_digit(n as int)) =~= old(out)@ + dec_rep(n as nat));
    }
}

pub open spec fn is_digit(c: char) -> bool {
    48 <= c as int <= 57
}

pub open spec fn digit_val(c: char) -> int {
    c as int - 48
}

pub open spec fn all_digits(s: Seq<char>) -> bool {
    forall|k: int| 0 <= k < s.len() ==> is_digit(#[trigger] s[k])
}

/// The value of a sequence of decimal digits, most significant first.
pub open spec fn digits_val(s: Seq<char>) -> int
    decreases s.len(),
{
    if s.len() == 0 {
        0
    } else {
        10 * digits_val(s.drop_last()) + digit_val(s.last())
    }
}

/// The digits of a numeral, with an optional single leading `+` or `-` removed.
pub open spec fn numeral_body(s: Seq<char>) -> Seq<char> {
    if s.len() > 0 && (s[0] == '-' || s[0] == '+') {
        s.drop_first()
    } else {
        s
    }
}

pub open spec fn numeral_negative(s: Seq<char>) -> bool {
    s.len() > 0 && s[0] == '-'
}

pub open spec fn numeral_value(s: Seq<char>) -> int {
    if numeral_negative(s) {
        -digits_val(numeral_body(s))
    } else {
        digits_val(numeral_body(s))
    }
}

/// What reading text as an `i32` yields: an optional sign followed by at
/// least one decimal digit, whose value fits the `i32` range; anything else
/// is rejected.
pub open spec fn parse_i32_spec(s: Seq<char>) -> Option<int> {
    if numeral_body(s).len() > 0 && all_digits(numeral_body(s)) && -0x8000_0000 <= numeral_value(s)
        <= 0x7fff_ffff {
        Some(numeral_value(s))
    } else {
        None
    }
}

proof fn lemma_digits_val_nonneg(s: Seq<char>)
    requires
        all_digits(s),
    ensures
        digits_val(s) >= 0,
    decreases s.len(),
{
    if s.len() > 0 {
        assert(all_digits(s.drop_last()));
        lemma_digits_val_nonneg(s.drop_last());
    }
}

/// A prefix of a digit string never has a larger value than the whole.
proof fn lemma_digits_val_prefix(s: Seq<char>, j: int)
    requires
        0 <= j <= s.len(),
        all_digits(s),
    ensures
        digits_val(s.take(j)) <= digits_val(s),
    decreases s.len() - j,
{
    if j == s.len() {
        assert(s.take(j) =~= s);
    } else {
        assert(s.take(j + 1).drop_last() =~= s.take(j));
        assert(all_digits(s.take(j)));
        lemma_digits_val_nonneg(s.take(j));
        assert(digits_val(s.take(j + 1)) == 10 * digits_val(s.take(j)) + digit_val(s[j]));
        lemma_digits_val_prefix(s, j + 1);
    }
}

/// Reads `s` as an `i32`: an optional sign and at least one decimal digit,
/// rejecting anything malformed or out of range.
pub fn parse_i32(s: &str) -> (r: Option<i32>)
    ensures
        match r {
            Some(v) => parse_i32_spec(s@) == Some(v as int),
            None => parse_i32_spec(s@) is None,
        },
{
    let n = s.unicode_len();
    let mut i: usize = 0;
    let mut neg = false;
    if n > 0 {
        let c0 = s.get_char(0);
        if c0 == '-' {
            neg = true;
            i = 1;
        } else if c0 == '+' {
            i = 1;
        }
    }
    let ghost start = i as int;
    let ghost body = numeral_body(s@);
    proof {
        assert(body =~= s@.subrange(start, n as int));
    }
    if i == n {
        // no digits at all
        return None;
    }
    let mut mag: u64 = 0;
    while i < n
        invariant
            0 <= start,
            start <= i as int <= n,
            n == s@.len(),
            body == s@.subrange(start, n as int),
            body == numeral_body(s@),
            neg == numeral_negative(s@),
            all_digits(body.take(i - start)),
            mag as int == digits_val(body.take(i - start)),
            mag <= 0x8000_0000,
        decreases n - i,
    {
        let c = s.get_char(i);
        proof {
            assert(body[i - start] == s@[i as int]);
        }
        let v = c as u32;
        assert(v as int == c as int);
        if v < 48 || v > 57 {
            // a non-digit makes the whole numeral invalid
            assert(!is_digit(body[i - start]));
            return None;
        }
        let d = (v - 48) as u64;
        let next = mag * 10 + d;
        proof {
            assert(body.take(i - start + 1).drop_last() =~= body.take(i - start));
            assert(body.take(i - start + 1).last() == body[i - start]);
            assert(digits_val(body.take(i - start + 1)) == 10 * mag + digit_val(body[i - start]));
            assert(all_digits(body.take(i - start + 1)));
        }
        if next > 0x8000_0000u64 {
            // the value can only grow with further digits, so it is out of range
            proof {
                if all_digits(body) {
                    lemma_digits_val_prefix(body, i - start + 1);
                    assert(digits_val(body) > 0x8000_0000);
                }
            }
            return None;
        }
        mag = next;
        i += 1;
    }
    proof {
        assert(body.take(n - start) =~= body);
    }
    if neg {
        let val = -(mag as i64);
        assert(-0x8000_0000 <= val <= 0);
        Some(val as i32)
    } else {
        if mag > 0x7fff_ffff {
            return None;
        }
        Some(mag as i32)
    }
}

} // verus!
