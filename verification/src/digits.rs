//! Fixed-width decimal digit strings: rendering a number as zero-padded
//! digits, reading digits back, and the proof that the two are inverse.
use vstd::prelude::*;
use vstd::string::StringExecFns;

verus! {

pub open spec fn digit_char(d: int) -> char {
    if d == 0 {
        '0'
    } else if d == 1 {
        '1'
    } else if d == 2 {
        '2'
    } else if d == 3 {
        '3'
    } else if d == 4 {
        '4'
    } else if d == 5 {
        '5'
    } else if d == 6 {
        '6'
    } else if d == 7 {
        '7'
    } else if d == 8 {
        '8'
    } else {
        '9'
    }
}

pub open spec fn is_digit_char(c: char) -> bool {
    '0' as int <= c as int <= '9' as int
}

pub open spec fn digit_val(c: char) -> int {
    c as int - '0' as int
}

pub open spec fn all_digits(s: Seq<char>) -> bool {
    forall|i: int| 0 <= i < s.len() ==> is_digit_char(s[i])
}

/// `n` written in decimal, zero-padded to exactly `width` digits
/// (most significant first; `n`'s digits beyond `width` are dropped).
pub open spec fn dec_digits(n: int, width: nat) -> Seq<char>
    decreases width,
{
    if width == 0 {
        Seq::empty()
    } else {
        dec_digits(n / 10, (width - 1) as nat).push(digit_char(n % 10))
    }
}

/// The value of a digit string, most significant digit first.
pub open spec fn dec_value(s: Seq<char>) -> int
    decreases s.len(),
{
    if s.len() == 0 {
        0
    } else {
        dec_value(s.drop_last()) * 10 + digit_val(s.last())
    }
}

pub open spec fn pow10(w: nat) -> int
    decreases w,
{
    if w == 0 {
        1
    } else {
        10 * pow10((w - 1) as nat)
    }
}

pub proof fn lemma_dec_digits_len(n: int, width: nat)
    ensures
        dec_digits(n, width).len() == width,
        all_digits(dec_digits(n, width)),
    decreases width,
{
    if width > 0 {
        lemma_dec_digits_len(n / 10, (width - 1) as nat);
    }
}

/// Rendering then reading back gives the number again.
pub proof fn lemma_dec_round_trip(n: int, width: nat)
    requires
        0 <= n < pow10(width),
    ensures
        dec_value(dec_digits(n, width)) == n,
    decreases width,
{
    if width == 0 {
    } else {
        let s = dec_digits(n, width);
        let prefix = dec_digits(n / 10, (width - 1) as nat);
        lemma_dec_digits_len(n / 10, (width - 1) as nat);
        assert(s.drop_last() =~= prefix);
        assert(s.last() == digit_char(n % 10));
        assert(n / 10 < pow10((width - 1) as nat)) by {
            assert(pow10(width) == 10 * pow10((width - 1) as nat));
        };
        lemma_dec_round_trip(n / 10, (width - 1) as nat);
        assert(digit_val(digit_char(n % 10)) == n % 10);
        assert((n / 10) * 10 + n % 10 == n);
    }
}

/// One decimal digit as a borrowed string.
pub fn digit_str(d: u32) -> (r: &'static str)
    requires
        d < 10,
    ensures
        r@ =~= seq![digit_char(d as int)],
{
    proof {
        reveal_strlit("0");
        reveal_strlit("1");
        reveal_strlit("2");
        reveal_strlit("3");
        reveal_strlit("4");
        reveal_strlit("5");
        reveal_strlit("6");
        reveal_strlit("7");
        reveal_strlit("8");
        reveal_strlit("9");
    }
    if d == 0 {
        "0"
    } else if d == 1 {
        "1"
    } else if d == 2 {
        "2"
    } else if d == 3 {
        "3"
    } else if d == 4 {
        "4"
    } else if d == 5 {
        "5"
    } else if d == 6 {
        "6"
    } else if d == 7 {
        "7"
    } else if d == 8 {
        "8"
    } else {
        "9"
    }
}

/// `n` in decimal, zero-padded to `width` digits.
pub fn dec_string(n: u32, width: u32) -> (r: String)
    ensures
        r@ == dec_digits(n as int, width as nat),
    decreases width,
{
    if width == 0 {
        String::new()
    } else {
        let mut r = dec_string(n / 10, width - 1);
        r.append(digit_str(n % 10));
        proof {
            assert(r@ =~= dec_digits(n as int, width as nat));
        }
        r
    }
}

} // verus!
