//! Writing numbers as text.
use vstd::prelude::*;
use vstd::string::StringExecFns;

verus! {

/// `String::push` of the standard library: it appends the character to the
/// end of the string and changes nothing else.
pub assume_specification[ String::push ](s: &mut String, c: char)
    ensures
        final(s)@ == old(s)@.push(c),
;

/// The character for the digit `d` of a radix up to 16, in lower case.
pub open spec fn digit_char(d: nat) -> char {
    if d < 10 {
        (('0' as nat + d) as u8) as char
    } else {
        (('a' as nat + d - 10) as u8) as char
    }
}

/// The digits of `n` in `radix`, most significant first, without leading
/// zeros; zero is written as one digit.
pub open spec fn radix_digits(n: nat, radix: nat) -> Seq<char>
    decreases n,
    via radix_digits_shrink
{
    if radix < 2 || n < radix {
        seq![digit_char(n)]
    } else {
        radix_digits(n / radix, radix).push(digit_char(n % radix))
    }
}

#[via_fn]
proof fn radix_digits_shrink(n: nat, radix: nat) {
    if !(radix < 2 || n < radix) {
        lemma_quotient_shrinks(n, radix);
    }
}

/// Dividing by two or more makes a number that is not zero smaller, and
/// the remainder of a number below the divisor is the number.
pub proof fn lemma_quotient_shrinks(n: nat, radix: nat)
    by (nonlinear_arith)
    requires
        radix >= 2,
    ensures
        n > 0 ==> n / radix < n,
        n < radix ==> n % radix == n,
        n % radix < radix,
{
}

/// The last `width` digits of `n` in `radix`, most significant first, with
/// leading zeros where `n` has fewer digits.
pub open spec fn padded_digits(n: nat, radix: nat, width: nat) -> Seq<char>
    decreases width,
{
    if width == 0 {
        Seq::empty()
    } else {
        padded_digits(n / radix, radix, (width - 1) as nat).push(digit_char(n % radix))
    }
}

/// The character for a digit.
pub fn digit(d: u64) -> (c: char)
    requires
        d < 16,
    ensures
        c == digit_char(d as nat),
{
    if d < 10 {
        (('0' as u8) + d as u8) as char
    } else {
        (('a' as u8) + (d as u8 - 10)) as char
    }
}

/// Appends the digits of `n` in `radix`.
pub fn push_radix(s: &mut String, n: u64, radix: u64)
    requires
        2 <= radix <= 16,
    ensures
        final(s)@ == old(s)@ + radix_digits(n as nat, radix as nat),
    decreases n,
{
    let ghost before = s@;
    proof {
        lemma_quotient_shrinks(n as nat, radix as nat);
    }
    if n >= radix {
        push_radix(s, n / radix, radix);
    }
    s.push(digit(n % radix));
    proof {
        if n >= radix {
            let high = radix_digits((n / radix) as nat, radix as nat);
            let last = digit_char((n % radix) as nat);
            assert(s@ =~= before + high.push(last));
        } else {
            assert(s@ =~= before + seq![digit_char(n as nat)]);
        }
    }
}

/// Appends the last `width` digits of `n` in `radix`, with leading zeros.
pub fn push_padded(s: &mut String, n: u64, radix: u64, width: usize)
    requires
        2 <= radix <= 16,
    ensures
        final(s)@ == old(s)@ + padded_digits(n as nat, radix as nat, width as nat),
    decreases width,
{
    let ghost before = s@;
    if width > 0 {
        push_padded(s, n / radix, radix, width - 1);
        s.push(digit(n % radix));
        proof {
            let high = padded_digits((n / radix) as nat, radix as nat, (width - 1) as nat);
            let last = digit_char((n % radix) as nat);
            assert(s@ =~= before + high.push(last));
        }
    } else {
        assert(s@ =~= before + Seq::<char>::empty());
    }
}

/// Appends the characters of `text`.
pub fn push_text(s: &mut String, text: &str)
    ensures
        final(s)@ == old(s)@ + text@,
{
    s.append(text);
}

} // verus!
