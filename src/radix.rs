//! Writing numbers in a base between 2 and 36, as the solved grid is shown.
use vstd::prelude::*;
use vstd::arithmetic::div_mod::lemma_div_decreases;

verus! {

/// The digit for `d` (below 36): `0`-`9`, then lower-case `a`-`z`.
pub open spec fn digit_char(d: int) -> char {
    if d < 10 {
        ((48 + d) as u8) as char
    } else {
        ((87 + d) as u8) as char
    }
}

/// The digits of `x` in base `radix`, most significant first; zero is `0`.
pub open spec fn radix_digits(x: nat, radix: nat) -> Seq<char>
    recommends
        2 <= radix,
    decreases x,
    via radix_digits_decreases
{
    if x < radix || radix < 2 {
        seq![digit_char(x as int)]
    } else {
        radix_digits(x / radix, radix).push(digit_char((x % radix) as int))
    }
}

#[via_fn]
proof fn radix_digits_decreases(x: nat, radix: nat) {
    if !(x < radix || radix < 2) {
        lemma_div_decreases(x as int, radix as int);
    }
}

fn digit_of(d: u32) -> (c: char)
    requires
        d < 36,
    ensures
        c == digit_char(d as int),
{
    if d < 10 {
        ((48 + d) as u8) as char
    } else {
        ((87 + d) as u8) as char
    }
}

/// Relies on std's `FromIterator<char>` for `String` (`collect`): the string
/// holds the characters in order.
#[verifier::external_body]
fn string_of_chars(cs: Vec<char>) -> (s: String)
    ensures
        s@ == cs@,
{
    cs.into_iter().collect()
}

/// Writes `x` in base `radix`, most significant digit first, with lower-case
/// letters for digits above 9.
pub fn format_radix(x: u32, radix: u32) -> (r: String)
    requires
        2 <= radix <= 36,
    ensures
        r@ == radix_digits(x as nat, radix as nat),
{
    let mut rest = x;
    let mut result: Vec<char> = Vec::new();
    loop
        invariant
            2 <= radix <= 36,
            result@.len() == 0 ==> rest == x,
            result@.len() > 0 ==> rest > 0 && radix_digits(x as nat, radix as nat) == radix_digits(
                rest as nat,
                radix as nat,
            ) + result@,
        decreases rest,
    {
        let m = rest % radix;
        let ghost xo = rest;
        proof {
            if rest > 0 {
                lemma_div_decreases(rest as int, radix as int);
            }
        }
        let ghost ro = result@;
        rest = rest / radix;
        result.insert(0, digit_of(m));
        assert(result@ =~= seq![digit_char(m as int)] + ro);
        proof {
            assert((rest == 0 ==> xo < radix) && (rest > 0 ==> xo >= radix) && (xo < radix ==> m == xo))
                by (nonlinear_arith)
                requires
                    rest == xo / radix,
                    m == xo % radix,
                    radix >= 2,
            ;
            if ro.len() > 0 {
                if rest > 0 {
                    assert(radix_digits(xo as nat, radix as nat) == radix_digits(rest as nat, radix as nat).push(
                        digit_char(m as int),
                    ));
                    assert(radix_digits(x as nat, radix as nat) =~= radix_digits(rest as nat, radix as nat)
                        + result@);
                } else {
                    assert(radix_digits(x as nat, radix as nat) =~= result@);
                }
            } else if rest > 0 {
                assert(radix_digits(x as nat, radix as nat) =~= radix_digits(rest as nat, radix as nat)
                    + result@);
            } else {
                assert(radix_digits(x as nat, radix as nat) =~= result@);
            }
        }
        if rest == 0 {
            return string_of_chars(result);
        }
    }
}

} // verus!
