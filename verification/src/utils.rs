//! Small shared helpers: character validation and decimal rendering of
//! the integers that appear in error messages and state dumps.

use vstd::prelude::*;
use crate::ast::{Char, ALPHABET_SIZE};
use crate::error::CompilerError;

verus! {

/// A character is a legal alphabet character when it is neither the blank
/// character `0` nor outside the 7-bit alphabet.
pub open spec fn spec_valid_char(c: Char) -> bool {
    c != 0 && c < ALPHABET_SIZE
}

/// Checks that `c` is a legal alphabet character.
pub fn validate_char(c: Char) -> (r: Result<(), CompilerError>)
    ensures
        match r {
            Ok(()) => spec_valid_char(c),
            Err(e) => !spec_valid_char(c) && e == CompilerError::InvalidCharacter(c),
        },
{
    if c == 0 || c >= ALPHABET_SIZE {
        Err(CompilerError::InvalidCharacter(c))
    } else {
        Ok(())
    }
}

/// The ASCII byte of a single decimal digit.
pub open spec fn spec_digit_byte(d: int) -> u8
    recommends
        0 <= d < 10,
{
    (48 + d) as u8
}

/// The ASCII bytes of the decimal rendering of `n`, most significant
/// digit first, with no sign and no leading zeros (`0` renders as "0").
pub open spec fn spec_nat_bytes(n: nat) -> Seq<u8>
    decreases n,
{
    if n < 10 {
        seq![spec_digit_byte(n as int)]
    } else {
        spec_nat_bytes(n / 10) + seq![spec_digit_byte((n % 10) as int)]
    }
}

/// The ASCII bytes of the decimal rendering of `v`, with a leading `-`
/// when `v` is negative.
pub open spec fn spec_int_bytes(v: int) -> Seq<u8> {
    if v < 0 {
        seq![45u8] + spec_nat_bytes((-v) as nat)
    } else {
        spec_nat_bytes(v as nat)
    }
}

/// The characters of the decimal rendering of `n`.
pub open spec fn spec_nat_chars(n: nat) -> Seq<char> {
    spec_nat_bytes(n).map_values(|b: u8| b as char)
}

/// Every byte of a decimal rendering is a printable ASCII digit.
pub proof fn lemma_nat_bytes_ascii(n: nat)
    ensures
        forall|k: int| 0 <= k < spec_nat_bytes(n).len() ==> 48 <= #[trigger] spec_nat_bytes(
            n,
        )[k] < 58,
    decreases n,
{
    if n < 10 {
        assert(spec_nat_bytes(n) =~= seq![spec_digit_byte(n as int)]);
    } else {
        lemma_nat_bytes_ascii(n / 10);
        let s1 = spec_nat_bytes(n / 10);
        let s2 = seq![spec_digit_byte((n % 10) as int)];
        assert forall|k: int| 0 <= k < spec_nat_bytes(n).len() implies 48 <= #[trigger] spec_nat_bytes(
            n,
        )[k] < 58 by {
            assert(spec_nat_bytes(n) == s1 + s2);
            if k < s1.len() {
                assert(spec_nat_bytes(n)[k] == s1[k]);
            } else {
                assert(spec_nat_bytes(n)[k] == spec_digit_byte((n % 10) as int));
            }
        }
    }
}

/// Appends the decimal digits of `n` to `out`.
pub fn push_nat_bytes(out: &mut Vec<u8>, n: u64)
    ensures
        final(out)@ == old(out)@ + spec_nat_bytes(n as nat),
{
    // Digits are produced least significant first, then copied in reverse.
    if n == 0 {
        out.push(48);
        proof {
            assert(spec_nat_bytes(0) =~= seq![48u8]);
            assert(out@ =~= old(out)@ + spec_nat_bytes(0));
        }
        return ;
    }
    let mut rev: Vec<u8> = Vec::new();
    let mut m: u64 = n;
    proof {
        assert(spec_nat_bytes(n as nat) =~= spec_nat_bytes(n as nat) + rev@.reverse());
    }
    while m > 0
        invariant
            m > 0 ==> spec_nat_bytes(n as nat) == spec_nat_bytes(m as nat) + rev@.reverse(),
            m == 0 ==> spec_nat_bytes(n as nat) == rev@.reverse(),
        decreases m,
    {
        let ghost prev_rev = rev@;
        let ghost prev_m = m as nat;
        let d: u8 = (m % 10) as u8;
        rev.push(48 + d);
        m = m / 10;
        proof {
            assert(rev@.reverse() =~= seq![spec_digit_byte((prev_m % 10) as int)]
                + prev_rev.reverse());
            if prev_m < 10 {
                assert(spec_nat_bytes(prev_m) == seq![spec_digit_byte(prev_m as int)]);
            } else {
                assert(spec_nat_bytes(prev_m) == spec_nat_bytes(prev_m / 10) + seq![
                    spec_digit_byte((prev_m % 10) as int),
                ]);
            }
            if m == 0 {
                assert(spec_nat_bytes(n as nat) =~= rev@.reverse());
            } else {
                assert(spec_nat_bytes(n as nat) =~= spec_nat_bytes(m as nat) + rev@.reverse());
            }
        }
    }
    let ghost entry = out@;
    let mut k: usize = rev.len();
    while k > 0
        invariant
            k <= rev@.len(),
            spec_nat_bytes(n as nat) == rev@.reverse(),
            out@ == entry + rev@.reverse().take(rev@.len() - k),
        decreases k,
    {
        k = k - 1;
        out.push(rev[k]);
        proof {
            assert(out@ =~= entry + rev@.reverse().take(rev@.len() - k));
        }
    }
    proof {
        assert(rev@.reverse().take(rev@.len() as int) =~= rev@.reverse());
        assert(out@ =~= entry + spec_nat_bytes(n as nat));
    }
}

/// Appends the decimal rendering of `v`, sign included, to `out`.
pub fn push_int_bytes(out: &mut Vec<u8>, v: i64)
    ensures
        final(out)@ == old(out)@ + spec_int_bytes(v as int),
{
    if v < 0 {
        out.push(45);
        let m: u64 = (-(v as i128)) as u64;
        push_nat_bytes(out, m);
        proof {
            assert(out@ =~= old(out)@ + spec_int_bytes(v as int));
        }
    } else {
        push_nat_bytes(out, v as u64);
    }
}

/// Relies on `String::from_utf8_lossy`: a sequence of bytes below 128 is
/// valid UTF-8 and decodes to exactly those code points.
#[verifier::external_body]
pub fn ascii_to_string(v: &Vec<u8>) -> (s: String)
    requires
        forall|k: int| 0 <= k < v@.len() ==> v@[k] < 128,
    ensures
        s@ == v@.map_values(|b: u8| b as char),
{
    String::from_utf8_lossy(v.as_slice()).into_owned()
}

/// Relies on `String::from`: the resulting string holds the one character
/// it was built from.
#[verifier::external_body]
pub fn char_to_string(c: char) -> (s: String)
    ensures
        s@ == seq![c],
{
    String::from(c)
}

/// Renders `n` in decimal as a string.
pub fn u64_to_string(n: u64) -> (s: String)
    ensures
        s@ == spec_nat_chars(n as nat),
{
    let mut bytes: Vec<u8> = Vec::new();
    push_nat_bytes(&mut bytes, n);
    proof {
        lemma_nat_bytes_ascii(n as nat);
    }
    ascii_to_string(&bytes)
}

} // verus!
