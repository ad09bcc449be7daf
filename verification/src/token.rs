//! The daily token: a line that carries it exempts its address from the rate
//! rule.

use vstd::prelude::*;
use vstd::string::StringSliceAdditionalSpecFns;

verus! {

/// The MD5 digest of `data`.
pub uninterp spec fn md5_of(data: Seq<u8>) -> Seq<u8>;

/// `md5::compute` gives the sixteen bytes of the MD5 digest of `data`.
#[verifier::external_body]
fn digest(data: &[u8]) -> (sum: [u8; 16])
    ensures
        sum@ == md5_of(data@),
{
    ::md5::compute(data).0
}

/// The lower-case hexadecimal digit for `nibble`.
pub open spec fn hex_digit(nibble: int) -> u8 {
    if nibble < 10 {
        (0x30 + nibble) as u8
    } else {
        (0x61 + nibble - 10) as u8
    }
}

/// The lower-case hexadecimal form of `data`: two digits for each byte, the
/// high half first.
pub open spec fn hex_lower(data: Seq<u8>) -> Seq<u8> {
    Seq::new(
        2 * data.len(),
        |i: int|
            if i % 2 == 0 {
                hex_digit(data[i / 2] as int / 16)
            } else {
                hex_digit(data[i / 2] as int % 16)
            },
    )
}

/// The token of the day `date` under `secret`: the hexadecimal form of the
/// MD5 digest of the date followed by the secret.
pub open spec fn token_of(date: Seq<u8>, secret: Seq<u8>) -> Seq<u8> {
    hex_lower(md5_of(date + secret))
}

/// The lower-case hexadecimal digit for `nibble`.
fn digit_for(nibble: u8) -> (digit: u8)
    requires
        nibble < 16,
    ensures
        digit == hex_digit(nibble as int),
{
    if nibble < 10 {
        0x30 + nibble
    } else {
        0x61 + (nibble - 10)
    }
}

/// The lower-case hexadecimal form of `data`.
pub fn to_hex(data: &[u8]) -> (text: Vec<u8>)
    ensures
        text@ == hex_lower(data@),
{
    let mut text: Vec<u8> = Vec::new();
    let mut i: usize = 0;
    while i < data.len()
        invariant
            i <= data@.len(),
            text@.len() == 2 * i,
            forall|k: int| 0 <= k < 2 * i ==> text@[k] == hex_lower(data@)[k],
        decreases data@.len() - i,
    {
        let byte: u8 = data[i];
        text.push(digit_for(byte / 16));
        text.push(digit_for(byte % 16));
        i += 1;
    }
    assert(text@ =~= hex_lower(data@));
    text
}

/// The token of the day `date`, written as eight digits, under `secret`.
pub fn daily_token(date: &str, secret: &str) -> (token: Vec<u8>)
    ensures
        token@ == token_of(date.spec_bytes(), secret.spec_bytes()),
        token@.len() == 32,
{
    let first: &[u8] = date.as_bytes();
    let second: &[u8] = secret.as_bytes();
    let mut message: Vec<u8> = Vec::new();
    let mut i: usize = 0;
    while i < first.len()
        invariant
            i <= first@.len(),
            message@ == first@.subrange(0, i as int),
        decreases first@.len() - i,
    {
        message.push(first[i]);
        i += 1;
        assert(message@ =~= first@.subrange(0, i as int));
    }
    let mut j: usize = 0;
    while j < second.len()
        invariant
            j <= second@.len(),
            message@ == first@ + second@.subrange(0, j as int),
        decreases second@.len() - j,
    {
        message.push(second[j]);
        j += 1;
        assert(message@ =~= first@ + second@.subrange(0, j as int));
    }
    assert(message@ =~= first@ + second@);
    let sum: [u8; 16] = digest(message.as_slice());
    to_hex(sum.as_slice())
}

} // verus!
