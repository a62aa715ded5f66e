//! Conversion of ASCII byte runs and decimal numbers to `String`s.
use vstd::prelude::*;
use vstd::utf8::{decode_utf8, valid_utf8};

verus! {

/// `std::str::Utf8Error`, the error of a failed UTF-8 conversion.
#[verifier::external_type_specification]
#[verifier::external_body]
pub struct ExUtf8Error(core::str::Utf8Error);

/// The characters denoted by a sequence of ASCII bytes, one per byte.
pub open spec fn ascii_chars(b: Seq<u8>) -> Seq<char> {
    b.map_values(|x: u8| x as char)
}

/// Every byte of `b` is an ASCII byte (below 0x80).
pub open spec fn all_ascii(b: Seq<u8>) -> bool {
    forall|i: int| 0 <= i < b.len() ==> b[i] < 0x80
}

/// `std::str::from_utf8`: it succeeds exactly when the bytes are valid UTF-8,
/// and the string slice it returns holds the characters those bytes encode.
#[verifier::external_body]
fn str_from_utf8(b: &[u8]) -> (r: Result<&str, core::str::Utf8Error>)
    ensures
        r is Ok <==> valid_utf8(b@),
        r matches Ok(s) ==> s@ == decode_utf8(b@),
{
    core::str::from_utf8(b)
}

/// A sequence of ASCII bytes is valid UTF-8 and decodes to one character per byte.
pub proof fn lemma_ascii_utf8(b: Seq<u8>)
    requires
        all_ascii(b),
    ensures
        valid_utf8(b),
        decode_utf8(b) == ascii_chars(b),
    decreases b.len(),
{
    if b.len() > 0 {
        let b0 = b[0];
        assert((b0 & 0x7F) as u32 == b0 as u32) by (bit_vector)
            requires
                b0 < 0x80,
        ;
        let rest = b.subrange(1, b.len() as int);
        assert(rest =~= b.drop_first());
        lemma_ascii_utf8(rest);
        assert(decode_utf8(b) =~= ascii_chars(b));
    } else {
        assert(decode_utf8(b) =~= ascii_chars(b));
    }
}

/// The `String` holding the ASCII bytes `b`, one character per byte.
pub fn ascii_to_string(b: &[u8]) -> (s: String)
    requires
        all_ascii(b@),
    ensures
        s@ == ascii_chars(b@),
{
    proof {
        lemma_ascii_utf8(b@);
    }
    match str_from_utf8(b) {
        Ok(t) => t.to_owned(),
        Err(_) => {
            assert(false);
            String::new()
        },
    }
}

// ─── Decimal formatting ──────────────────────────────────────────────────────

/// The ASCII decimal digits of `n`, without leading zeros.
pub open spec fn decimal(n: nat) -> Seq<u8>
    decreases n,
{
    if n < 10 {
        seq![(0x30 + n) as u8]
    } else {
        decimal(n / 10).push((0x30 + n % 10) as u8)
    }
}

/// `s` left-padded with ASCII zeros to at least `width` bytes.
pub open spec fn zero_pad(s: Seq<u8>, width: nat) -> Seq<u8> {
    if s.len() >= width {
        s
    } else {
        Seq::new((width - s.len()) as nat, |i: int| 0x30u8) + s
    }
}

/// Decimal digits are ASCII, and a number below 2^32 has at most 10 of them.
pub proof fn lemma_decimal(n: nat)
    ensures
        all_ascii(decimal(n)),
        1 <= decimal(n).len(),
        n < 10 ==> decimal(n).len() == 1,
        n < 100 ==> decimal(n).len() <= 2,
        n < 1000 ==> decimal(n).len() <= 3,
        n < 10000 ==> decimal(n).len() <= 4,
        n < 100000 ==> decimal(n).len() <= 5,
        n < 1000000 ==> decimal(n).len() <= 6,
        n < 10000000 ==> decimal(n).len() <= 7,
        n < 100000000 ==> decimal(n).len() <= 8,
        n < 1000000000 ==> decimal(n).len() <= 9,
        n < 10000000000 ==> decimal(n).len() <= 10,
    decreases n,
{
    if n >= 10 {
        lemma_decimal(n / 10);
    }
}

/// Number of decimal digits of `n`.
fn decimal_len(n: u32) -> (r: usize)
    ensures
        r == decimal(n as nat).len(),
    decreases n,
{
    proof {
        lemma_decimal(n as nat);
    }
    if n < 10 {
        1
    } else {
        decimal_len(n / 10) + 1
    }
}

/// Append the decimal digits of `n` to `out`.
fn push_decimal(out: &mut Vec<u8>, n: u32)
    ensures
        final(out)@ == old(out)@ + decimal(n as nat),
    decreases n,
{
    if n >= 10 {
        push_decimal(out, n / 10);
    }
    out.push((0x30 + n % 10) as u8);
    assert(final(out)@ =~= old(out)@ + decimal(n as nat));
}

/// Append the decimal digits of `n`, left-padded with zeros to `width`, to `out`.
pub fn push_padded_decimal(out: &mut Vec<u8>, n: u32, width: usize)
    ensures
        final(out)@ == old(out)@ + zero_pad(decimal(n as nat), width as nat),
{
    let len = decimal_len(n);
    let ghost start = out@;
    if len < width {
        let mut k: usize = 0;
        while k < width - len
            invariant
                len < width,
                k <= width - len,
                out@ == start + Seq::new(k as nat, |i: int| 0x30u8),
            decreases width - len - k,
        {
            out.push(0x30);
            k += 1;
            assert(out@ =~= start + Seq::new(k as nat, |i: int| 0x30u8));
        }
    }
    let ghost padded = out@;
    push_decimal(out, n);
    assert(out@ =~= start + zero_pad(decimal(n as nat), width as nat));
}

} // verus!
