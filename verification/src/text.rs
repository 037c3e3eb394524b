//! Decimal rendering of counters into fixed-width, right-justified fields.
//!
//! Counts are printed right-justified in a fixed-width column.  The field is
//! modelled on bytes: `decimal_digits` gives the ASCII digits of a number and
//! `field_text` pads them on the left with spaces up to the column width.

use vstd::prelude::*;

verus! {

/// ASCII code of the space character.
pub const SPACE: u8 = 32;

/// The ASCII decimal digits of `n`, most significant first.
pub open spec fn decimal_digits(n: nat) -> Seq<u8>
    decreases n,
{
    if n < 10 {
        seq![(48 + n) as u8]
    } else {
        decimal_digits(n / 10) + seq![(48 + n % 10) as u8]
    }
}

/// `s` padded on the left with spaces up to `width` bytes; `s` itself when it
/// is already at least that wide.
pub open spec fn right_justified(s: Seq<u8>, width: nat) -> Seq<u8> {
    if s.len() >= width {
        s
    } else {
        Seq::new((width - s.len()) as nat, |i: int| SPACE) + s
    }
}

/// The decimal digits of `n`, right-justified in a `width`-byte field.
pub open spec fn field_text(n: nat, width: nat) -> Seq<u8> {
    right_justified(decimal_digits(n), width)
}

/// Every byte of `decimal_digits` is an ASCII digit.
pub proof fn lemma_decimal_digits_ascii(n: nat)
    ensures
        forall|i: int| 0 <= i < decimal_digits(n).len() ==> 48 <= #[trigger] decimal_digits(n)[i] <= 57,
    decreases n,
{
    if n < 10 {
        assert((48 + n) as u8 == 48 + n);
        assert(decimal_digits(n) == seq![(48 + n) as u8]);
    } else {
        lemma_decimal_digits_ascii(n / 10);
        assert((48 + n % 10) as u8 == 48 + n % 10);
        assert forall|i: int| 0 <= i < decimal_digits(n).len() implies 48
            <= #[trigger] decimal_digits(n)[i] <= 57 by {
            if i < decimal_digits(n / 10).len() {
                assert(decimal_digits(n)[i] == decimal_digits(n / 10)[i]);
            }
        }
    }
}

/// Every byte of `field_text` is an ASCII space or digit.
pub proof fn lemma_field_text_ascii(n: nat, width: nat)
    ensures
        forall|i: int| 0 <= i < field_text(n, width).len() ==> 32 <= #[trigger] field_text(n, width)[i] <= 57,
{
    lemma_decimal_digits_ascii(n);
}

/// Appends the decimal digits of `n` to `out`.
pub fn push_decimal(n: usize, out: &mut Vec<u8>)
    ensures
        final(out)@ == old(out)@ + decimal_digits(n as nat),
    decreases n,
{
    if n >= 10 {
        proof {
            assert(n / 10 < n) by (nonlinear_arith)
                requires n >= 10;
        }
        push_decimal(n / 10, out);
    }
    out.push(48 + (n % 10) as u8);
}

/// The decimal digits of `n`, right-justified in a `width`-byte field.
pub fn field_bytes(n: usize, width: usize) -> (v: Vec<u8>)
    ensures
        v@ == field_text(n as nat, width as nat),
{
    let mut digits: Vec<u8> = Vec::new();
    push_decimal(n, &mut digits);
    let ghost ds = digits@;
    let pad = if digits.len() >= width {
        0
    } else {
        width - digits.len()
    };
    let mut v: Vec<u8> = Vec::new();
    while v.len() < pad
        invariant
            v@ =~= Seq::new(v@.len() as nat, |i: int| SPACE),
            v@.len() <= pad,
        decreases pad - v.len(),
    {
        v.push(SPACE);
        proof {
            assert(v@ =~= Seq::new(v@.len() as nat, |i: int| SPACE));
        }
    }
    v.append(&mut digits);
    proof {
        assert(ds =~= decimal_digits(n as nat));
        assert(v@ =~= right_justified(ds, width as nat));
    }
    v
}

/// Builds a `String` from bytes that are all ASCII.
///
/// Relies on `String::from_utf8`: a sequence of bytes below 128 is valid
/// UTF-8 and decodes to one character per byte, with the same code points.
#[verifier::external_body]
fn ascii_string(v: Vec<u8>) -> (r: String)
    requires
        forall|i: int| 0 <= i < v@.len() ==> v@[i] < 128,
    ensures
        r@ == v@.map_values(|b: u8| b as char),
{
    String::from_utf8(v).unwrap()
}

/// The decimal digits of `n`, right-justified in a `width`-character field,
/// as a string.
pub fn field_string(n: usize, width: usize) -> (r: String)
    ensures
        r@ == field_text(n as nat, width as nat).map_values(|b: u8| b as char),
{
    let v = field_bytes(n, width);
    proof {
        lemma_field_text_ascii(n as nat, width as nat);
    }
    ascii_string(v)
}

} // verus!
