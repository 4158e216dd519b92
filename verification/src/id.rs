//! Stable identifiers and their fixed-width encodings.
use vstd::prelude::*;

use crate::error::Error;

verus! {

/// Number of hexadecimal digits in the text form of an identifier.
pub const HEX_WIDTH: usize = 32;

/// Number of bytes in the binary form of an identifier.
pub const BYTE_WIDTH: usize = 16;

/// A 128-bit identifier that stays with an entity for good, whatever handle
/// the scene gives it.
#[derive(Clone, Copy, Debug, PartialEq, Eq, Hash, Structural)]
pub struct StableId {
    pub bits: u128,
}

/// The mask that picks the bits which every drawn identifier has in common:
/// the version and variant marks of the UUID layout.
pub const FORM_MASK: u128 = 0x0000_0000_0000_f000_c000_0000_0000_0000;

/// The value of the bits under `FORM_MASK` in every drawn identifier.
pub const FORM_BITS: u128 = 0x0000_0000_0000_4000_8000_0000_0000_0000;

/// Whether `bits` has the form of a drawn identifier.
pub open spec fn is_drawn_form(bits: u128) -> bool {
    bits & FORM_MASK == FORM_BITS
}

/// Draws 128 bits from the operating system's random source.
///
/// This is `uuid::Uuid::new_v4` followed by `Uuid::as_u128`.  `new_v4` takes
/// 128 random bits and overwrites six of them with the version and variant
/// marks; `as_u128` reads the sixteen bytes back as one big-endian number.
/// All that is claimed is where those six bits stand and what they are;
/// nothing is claimed of the other 122.  `new_v4` panics when the operating
/// system cannot supply random bytes.
#[verifier::external_body]
fn draw_bits() -> (bits: u128)
    ensures
        is_drawn_form(bits),
{
    uuid::Uuid::new_v4().as_u128()
}

/// `16^n`.
pub open spec fn pow16(n: nat) -> nat
    decreases n,
{
    if n == 0 {
        1
    } else {
        16 * pow16((n - 1) as nat)
    }
}

/// The lower-case ASCII digit for `n`, where `0 <= n < 16`.
pub open spec fn hex_digit(n: int) -> u8 {
    if n < 10 {
        (0x30 + n) as u8
    } else {
        (0x61 + n - 10) as u8
    }
}

/// The value of an ASCII hexadecimal digit of either case, if `c` is one.
pub open spec fn hex_digit_value(c: u8) -> Option<int> {
    if 0x30 <= c <= 0x39 {
        Some(c - 0x30)
    } else if 0x61 <= c <= 0x66 {
        Some(c - 0x61 + 10)
    } else if 0x41 <= c <= 0x46 {
        Some(c - 0x41 + 10)
    } else {
        None
    }
}

/// Whether every byte of `text` is a hexadecimal digit.
pub open spec fn is_hex(text: Seq<u8>) -> bool {
    forall|i: int| 0 <= i < text.len() ==> (#[trigger] hex_digit_value(text[i])) is Some
}

/// The number that the digits of `text` spell, most significant first.
pub open spec fn hex_value(text: Seq<u8>) -> nat
    decreases text.len(),
{
    if text.len() == 0 {
        0
    } else {
        let digit = match hex_digit_value(text.last()) {
            Some(d) => d,
            None => 0,
        };
        (hex_value(text.drop_last()) * 16 + digit) as nat
    }
}

/// The `width` lowest hexadecimal digits of `value`, most significant first.
pub open spec fn hex_of(value: nat, width: nat) -> Seq<u8>
    decreases width,
{
    if width == 0 {
        Seq::empty()
    } else {
        hex_of(value / 16, (width - 1) as nat).push(hex_digit((value % 16) as int))
    }
}

/// Whether `text` is the text form of some identifier.
pub open spec fn well_formed_hex(text: Seq<u8>) -> bool {
    text.len() == HEX_WIDTH && is_hex(text)
}

/// `256^n`.
pub open spec fn pow256(n: nat) -> nat
    decreases n,
{
    if n == 0 {
        1
    } else {
        256 * pow256((n - 1) as nat)
    }
}

/// The number that `bytes` spell, most significant first.
pub open spec fn bytes_value(bytes: Seq<u8>) -> nat
    decreases bytes.len(),
{
    if bytes.len() == 0 {
        0
    } else {
        bytes_value(bytes.drop_last()) * 256 + bytes.last() as nat
    }
}

/// The `width` lowest bytes of `value`, most significant first.
pub open spec fn bytes_of(value: nat, width: nat) -> Seq<u8>
    decreases width,
{
    if width == 0 {
        Seq::empty()
    } else {
        bytes_of(value / 256, (width - 1) as nat).push((value % 256) as u8)
    }
}

/// Powers of 256 grow with the exponent and are never zero.
pub proof fn lemma_pow256_monotonic(a: nat, b: nat)
    requires
        a <= b,
    ensures
        pow256(a) <= pow256(b),
        pow256(a) >= 1,
    decreases b,
{
    if b > 0 {
        if a < b {
            lemma_pow256_monotonic(a, (b - 1) as nat);
        } else {
            lemma_pow256_monotonic((a - 1) as nat, (b - 1) as nat);
        }
    }
}

/// Sixteen bytes hold exactly the 128-bit numbers.
pub proof fn lemma_pow256_width()
    ensures
        pow256(BYTE_WIDTH as nat) == 0x1_0000_0000_0000_0000_0000_0000_0000_0000,
{
    reveal_with_fuel(pow256, 17);
}

/// A string of bytes spells a number below `256^len`.
pub proof fn lemma_bytes_value_bound(bytes: Seq<u8>)
    ensures
        bytes_value(bytes) < pow256(bytes.len()),
    decreases bytes.len(),
{
    if bytes.len() > 0 {
        lemma_bytes_value_bound(bytes.drop_last());
    }
}

/// Writing a number out in bytes and reading it back gives the number, as
/// long as it fits in the width.
pub proof fn lemma_bytes_round_trip(value: nat, width: nat)
    requires
        value < pow256(width),
    ensures
        bytes_of(value, width).len() == width,
        bytes_value(bytes_of(value, width)) == value,
    decreases width,
{
    if width > 0 {
        let front = bytes_of(value / 256, (width - 1) as nat);
        lemma_bytes_round_trip(value / 256, (width - 1) as nat);
        assert(bytes_of(value, width).drop_last() =~= front);
    }
}

/// Reading bytes and writing the number out again gives the same bytes.
pub proof fn lemma_bytes_read_write(bytes: Seq<u8>)
    ensures
        bytes_of(bytes_value(bytes), bytes.len()) == bytes,
    decreases bytes.len(),
{
    if bytes.len() > 0 {
        let front = bytes.drop_last();
        lemma_bytes_read_write(front);
        let value = bytes_value(bytes);
        assert(value / 256 == bytes_value(front));
        assert(value % 256 == bytes.last());
        assert(bytes_of(value, bytes.len()) =~= bytes);
    } else {
        assert(bytes_of(0, 0) =~= bytes);
    }
}

/// The binary form of every identifier has `BYTE_WIDTH` bytes and reads back
/// as the identifier it came from.
pub proof fn lemma_id_bytes_round_trip(id: StableId)
    ensures
        bytes_of(id.bits as nat, BYTE_WIDTH as nat).len() == BYTE_WIDTH,
        bytes_value(bytes_of(id.bits as nat, BYTE_WIDTH as nat)) == id.bits,
{
    lemma_pow256_width();
    lemma_bytes_round_trip(id.bits as nat, BYTE_WIDTH as nat);
}

/// Powers of 16 grow with the exponent and are never zero.
pub proof fn lemma_pow16_monotonic(a: nat, b: nat)
    requires
        a <= b,
    ensures
        pow16(a) <= pow16(b),
        pow16(a) >= 1,
    decreases b,
{
    if b > 0 {
        if a < b {
            lemma_pow16_monotonic(a, (b - 1) as nat);
        } else {
            lemma_pow16_monotonic((a - 1) as nat, (b - 1) as nat);
        }
    }
}

/// Thirty-two hexadecimal digits hold exactly the 128-bit numbers.
pub proof fn lemma_pow16_width()
    ensures
        pow16(HEX_WIDTH as nat) == 0x1_0000_0000_0000_0000_0000_0000_0000_0000,
{
    reveal_with_fuel(pow16, 33);
}

/// A string of hexadecimal digits spells a number below `16^len`.
pub proof fn lemma_hex_value_bound(text: Seq<u8>)
    requires
        is_hex(text),
    ensures
        hex_value(text) < pow16(text.len()),
    decreases text.len(),
{
    if text.len() > 0 {
        let front = text.drop_last();
        assert forall|i: int| 0 <= i < front.len() implies (#[trigger] hex_digit_value(
            front[i],
        )) is Some by {
            assert(front[i] == text[i]);
        }
        lemma_hex_value_bound(front);
        assert(hex_digit_value(text[text.len() - 1]) is Some);
    }
}

/// Writing a number out and reading it back gives the number, as long as it
/// fits in the width.
pub proof fn lemma_hex_round_trip(value: nat, width: nat)
    requires
        value < pow16(width),
    ensures
        hex_of(value, width).len() == width,
        is_hex(hex_of(value, width)),
        hex_value(hex_of(value, width)) == value,
    decreases width,
{
    if width > 0 {
        let front = hex_of(value / 16, (width - 1) as nat);
        let text = hex_of(value, width);
        lemma_hex_round_trip(value / 16, (width - 1) as nat);
        assert(text.drop_last() =~= front);
        assert(hex_digit_value(hex_digit((value % 16) as int)) == Some((value % 16) as int));
        assert forall|i: int| 0 <= i < text.len() implies (#[trigger] hex_digit_value(
            text[i],
        )) is Some by {
            if i < front.len() {
                assert(text[i] == front[i]);
            }
        }
    }
}

/// The text form of every identifier is well formed and reads back as the
/// identifier it came from.
pub proof fn lemma_id_text_round_trip(id: StableId)
    ensures
        well_formed_hex(hex_of(id.bits as nat, HEX_WIDTH as nat)),
        hex_value(hex_of(id.bits as nat, HEX_WIDTH as nat)) == id.bits,
{
    lemma_pow16_width();
    lemma_hex_round_trip(id.bits as nat, HEX_WIDTH as nat);
}

fn digit_to_ascii(n: u8) -> (c: u8)
    requires
        n < 16,
    ensures
        c == hex_digit(n as int),
{
    if n < 10 {
        0x30 + n
    } else {
        0x61 + (n - 10)
    }
}

fn ascii_to_digit(c: u8) -> (d: Option<u8>)
    ensures
        match d {
            Some(n) => hex_digit_value(c) == Some(n as int) && n < 16,
            None => hex_digit_value(c) is None,
        },
{
    if 0x30 <= c && c <= 0x39 {
        Some(c - 0x30)
    } else if 0x61 <= c && c <= 0x66 {
        Some(c - 0x61 + 10)
    } else if 0x41 <= c && c <= 0x46 {
        Some(c - 0x41 + 10)
    } else {
        None
    }
}

impl StableId {
    /// The identifier with the given bits.
    pub fn from_bits(bits: u128) -> (id: StableId)
        ensures
            id.bits == bits,
    {
        StableId { bits }
    }

    /// A fresh identifier, drawn at random.
    ///
    /// Two draws may collide, however unlikely that is: whoever needs the
    /// identifier to be new checks it against those in use.
    pub fn random() -> (id: StableId)
        ensures
            is_drawn_form(id.bits),
    {
        StableId { bits: draw_bits() }
    }

    /// The text form: exactly `HEX_WIDTH` lower-case hexadecimal digits, most
    /// significant first.
    pub fn to_hex(&self) -> (text: Vec<u8>)
        ensures
            text@ == hex_of(self.bits as nat, HEX_WIDTH as nat),
            well_formed_hex(text@),
            hex_value(text@) == self.bits,
    {
        let mut text: Vec<u8> = vec![0u8; HEX_WIDTH];
        let mut rest: u128 = self.bits;
        let mut i: usize = HEX_WIDTH;
        while i > 0
            invariant
                i <= HEX_WIDTH,
                text@.len() == HEX_WIDTH,
                hex_of(self.bits as nat, HEX_WIDTH as nat) == hex_of(rest as nat, i as nat)
                    + text@.subrange(i as int, HEX_WIDTH as int),
            decreases i,
        {
            let ghost before = text@;
            i = i - 1;
            let digit: u8 = (rest % 16) as u8;
            text.set(i, digit_to_ascii(digit));
            proof {
                assert(text@.subrange(i as int, HEX_WIDTH as int) =~= seq![hex_digit(digit as int)]
                    + before.subrange(i + 1, HEX_WIDTH as int));
                assert(hex_of(rest as nat, (i + 1) as nat) + before.subrange(
                    i + 1,
                    HEX_WIDTH as int,
                ) =~= hex_of((rest / 16) as nat, i as nat) + text@.subrange(
                    i as int,
                    HEX_WIDTH as int,
                ));
            }
            rest = rest / 16;
        }
        proof {
            assert(text@ =~= hex_of(rest as nat, 0) + text@.subrange(0, HEX_WIDTH as int));
            lemma_id_text_round_trip(*self);
        }
        text
    }

    /// The binary form: exactly `BYTE_WIDTH` bytes, most significant first.
    pub fn to_bytes(&self) -> (bytes: Vec<u8>)
        ensures
            bytes@ == bytes_of(self.bits as nat, BYTE_WIDTH as nat),
            bytes@.len() == BYTE_WIDTH,
            bytes_value(bytes@) == self.bits,
    {
        let mut bytes: Vec<u8> = vec![0u8; BYTE_WIDTH];
        let mut rest: u128 = self.bits;
        let mut i: usize = BYTE_WIDTH;
        while i > 0
            invariant
                i <= BYTE_WIDTH,
                bytes@.len() == BYTE_WIDTH,
                bytes_of(self.bits as nat, BYTE_WIDTH as nat) == bytes_of(rest as nat, i as nat)
                    + bytes@.subrange(i as int, BYTE_WIDTH as int),
            decreases i,
        {
            let ghost before = bytes@;
            i = i - 1;
            let low: u8 = (rest % 256) as u8;
            bytes.set(i, low);
            proof {
                assert(bytes@.subrange(i as int, BYTE_WIDTH as int) =~= seq![low] + before.subrange(
                    i + 1,
                    BYTE_WIDTH as int,
                ));
                assert(bytes_of(rest as nat, (i + 1) as nat) + before.subrange(
                    i + 1,
                    BYTE_WIDTH as int,
                ) =~= bytes_of((rest / 256) as nat, i as nat) + bytes@.subrange(
                    i as int,
                    BYTE_WIDTH as int,
                ));
            }
            rest = rest / 256;
        }
        proof {
            assert(bytes@ =~= bytes_of(rest as nat, 0) + bytes@.subrange(0, BYTE_WIDTH as int));
            lemma_id_bytes_round_trip(*self);
        }
        bytes
    }

    /// Reads the binary form back.  Anything but exactly `BYTE_WIDTH` bytes
    /// is malformed.
    pub fn from_bytes(bytes: &[u8]) -> (parsed: Result<StableId, Error>)
        ensures
            match parsed {
                Ok(id) => bytes@.len() == BYTE_WIDTH && id.bits == bytes_value(bytes@),
                Err(e) => e == Error::MalformedId && bytes@.len() != BYTE_WIDTH,
            },
    {
        if bytes.len() != BYTE_WIDTH {
            return Err(Error::MalformedId);
        }
        let mut bits: u128 = 0;
        let mut i: usize = 0;
        while i < BYTE_WIDTH
            invariant
                i <= BYTE_WIDTH,
                bytes@.len() == BYTE_WIDTH,
                bits == bytes_value(bytes@.take(i as int)),
            decreases BYTE_WIDTH - i,
        {
            proof {
                let seen = bytes@.take(i as int);
                let next = bytes@.take(i + 1);
                assert(next.drop_last() =~= seen);
                assert(next.last() == bytes@[i as int]);
                lemma_bytes_value_bound(seen);
                lemma_pow256_monotonic((i + 1) as nat, BYTE_WIDTH as nat);
                lemma_pow256_width();
            }
            bits = bits * 256 + bytes[i] as u128;
            i = i + 1;
        }
        proof {
            assert(bytes@.take(BYTE_WIDTH as int) =~= bytes@);
        }
        Ok(StableId { bits })
    }

    /// Reads the text form back.  Digits of either case are taken; anything
    /// but exactly `HEX_WIDTH` hexadecimal digits is malformed.
    pub fn from_hex(text: &[u8]) -> (parsed: Result<StableId, Error>)
        ensures
            match parsed {
                Ok(id) => well_formed_hex(text@) && id.bits == hex_value(text@),
                Err(e) => e == Error::MalformedId && !well_formed_hex(text@),
            },
    {
        if text.len() != HEX_WIDTH {
            return Err(Error::MalformedId);
        }
        let mut bits: u128 = 0;
        let mut i: usize = 0;
        while i < HEX_WIDTH
            invariant
                i <= HEX_WIDTH,
                text@.len() == HEX_WIDTH,
                is_hex(text@.take(i as int)),
                bits == hex_value(text@.take(i as int)),
            decreases HEX_WIDTH - i,
        {
            let ghost seen = text@.take(i as int);
            let ghost next = text@.take(i + 1);
            proof {
                assert(next.drop_last() =~= seen);
                assert(next.last() == text@[i as int]);
            }
            match ascii_to_digit(text[i]) {
                None => {
                    proof {
                        assert(hex_digit_value(text@[i as int]) is None);
                    }
                    return Err(Error::MalformedId);
                },
                Some(digit) => {
                    proof {
                        lemma_hex_value_bound(seen);
                        lemma_pow16_monotonic((i + 1) as nat, HEX_WIDTH as nat);
                        lemma_pow16_width();
                        assert forall|j: int| 0 <= j < next.len() implies (
                        #[trigger] hex_digit_value(next[j])) is Some by {
                            if j < i {
                                assert(next[j] == seen[j]);
                            }
                        }
                    }
                    bits = bits * 16 + digit as u128;
                },
            }
            i = i + 1;
        }
        proof {
            assert(text@.take(HEX_WIDTH as int) =~= text@);
        }
        Ok(StableId { bits })
    }
}

} // verus!
