//! The ids of content: digests of 32 bytes, written as 64 hexadecimal
//! digits.

use vstd::prelude::*;
use vstd::string::is_ascii_spec_bytes;
use crate::helpers::{hex_digit, hex_digit_text};

verus! {

/// Number of bytes of an id.
pub const ID_SIZE: usize = 32;

/// The number that `c` stands for as a hexadecimal digit, in lower or upper
/// case; nothing where it is no such digit.
pub open spec fn hex_value(c: char) -> Option<nat> {
    if '0' <= c <= '9' {
        Some((c as nat - '0' as nat) as nat)
    } else if 'a' <= c <= 'f' {
        Some((c as nat - 'a' as nat + 10) as nat)
    } else if 'A' <= c <= 'F' {
        Some((c as nat - 'A' as nat + 10) as nat)
    } else {
        None
    }
}

/// Every character of `text` is a hexadecimal digit.
pub open spec fn is_hex(text: Seq<char>) -> bool {
    forall|i: int| 0 <= i < text.len() ==> (#[trigger] hex_value(text[i])) is Some
}

/// The bytes that an even number of hexadecimal digits stand for, two
/// digits to a byte, the higher digit first.
pub open spec fn bytes_of_hex(text: Seq<char>) -> Seq<u8> {
    Seq::new(
        text.len() / 2,
        |i: int| (16 * hex_value(text[2 * i]).unwrap() + hex_value(text[2 * i + 1]).unwrap()) as u8,
    )
}

/// The hexadecimal digits that stand for `bytes`, in lower case.
pub open spec fn hex_of_bytes(bytes: Seq<u8>) -> Seq<char> {
    Seq::new(
        2 * bytes.len(),
        |i: int|
            if i % 2 == 0 {
                hex_digit((bytes[i / 2] / 16) as nat)
            } else {
                hex_digit((bytes[i / 2] % 16) as nat)
            },
    )
}

/// A digit is read as the number that it was written for.
pub proof fn lemma_hex_digit_value(digit: nat)
    requires
        digit < 16,
    ensures
        hex_value(hex_digit(digit)) == Some(digit),
{
}

/// An id that is written in hexadecimal digits is read back as it was.
pub proof fn lemma_hex_round_trip(bytes: Seq<u8>)
    ensures
        is_hex(hex_of_bytes(bytes)),
        bytes_of_hex(hex_of_bytes(bytes)) == bytes,
{
    let text = hex_of_bytes(bytes);
    assert forall|i: int| 0 <= i < text.len() implies (#[trigger] hex_value(text[i])) is Some by {
        lemma_hex_digit_value((bytes[i / 2] / 16) as nat);
        lemma_hex_digit_value((bytes[i / 2] % 16) as nat);
    }
    assert forall|i: int| 0 <= i < bytes.len() implies bytes_of_hex(text)[i] == bytes[i] by {
        lemma_hex_digit_value((bytes[i] / 16) as nat);
        lemma_hex_digit_value((bytes[i] % 16) as nat);
        assert(text[2 * i] == hex_digit((bytes[i] / 16) as nat));
        assert(text[2 * i + 1] == hex_digit((bytes[i] % 16) as nat));
    }
    assert(bytes_of_hex(text) =~= bytes);
}

/// The number that the byte `c` of a text stands for as a hexadecimal
/// digit.
fn digit_of(c: u8) -> (r: u8)
    requires
        hex_value(c as char) is Some,
    ensures
        r == hex_value(c as char).unwrap(),
        r < 16,
{
    if c >= 48 && c <= 57 {
        c - 48
    } else if c >= 97 && c <= 102 {
        c - 97 + 10
    } else {
        c - 65 + 10
    }
}

/// The id of a run of bytes: its digest, of 32 bytes.
#[derive(Clone, Copy, Debug, PartialEq, Eq, PartialOrd, Ord, Hash)]
pub struct ContentId([u8; 32]);

impl View for ContentId {
    type V = Seq<u8>;

    closed spec fn view(&self) -> Seq<u8> {
        self.0@
    }
}

impl ContentId {
    /// An id has 32 bytes.
    pub proof fn lemma_len(&self)
        ensures
            self@.len() == ID_SIZE,
    {
    }

    /// The id that 32 bytes stand for.
    pub fn from_slice(slice: &[u8]) -> (r: Self)
        requires
            slice@.len() == ID_SIZE,
        ensures
            r@ == slice@,
    {
        let mut bytes = [0u8; 32];
        let mut i: usize = 0;
        while i < 32
            invariant
                i <= 32,
                slice@.len() == 32,
                forall|j: int| 0 <= j < i ==> bytes@[j] == slice@[j],
            decreases 32 - i,
        {
            bytes[i] = slice[i];
            i = i + 1;
        }
        proof {
            assert(bytes@ =~= slice@);
        }
        ContentId(bytes)
    }

    /// The id that 64 hexadecimal digits stand for.
    pub fn from_hex(hex: &str) -> (r: Self)
        requires
            hex@.len() == 2 * ID_SIZE,
            is_hex(hex@),
        ensures
            r@ == bytes_of_hex(hex@),
    {
        proof {
            assert forall|i: int| 0 <= i < hex@.len() implies '\0' <= #[trigger] hex@[i]
                <= '\u{7f}' by {
                assert(hex_value(hex@[i]) is Some);
            }
            assert(vstd::utf8::is_ascii_chars(hex@));
            is_ascii_spec_bytes(hex);
        }
        let text = hex.as_bytes();
        proof {
            assert forall|j: int| 0 <= j < 64 implies (#[trigger] text@[j]) as char == hex@[j] by {
                assert('\0' <= hex@[j] <= '\u{7f}');
            }
        }
        let mut bytes = [0u8; 32];
        let mut i: usize = 0;
        while i < 32
            invariant
                i <= 32,
                hex@.len() == 64,
                is_hex(hex@),
                text@.len() == 64,
                forall|j: int| 0 <= j < 64 ==> (#[trigger] text@[j]) as char == hex@[j],
                forall|j: int| 0 <= j < i ==> bytes@[j] == bytes_of_hex(hex@)[j],
            decreases 32 - i,
        {
            proof {
                assert(hex_value(hex@[2 * i]) is Some);
                assert(hex_value(hex@[2 * i + 1]) is Some);
                assert(text@[2 * i] as char == hex@[2 * i]);
                assert(text@[2 * i + 1] as char == hex@[2 * i + 1]);
            }
            let high: u8 = digit_of(text[2 * i]);
            let low: u8 = digit_of(text[2 * i + 1]);
            bytes[i] = 16 * high + low;
            i = i + 1;
        }
        proof {
            assert(bytes@ =~= bytes_of_hex(hex@));
        }
        ContentId(bytes)
    }

    /// The id in 64 hexadecimal digits, in lower case.
    pub fn to_hex(&self) -> (r: String)
        ensures
            r@ == hex_of_bytes(self@),
    {
        let mut text = String::new();
        let mut i: usize = 0;
        while i < 32
            invariant
                i <= 32,
                text@ == hex_of_bytes(self@.subrange(0, i as int)),
            decreases 32 - i,
        {
            let byte: u8 = self.0[i];
            let ghost before = text@;
            text.append(hex_digit_text(byte / 16));
            text.append(hex_digit_text(byte % 16));
            proof {
                let part = self@.subrange(0, i + 1);
                assert(self@.subrange(0, i as int) =~= part.subrange(0, i as int));
                assert(text@ =~= hex_of_bytes(part)) by {
                    assert forall|j: int| 0 <= j < 2 * (i + 1) implies text@[j] == hex_of_bytes(
                        part,
                    )[j] by {
                        if j < 2 * i {
                            assert(text@[j] == before[j]);
                            assert(part[j / 2] == self@.subrange(0, i as int)[j / 2]);
                        }
                    }
                }
            }
            i = i + 1;
        }
        proof {
            assert(self@.subrange(0, 32) =~= self@);
        }
        text
    }

    /// The bytes of the id.
    pub fn bytes(&self) -> (r: &[u8])
        ensures
            r@ == self@,
    {
        &self.0
    }

    /// The first four bytes of the id, read as a number with the least
    /// significant byte first.
    pub fn discriminant(&self) -> (r: u32)
        ensures
            r == vstd::bytes::spec_u32_from_le_bytes(self@.subrange(0, 4)),
    {
        vstd::bytes::u32_from_le_bytes(vstd::slice::slice_subrange(self.bytes(), 0, 4))
    }
}

} // verus!
