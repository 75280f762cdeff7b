//! Bytes and integers: what the structures share when they lay values out
//! in mapped memory.

use vstd::prelude::*;
use vstd::bytes::{
    lemma_auto_spec_u32_to_from_le_bytes, lemma_auto_spec_u64_to_from_le_bytes,
    spec_u32_from_le_bytes, spec_u32_to_le_bytes, spec_u64_from_le_bytes, spec_u64_to_le_bytes,
    u32_from_le_bytes, u32_to_le_bytes, u64_from_le_bytes, u64_to_le_bytes,
};

verus! {

/// Every byte of `bytes` is zero.
pub open spec fn all_zero(bytes: Seq<u8>) -> bool {
    forall|i: int| 0 <= i < bytes.len() ==> bytes[i] == 0
}

/// Helper function to test if a value is all zeroes: the bit pattern that
/// stands for an empty slot.
pub fn is_all_zeroes(bytes: &[u8]) -> (r: bool)
    ensures
        r == all_zero(bytes@),
{
    let mut i: usize = 0;
    while i < bytes.len()
        invariant
            i <= bytes@.len(),
            forall|j: int| 0 <= j < i ==> bytes@[j] == 0,
        decreases bytes@.len() - i,
    {
        if bytes[i] != 0 {
            return false;
        }
        i = i + 1;
    }
    true
}

/// Whether two runs of bytes are the same.
pub fn same_bytes(a: &[u8], b: &[u8]) -> (r: bool)
    ensures
        r == (a@ == b@),
{
    if a.len() != b.len() {
        return false;
    }
    let mut i: usize = 0;
    while i < a.len()
        invariant
            i <= a@.len(),
            a@.len() == b@.len(),
            forall|j: int| 0 <= j < i ==> a@[j] == b@[j],
        decreases a@.len() - i,
    {
        if a[i] != b[i] {
            return false;
        }
        i = i + 1;
    }
    proof {
        assert(a@ =~= b@);
    }
    true
}

/// The order in which the bytes of an integer lie in memory.
#[derive(Clone, Copy, Debug)]
pub enum ByteOrder {
    /// Least significant byte first.
    Little,
    /// Most significant byte first.
    Big,
}

/// The eight bytes that stand for `value` in memory of the given order.
pub open spec fn u64_bytes(order: ByteOrder, value: u64) -> Seq<u8> {
    match order {
        ByteOrder::Little => spec_u64_to_le_bytes(value),
        ByteOrder::Big => spec_u64_to_le_bytes(value).reverse(),
    }
}

/// The integer that eight bytes stand for in memory of the given order.
pub open spec fn u64_from(order: ByteOrder, bytes: Seq<u8>) -> u64 {
    match order {
        ByteOrder::Little => spec_u64_from_le_bytes(bytes),
        ByteOrder::Big => spec_u64_from_le_bytes(bytes.reverse()),
    }
}

/// Laying an integer out and reading it back gives the integer.
pub proof fn lemma_u64_round_trip(order: ByteOrder, value: u64)
    ensures
        u64_bytes(order, value).len() == 8,
        u64_from(order, u64_bytes(order, value)) == value,
{
    lemma_auto_spec_u64_to_from_le_bytes();
    let le = spec_u64_to_le_bytes(value);
    assert(le.reverse().reverse() =~= le);
}

/// The four bytes that stand for `value` in memory of the given order.
pub open spec fn u32_bytes(order: ByteOrder, value: u32) -> Seq<u8> {
    match order {
        ByteOrder::Little => spec_u32_to_le_bytes(value),
        ByteOrder::Big => spec_u32_to_le_bytes(value).reverse(),
    }
}

/// The integer that four bytes stand for in memory of the given order.
pub open spec fn u32_from(order: ByteOrder, bytes: Seq<u8>) -> u32 {
    match order {
        ByteOrder::Little => spec_u32_from_le_bytes(bytes),
        ByteOrder::Big => spec_u32_from_le_bytes(bytes.reverse()),
    }
}

/// Laying an integer out and reading it back gives the integer.
pub proof fn lemma_u32_round_trip(order: ByteOrder, value: u32)
    ensures
        u32_bytes(order, value).len() == 4,
        u32_from(order, u32_bytes(order, value)) == value,
{
    lemma_auto_spec_u32_to_from_le_bytes();
    let le = spec_u32_to_le_bytes(value);
    assert(le.reverse().reverse() =~= le);
}

/// Calls `u16::to_ne_bytes` on the number one. The result is the memory
/// representation of the number in the machine's byte order, so the one is
/// either the first byte or the second.
#[verifier::external_body]
fn native_bytes_of_one() -> (r: [u8; 2])
    ensures
        (r@[0] == 1 && r@[1] == 0) || (r@[0] == 0 && r@[1] == 1),
{
    1u16.to_ne_bytes()
}

/// The byte order of the machine that runs this code: the order in which
/// the machine lays out the number one, as [`order_laid_out`] reads it.
pub fn native_byte_order() -> (r: ByteOrder) {
    let probe = native_bytes_of_one();
    order_laid_out(probe)
}

/// The byte order in which `probe` is the number one in two bytes: the
/// lowest byte first where the one stands first, the highest byte first
/// else.
pub fn order_laid_out(probe: [u8; 2]) -> (r: ByteOrder)
    ensures
        r == (if probe@[0] == 1 {
            ByteOrder::Little
        } else {
            ByteOrder::Big
        }),
{
    if probe[0] == 1 {
        ByteOrder::Little
    } else {
        ByteOrder::Big
    }
}

/// The bytes of `bytes`, the last first.
fn reversed(bytes: &[u8]) -> (r: Vec<u8>)
    ensures
        r@ == bytes@.reverse(),
{
    let mut out: Vec<u8> = Vec::new();
    let mut left: usize = bytes.len();
    while left > 0
        invariant
            left <= bytes@.len(),
            out@.len() == bytes@.len() - left,
            forall|i: int| 0 <= i < out@.len() ==> out@[i] == bytes@[bytes@.len() - 1 - i],
        decreases left,
    {
        left = left - 1;
        out.push(bytes[left]);
    }
    proof {
        assert(out@ =~= bytes@.reverse());
    }
    out
}

/// The eight bytes that stand for `value` in memory of the given order.
pub fn encode_u64(order: ByteOrder, value: u64) -> (r: Vec<u8>)
    ensures
        r@ == u64_bytes(order, value),
        r@.len() == 8,
{
    let little = u64_to_le_bytes(value);
    match order {
        ByteOrder::Little => little,
        ByteOrder::Big => reversed(little.as_slice()),
    }
}

/// The integer that eight bytes stand for in memory of the given order.
pub fn decode_u64(order: ByteOrder, bytes: &[u8]) -> (r: u64)
    requires
        bytes@.len() == 8,
    ensures
        r == u64_from(order, bytes@),
{
    match order {
        ByteOrder::Little => u64_from_le_bytes(bytes),
        ByteOrder::Big => {
            let turned = reversed(bytes);
            u64_from_le_bytes(turned.as_slice())
        },
    }
}

/// The four bytes that stand for `value` in memory of the given order.
pub fn encode_u32(order: ByteOrder, value: u32) -> (r: Vec<u8>)
    ensures
        r@ == u32_bytes(order, value),
        r@.len() == 4,
{
    let little = u32_to_le_bytes(value);
    match order {
        ByteOrder::Little => little,
        ByteOrder::Big => reversed(little.as_slice()),
    }
}

/// The integer that four bytes stand for in memory of the given order.
pub fn decode_u32(order: ByteOrder, bytes: &[u8]) -> (r: u32)
    requires
        bytes@.len() == 4,
    ensures
        r == u32_from(order, bytes@),
{
    match order {
        ByteOrder::Little => u32_from_le_bytes(bytes),
        ByteOrder::Big => {
            let turned = reversed(bytes);
            u32_from_le_bytes(turned.as_slice())
        },
    }
}

/// The character that stands for `digit` in hexadecimal notation.
pub open spec fn hex_digit(digit: nat) -> char {
    if digit == 0 {
        '0'
    } else if digit == 1 {
        '1'
    } else if digit == 2 {
        '2'
    } else if digit == 3 {
        '3'
    } else if digit == 4 {
        '4'
    } else if digit == 5 {
        '5'
    } else if digit == 6 {
        '6'
    } else if digit == 7 {
        '7'
    } else if digit == 8 {
        '8'
    } else if digit == 9 {
        '9'
    } else if digit == 10 {
        'a'
    } else if digit == 11 {
        'b'
    } else if digit == 12 {
        'c'
    } else if digit == 13 {
        'd'
    } else if digit == 14 {
        'e'
    } else {
        'f'
    }
}

/// The text that stands for a number below 16 as a hexadecimal digit.
pub fn hex_digit_text(digit: u8) -> (r: &'static str)
    requires
        digit < 16,
    ensures
        r@ == seq![hex_digit(digit as nat)],
{
    proof {
        reveal_strlit("0");
        reveal_strlit("1");
        reveal_strlit("2");
        reveal_strlit("3");
        reveal_strlit("4");
        reveal_strlit("5");
        reveal_strlit("6");
        reveal_strlit("7");
        reveal_strlit("8");
        reveal_strlit("9");
        reveal_strlit("a");
        reveal_strlit("b");
        reveal_strlit("c");
        reveal_strlit("d");
        reveal_strlit("e");
        reveal_strlit("f");
    }
    let text = if digit == 0 {
        "0"
    } else if digit == 1 {
        "1"
    } else if digit == 2 {
        "2"
    } else if digit == 3 {
        "3"
    } else if digit == 4 {
        "4"
    } else if digit == 5 {
        "5"
    } else if digit == 6 {
        "6"
    } else if digit == 7 {
        "7"
    } else if digit == 8 {
        "8"
    } else if digit == 9 {
        "9"
    } else if digit == 10 {
        "a"
    } else if digit == 11 {
        "b"
    } else if digit == 12 {
        "c"
    } else if digit == 13 {
        "d"
    } else if digit == 14 {
        "e"
    } else {
        "f"
    };
    proof {
        assert(text@ =~= seq![hex_digit(digit as nat)]);
    }
    text
}

} // verus!
