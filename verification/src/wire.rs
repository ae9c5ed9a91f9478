//! The compact binary layout shared by both records: variable-length
//! integers, least significant byte first, and what a reader accepts.

use vstd::prelude::*;

verus! {

/// 256 to the power `n`.
pub open spec fn pow256(n: nat) -> nat
    decreases n,
{
    if n == 0 {
        1
    } else {
        256 * pow256((n - 1) as nat)
    }
}

/// The `n` low bytes of `v`, least significant first.
pub open spec fn le_bytes(v: nat, n: nat) -> Seq<u8>
    decreases n,
{
    if n == 0 {
        Seq::empty()
    } else {
        seq![(v % 256) as u8] + le_bytes(v / 256, (n - 1) as nat)
    }
}

/// The number that `b` spells, least significant byte first.
pub open spec fn le_value(b: Seq<u8>) -> nat
    decreases b.len(),
{
    if b.len() == 0 {
        0
    } else {
        b[0] as nat + 256 * le_value(b.drop_first())
    }
}

/// The bytes of an unsigned integer below 2^64: one byte up to 250, else a
/// tag byte (251, 252, 253) followed by 2, 4 or 8 bytes.
pub open spec fn varint(v: nat) -> Seq<u8> {
    if v <= 250 {
        seq![v as u8]
    } else if v <= 0xffff {
        seq![251u8] + le_bytes(v, 2)
    } else if v <= 0xffff_ffff {
        seq![252u8] + le_bytes(v, 4)
    } else {
        seq![253u8] + le_bytes(v, 8)
    }
}

/// The number of bytes that follow a tag byte; 0 for a byte that is no tag.
pub open spec fn payload_width(tag: u8) -> nat {
    if tag == 251 {
        2
    } else if tag == 252 {
        4
    } else if tag == 253 {
        8
    } else {
        0
    }
}

/// What a reader of an unsigned integer of `width` bytes takes from the front
/// of `b`: the value and the number of bytes consumed. A wide form of a small
/// value is accepted; a tag for more than `width` bytes is not.
pub open spec fn read_varint(b: Seq<u8>, width: nat) -> Option<(nat, nat)> {
    if b.len() == 0 {
        None
    } else if b[0] <= 250 {
        Some((b[0] as nat, 1nat))
    } else {
        let n = payload_width(b[0]);
        if n == 0 || n > width || b.len() < 1 + n {
            None
        } else {
            Some((le_value(b.subrange(1, 1 + n as int)), 1 + n))
        }
    }
}

/// The unsigned number that stands for a signed one: 0, -1, 1, -2, 2, ...
/// become 0, 1, 2, 3, 4, ...
pub open spec fn zigzag(i: int) -> nat {
    if i < 0 {
        (-2 * i - 1) as nat
    } else {
        (2 * i) as nat
    }
}

/// The signed number that an unsigned one stands for.
pub open spec fn unzigzag(n: nat) -> int {
    if n % 2 == 0 {
        n as int / 2
    } else {
        -(n as int / 2) - 1
    }
}

/// What a reader of a signed integer of `width` bytes takes from the front
/// of `b`.
pub open spec fn read_signed(b: Seq<u8>, width: nat) -> Option<(int, nat)> {
    match read_varint(b, width) {
        Some((n, used)) => Some((unzigzag(n), used)),
        None => None,
    }
}

/// The number of bytes that a read consumed; 0 where it failed.
pub open spec fn used<T>(r: Option<(T, nat)>) -> nat {
    match r {
        Some((_, n)) => n,
        None => 0,
    }
}

/// The powers of 256 that the widths of integers need.
pub proof fn lemma_pow256_values()
    ensures
        pow256(0) == 1,
        pow256(1) == 0x100,
        pow256(2) == 0x1_0000,
        pow256(4) == 0x1_0000_0000,
        pow256(8) == 0x1_0000_0000_0000_0000,
{
    reveal_with_fuel(pow256, 9);
}

/// The `n` low bytes of a number are `n` bytes.
pub proof fn lemma_le_bytes_len(v: nat, n: nat)
    ensures
        le_bytes(v, n).len() == n,
    decreases n,
{
    if n > 0 {
        lemma_le_bytes_len(v / 256, (n - 1) as nat);
    }
}

/// The number that `n` bytes spell is below 256^n.
pub proof fn lemma_le_value_bound(b: Seq<u8>)
    ensures
        le_value(b) < pow256(b.len()),
    decreases b.len(),
{
    if b.len() > 0 {
        lemma_le_value_bound(b.drop_first());
    }
}

/// Reading back the `n` low bytes of a number below 256^n gives the number.
pub proof fn lemma_le_round_trip(v: nat, n: nat)
    requires
        v < pow256(n),
    ensures
        le_value(le_bytes(v, n)) == v,
    decreases n,
{
    if n > 0 {
        let rest = le_bytes(v / 256, (n - 1) as nat);
        let b = le_bytes(v, n);
        assert(b.drop_first() =~= rest);
        lemma_le_round_trip(v / 256, (n - 1) as nat);
    }
}

/// The bytes of an integer are 1, 3, 5 or 9 long.
pub proof fn lemma_varint_len(v: nat)
    ensures
        1 <= varint(v).len() <= 9,
        v <= 250 ==> varint(v).len() == 1,
        250 < v <= 0xffff ==> varint(v).len() == 3,
        0xffff < v <= 0xffff_ffff ==> varint(v).len() == 5,
        0xffff_ffff < v ==> varint(v).len() == 9,
{
    lemma_le_bytes_len(v, 2);
    lemma_le_bytes_len(v, 4);
    lemma_le_bytes_len(v, 8);
}

/// A reader takes back what was written, whatever follows it.
pub proof fn lemma_read_varint_round_trip(v: nat, width: nat, tail: Seq<u8>)
    requires
        width == 4 || width == 8,
        v < pow256(width),
    ensures
        read_varint(varint(v) + tail, width) == Some((v, varint(v).len())),
{
    lemma_pow256_values();
    lemma_varint_len(v);
    let b = varint(v) + tail;
    if v > 250 {
        let n: nat = if v <= 0xffff {
            2
        } else if v <= 0xffff_ffff {
            4
        } else {
            8
        };
        lemma_le_bytes_len(v, n);
        assert(b.subrange(1, 1 + n as int) =~= le_bytes(v, n));
        lemma_le_round_trip(v, n);
    }
}

/// What a reader takes does not depend on what follows it.
pub proof fn lemma_read_varint_extends(b: Seq<u8>, width: nat, tail: Seq<u8>)
    requires
        read_varint(b, width) is Some,
    ensures
        read_varint(b + tail, width) == read_varint(b, width),
{
    if b[0] > 250 {
        let n = payload_width(b[0]);
        assert((b + tail).subrange(1, 1 + n as int) =~= b.subrange(1, 1 + n as int));
    }
}

/// A reader consumes at least one byte and no more than there are, and the
/// value fits the width.
pub proof fn lemma_read_varint_bounds(b: Seq<u8>, width: nat)
    requires
        width == 4 || width == 8,
        read_varint(b, width) is Some,
    ensures
        1 <= used(read_varint(b, width)) <= b.len(),
        used(read_varint(b, width)) <= 9,
        read_varint(b, width)->Some_0.0 < pow256(width),
{
    lemma_pow256_values();
    if b[0] > 250 {
        let n = payload_width(b[0]);
        lemma_le_value_bound(b.subrange(1, 1 + n as int));
    }
}

/// The signed number that stands behind the stand-in of `i` is `i`.
pub proof fn lemma_zigzag_round_trip(i: int)
    ensures
        unzigzag(zigzag(i)) == i,
{
}

/// The stand-in of a signed number of 32 or 64 bits fits as many bits.
pub proof fn lemma_zigzag_bounds(i: int)
    ensures
        i32::MIN <= i <= i32::MAX ==> zigzag(i) < 0x1_0000_0000,
        i64::MIN <= i <= i64::MAX ==> zigzag(i) < 0x1_0000_0000_0000_0000,
{
}

/// A reader takes back a signed integer that was written, whatever follows.
pub proof fn lemma_read_signed_round_trip(i: int, width: nat, tail: Seq<u8>)
    requires
        width == 4 && i32::MIN <= i <= i32::MAX || width == 8 && i64::MIN <= i <= i64::MAX,
    ensures
        read_signed(varint(zigzag(i)) + tail, width) == Some((i, varint(zigzag(i)).len())),
{
    lemma_pow256_values();
    lemma_zigzag_bounds(i);
    lemma_zigzag_round_trip(i);
    lemma_read_varint_round_trip(zigzag(i), width, tail);
}

} // verus!
