//! Machine-code patches that redirect a function to a hook.
//!
//! Two encodings are used. An absolute jump is `FF 25 00 00 00 00` (`jmp
//! [rip + 0]`) followed by the 8-byte little-endian target address. The
//! trampoline patch is the 16-byte sequence that the context-passing hook
//! writes over the hooked function: `48 B8 00`, the 8-byte little-endian
//! context value, the 4-byte little-endian displacement from the end of its
//! first 15 bytes to the stub, and a final `00`.
use vstd::prelude::*;

verus! {

/// Byte `k` (from the least significant) of `v`.
pub open spec fn le_byte(v: u64, k: u64) -> u8 {
    ((v >> (8 * k)) & 0xFF) as u8
}

/// The 8 little-endian bytes of `v`.
pub open spec fn le_bytes_u64(v: u64) -> Seq<u8> {
    seq![
        le_byte(v, 0),
        le_byte(v, 1),
        le_byte(v, 2),
        le_byte(v, 3),
        le_byte(v, 4),
        le_byte(v, 5),
        le_byte(v, 6),
        le_byte(v, 7),
    ]
}

/// The 4 little-endian bytes of `v`.
pub open spec fn le_bytes_u32(v: u32) -> Seq<u8> {
    seq![le_byte(v as u64, 0), le_byte(v as u64, 1), le_byte(v as u64, 2), le_byte(v as u64, 3)]
}

/// The value of 8 little-endian bytes.
pub open spec fn le_value_u64(s: Seq<u8>) -> int {
    s[0] + 0x100 * s[1] + 0x1_0000 * s[2] + 0x100_0000 * s[3] + 0x1_0000_0000 * s[4]
        + 0x100_0000_0000 * s[5] + 0x1_0000_0000_0000 * s[6] + 0x100_0000_0000_0000 * s[7]
}

/// The value of 4 little-endian bytes.
pub open spec fn le_value_u32(s: Seq<u8>) -> int {
    s[0] + 0x100 * s[1] + 0x1_0000 * s[2] + 0x100_0000 * s[3]
}

/// The opening bytes of an absolute jump: `jmp [rip + 0]`.
pub open spec fn jump_opcode() -> Seq<u8> {
    seq![0xFF, 0x25, 0x00, 0x00, 0x00, 0x00]
}

/// The bytes of an absolute jump to `target`.
pub open spec fn jump_bytes(target: u64) -> Seq<u8> {
    jump_opcode() + le_bytes_u64(target)
}

/// Number of patch bytes before the point the displacement is taken from.
pub const TRAMPOLINE_REACH: usize = 15;

/// The displacement written into a trampoline patch at `site` for `stub`:
/// `stub - (site + 15)`, truncated to 32 bits.
pub open spec fn trampoline_displacement(site: int, stub: int) -> u32 {
    ((stub - (site + TRAMPOLINE_REACH)) % 0x1_0000_0000) as u32
}

/// The bytes of the trampoline patch written at `site` with `context` for
/// `stub`.
pub open spec fn trampoline_bytes(site: int, context: u64, stub: int) -> Seq<u8> {
    seq![0x48u8, 0xB8u8, 0x00u8] + le_bytes_u64(context) + le_bytes_u32(
        trampoline_displacement(site, stub),
    ) + seq![0x00u8]
}

/// Byte `k` (from the least significant) of `v`.
pub fn byte_of(v: u64, k: u64) -> (b: u8)
    requires
        k < 8,
    ensures
        b == le_byte(v, k),
{
    let shifted = v >> (8 * k);
    assert(shifted as u8 == (shifted & 0xFF) as u8) by (bit_vector);
    shifted as u8
}

/// The bytes of an absolute jump to `target`.
pub fn absolute_jump(target: u64) -> (bytes: [u8; 14])
    ensures
        bytes@ == jump_bytes(target),
{
    let bytes = [
        0xFF,
        0x25,
        0x00,
        0x00,
        0x00,
        0x00,
        byte_of(target, 0),
        byte_of(target, 1),
        byte_of(target, 2),
        byte_of(target, 3),
        byte_of(target, 4),
        byte_of(target, 5),
        byte_of(target, 6),
        byte_of(target, 7),
    ];
    assert(bytes@ =~= jump_bytes(target));
    bytes
}

/// The displacement from the end of the first 15 patch bytes at `site` to
/// `stub`, truncated to 32 bits.
pub fn displacement(site: usize, stub: usize) -> (rel: u32)
    requires
        site + TRAMPOLINE_REACH <= usize::MAX,
    ensures
        rel == trampoline_displacement(site as int, stub as int),
{
    let end = site as u64 + 15;
    let s = stub as u64;
    if s >= end {
        ((s - end) % 0x1_0000_0000) as u32
    } else {
        let back = (end - s) % 0x1_0000_0000;
        if back == 0 {
            0
        } else {
            (0x1_0000_0000 - back) as u32
        }
    }
}

/// The 16 bytes of the trampoline patch for `site`, `context` and `stub`:
/// `48 B8 00`, the 8 little-endian bytes of `context`, the 4 little-endian
/// bytes of `stub - (site + 15)` truncated to 32 bits, and `00`. (As x86-64
/// code these bytes neither load `context` nor jump: the context starts one
/// byte after the `mov rax` opcode, and no `E9` opcode precedes the
/// displacement.)
pub fn trampoline_patch(site: usize, context: u64, stub: usize) -> (bytes: [u8; 16])
    requires
        site + TRAMPOLINE_REACH <= usize::MAX,
    ensures
        bytes@ == trampoline_bytes(site as int, context, stub as int),
{
    let rel = displacement(site, stub) as u64;
    let bytes = [
        0x48,
        0xB8,
        0x00,
        byte_of(context, 0),
        byte_of(context, 1),
        byte_of(context, 2),
        byte_of(context, 3),
        byte_of(context, 4),
        byte_of(context, 5),
        byte_of(context, 6),
        byte_of(context, 7),
        byte_of(rel, 0),
        byte_of(rel, 1),
        byte_of(rel, 2),
        byte_of(rel, 3),
        0x00,
    ];
    assert(bytes@ =~= trampoline_bytes(site as int, context, stub as int));
    bytes
}

/// The 8 little-endian bytes of a value read back give the value.
pub proof fn lemma_le_bytes_u64_roundtrip(v: u64)
    ensures
        le_value_u64(le_bytes_u64(v)) == v,
{
    assert(v == ((v >> 0u64) & 0xFF) + 0x100 * ((v >> 8u64) & 0xFF) + 0x1_0000 * ((v >> 16u64)
        & 0xFF) + 0x100_0000 * ((v >> 24u64) & 0xFF) + 0x1_0000_0000 * ((v >> 32u64) & 0xFF)
        + 0x100_0000_0000 * ((v >> 40u64) & 0xFF) + 0x1_0000_0000_0000 * ((v >> 48u64) & 0xFF)
        + 0x100_0000_0000_0000 * ((v >> 56u64) & 0xFF)) by (bit_vector);
    assert forall|k: u64| k < 8 implies (le_byte(v, k) as int) == ((v >> (8 * k)) & 0xFF) by {
        let x = (v >> (8 * k)) & 0xFF;
        assert(x <= 0xFF) by (bit_vector)
            requires
                x == (v >> (8 * k)) & 0xFF,
        ;
    }
    assert(le_byte(v, 0) as int == (v >> 0u64) & 0xFF);
    assert(le_byte(v, 1) as int == (v >> 8u64) & 0xFF);
    assert(le_byte(v, 2) as int == (v >> 16u64) & 0xFF);
    assert(le_byte(v, 3) as int == (v >> 24u64) & 0xFF);
    assert(le_byte(v, 4) as int == (v >> 32u64) & 0xFF);
    assert(le_byte(v, 5) as int == (v >> 40u64) & 0xFF);
    assert(le_byte(v, 6) as int == (v >> 48u64) & 0xFF);
    assert(le_byte(v, 7) as int == (v >> 56u64) & 0xFF);
}

/// The 4 little-endian bytes of a value read back give the value.
pub proof fn lemma_le_bytes_u32_roundtrip(v: u32)
    ensures
        le_value_u32(le_bytes_u32(v)) == v,
{
    let w = v as u64;
    assert(w == ((w >> 0u64) & 0xFF) + 0x100 * ((w >> 8u64) & 0xFF) + 0x1_0000 * ((w >> 16u64)
        & 0xFF) + 0x100_0000 * ((w >> 24u64) & 0xFF)) by (bit_vector)
        requires
            w <= 0xFFFF_FFFF,
    ;
    assert forall|k: u64| k < 8 implies (le_byte(w, k) as int) == ((w >> (8 * k)) & 0xFF) by {
        let x = (w >> (8 * k)) & 0xFF;
        assert(x <= 0xFF) by (bit_vector)
            requires
                x == (w >> (8 * k)) & 0xFF,
        ;
    }
    assert(le_byte(w, 0) as int == (w >> 0u64) & 0xFF);
    assert(le_byte(w, 1) as int == (w >> 8u64) & 0xFF);
    assert(le_byte(w, 2) as int == (w >> 16u64) & 0xFF);
    assert(le_byte(w, 3) as int == (w >> 24u64) & 0xFF);
}

/// An absolute jump's address field holds its target.
pub proof fn lemma_jump_reaches_target(target: u64)
    ensures
        jump_bytes(target).len() == 14,
        jump_bytes(target).subrange(0, 6) == jump_opcode(),
        le_value_u64(jump_bytes(target).subrange(6, 14)) == target,
{
    lemma_le_bytes_u64_roundtrip(target);
    assert(jump_bytes(target).subrange(6, 14) =~= le_bytes_u64(target));
    assert(jump_bytes(target).subrange(0, 6) =~= jump_opcode());
}

/// A trampoline patch carries its context at bytes 3..11, and its
/// displacement, added to the end of its first 15 bytes, reaches the stub
/// modulo 2^32.
pub proof fn lemma_trampoline_carries_context_and_reaches_stub(site: int, context: u64, stub: int)
    ensures
        trampoline_bytes(site, context, stub).len() == 16,
        le_value_u64(trampoline_bytes(site, context, stub).subrange(3, 11)) == context,
        (site + TRAMPOLINE_REACH + le_value_u32(trampoline_bytes(site, context, stub).subrange(11, 15)))
            % 0x1_0000_0000 == stub % 0x1_0000_0000,
{
    let b = trampoline_bytes(site, context, stub);
    let rel = trampoline_displacement(site, stub);
    lemma_le_bytes_u64_roundtrip(context);
    lemma_le_bytes_u32_roundtrip(rel);
    assert(b.subrange(3, 11) =~= le_bytes_u64(context));
    assert(b.subrange(11, 15) =~= le_bytes_u32(rel));
    let d = stub - (site + TRAMPOLINE_REACH);
    assert(rel as int == d % 0x1_0000_0000);
    assert((site + TRAMPOLINE_REACH + d % 0x1_0000_0000) % 0x1_0000_0000 == stub % 0x1_0000_0000)
        by (nonlinear_arith)
        requires
            d == stub - (site + TRAMPOLINE_REACH),
    ;
}

} // verus!
