//! The LD19 measurement packet: a 47-byte frame holding twelve range readings.
//!
//! Layout: head byte `0x54`, a length byte whose low five bits give the number
//! of readings (12), the rotation speed (2 bytes), the start angle (2 bytes),
//! twelve readings of a 2-byte distance and a 1-byte confidence, the end angle
//! (2 bytes), a timestamp (2 bytes) and a CRC-8 over all earlier bytes.
//! Multi-byte fields are little-endian.

use vstd::prelude::*;
use crate::Point;
use crate::DIR_ROUND;

verus! {

/// First byte of every packet.
pub const HEADER: u8 = 0x54;

/// Size of a packet in bytes.
pub const PACKET_LEN: usize = 47;

/// Number of readings in a packet.
pub const POINTS_PER_PACKET: usize = 12;

/// Generator polynomial of the packet checksum (CRC-8, most significant bit first).
pub const CRC_POLY: u8 = 0x4D;

/// One bit step of the checksum register.
pub open spec fn crc_shift(c: u8) -> u8 {
    if c & 0x80u8 != 0 {
        (c << 1u8) ^ CRC_POLY
    } else {
        c << 1u8
    }
}

/// The checksum register after `k` bit steps from `c`.
pub open spec fn crc_bits(c: u8, k: nat) -> u8
    decreases k,
{
    if k == 0 {
        c
    } else {
        crc_shift(crc_bits(c, (k - 1) as nat))
    }
}

/// The checksum register after absorbing byte `b`.
pub open spec fn crc_update(crc: u8, b: u8) -> u8 {
    crc_bits(crc ^ b, 8)
}

/// CRC-8 (polynomial `0x4D`, initial value 0, no reflection) of a byte sequence.
pub open spec fn spec_crc8(s: Seq<u8>) -> u8
    decreases s.len(),
{
    if s.len() == 0 {
        0
    } else {
        crc_update(spec_crc8(s.drop_last()), s.last())
    }
}

/// Little-endian 16-bit value at byte offset `i`.
pub open spec fn le16(s: Seq<u8>, i: int) -> int {
    s[i] + 256 * s[i + 1]
}

/// Whether `p` is a well-formed packet: right size, head byte, twelve readings
/// announced in the low five bits of the length byte, and a matching checksum.
pub open spec fn packet_ok(p: Seq<u8>) -> bool {
    &&& p.len() == PACKET_LEN
    &&& p[0] == HEADER
    &&& p[1] & 0x1Fu8 == POINTS_PER_PACKET
    &&& spec_crc8(p.take(PACKET_LEN - 1)) == p[PACKET_LEN - 1]
}

/// Start angle of the packet, in hundredths of a degree.
pub open spec fn start_angle(p: Seq<u8>) -> int {
    le16(p, 4)
}

/// End angle of the packet, in hundredths of a degree.
pub open spec fn end_angle(p: Seq<u8>) -> int {
    le16(p, 42)
}

/// The angle swept from `start` to `end`, taken modulo a full turn.
pub open spec fn sweep(start: int, end: int) -> int {
    (end - start) % (DIR_ROUND as int)
}

/// Direction of reading `i`: the start angle plus `i` equal steps of a
/// twelfth-reading span, each step being the sweep divided by 11 (rounded
/// down), taken modulo a full turn.
pub open spec fn reading_dir(start: int, end: int, i: int) -> int {
    (start + (sweep(start, end) / 11) * i) % (DIR_ROUND as int)
}

/// Distance of reading `i` in millimetres, or 0 when its confidence is below `min_confidence`.
pub open spec fn reading_len(p: Seq<u8>, i: int, min_confidence: u8) -> int {
    if p[8 + 3 * i] < min_confidence {
        0
    } else {
        le16(p, 6 + 3 * i)
    }
}

/// The twelve points that the packet `p` carries.
pub open spec fn decode_points(p: Seq<u8>, min_confidence: u8) -> Seq<Point> {
    Seq::new(
        POINTS_PER_PACKET as nat,
        |i: int|
            Point {
                len: reading_len(p, i, min_confidence) as u16,
                dir: reading_dir(start_angle(p), end_angle(p), i) as u16,
            },
    )
}

/// One bit step of the checksum register.
fn crc_step(c: u8) -> (r: u8)
    ensures
        r == crc_shift(c),
{
    if c & 0x80 != 0 {
        (c << 1u8) ^ CRC_POLY
    } else {
        c << 1u8
    }
}

/// Absorbs byte `b` into the checksum register `crc`.
pub fn crc8_update(crc: u8, b: u8) -> (r: u8)
    ensures
        r == crc_update(crc, b),
        r == crc_update(0, crc ^ b),
{
    proof {
        lemma_crc8_absorb(crc, b, 0, 0, Seq::empty());
    }
    let mut c: u8 = crc ^ b;
    let mut k: u8 = 0;
    while k < 8
        invariant
            k <= 8,
            c == crc_bits(crc ^ b, k as nat),
        decreases 8 - k,
    {
        c = crc_step(c);
        k = k + 1;
    }
    c
}

/// CRC-8 of `data`, as the packet checksum computes it.
pub fn crc8(data: &[u8]) -> (c: u8)
    ensures
        c == spec_crc8(data@),
{
    let mut c: u8 = 0;
    let mut i: usize = 0;
    while i < data.len()
        invariant
            i <= data@.len(),
            c == spec_crc8(data@.take(i as int)),
        decreases data@.len() - i,
    {
        assert(data@.take(i as int + 1).drop_last() =~= data@.take(i as int));
        c = crc8_update(c, data[i]);
        i = i + 1;
    }
    assert(data@.take(data@.len() as int) =~= data@);
    c
}

/// Little-endian 16-bit value at byte offset `i`.
fn read_le16(data: &[u8], i: usize) -> (v: u16)
    requires
        i + 1 < data@.len(),
    ensures
        v == le16(data@, i as int),
{
    data[i] as u16 + (data[i + 1] as u16) * 256
}

/// Whether `p` is a well-formed packet.
pub fn is_packet(p: &[u8]) -> (ok: bool)
    ensures
        ok == packet_ok(p@),
{
    if p.len() != PACKET_LEN {
        return false;
    }
    if p[0] != HEADER || p[1] & 0x1F != POINTS_PER_PACKET as u8 {
        return false;
    }
    let mut c: u8 = 0;
    let mut i: usize = 0;
    while i < PACKET_LEN - 1
        invariant
            p@.len() == PACKET_LEN,
            i <= PACKET_LEN - 1,
            c == spec_crc8(p@.take(i as int)),
        decreases PACKET_LEN - 1 - i,
    {
        assert(p@.take(i as int + 1).drop_last() =~= p@.take(i as int));
        c = crc8_update(c, p[i]);
        i = i + 1;
    }
    c == p[PACKET_LEN - 1]
}

/// Appends the twelve points of the well-formed packet `p` to `out`.
pub fn decode_packet(p: &[u8], min_confidence: u8, out: &mut Vec<Point>)
    requires
        p@.len() == PACKET_LEN,
    ensures
        final(out)@ == old(out)@ + decode_points(p@, min_confidence),
        forall|i: int| 0 <= i < POINTS_PER_PACKET ==> (#[trigger] final(out)@[old(out)@.len() + i]).len as int
            == if p@[8 + 3 * i] < min_confidence { 0 } else { p@[6 + 3 * i] + 256 * p@[7 + 3 * i] },
{
    proof {
        lemma_decoded_lens(p@, min_confidence);
    }
    let start: u32 = read_le16(p, 4) as u32;
    let end: u32 = read_le16(p, 42) as u32;
    let span: u32 = (end + 2 * DIR_ROUND as u32 - start) % DIR_ROUND as u32;
    proof {
        assert(span == sweep(start as int, end as int)) by {
            vstd::arithmetic::div_mod::lemma_mod_add_multiples_vanish(end - start, 36000);
            vstd::arithmetic::div_mod::lemma_mod_add_multiples_vanish(end - start + 36000, 36000);
        }
    }
    let step: u32 = span / 11;
    let ghost out0 = out@;
    let mut i: usize = 0;
    while i < POINTS_PER_PACKET
        invariant
            p@.len() == PACKET_LEN,
            i <= POINTS_PER_PACKET,
            start == start_angle(p@),
            start < 65536,
            end == end_angle(p@),
            step == sweep(start as int, end as int) / 11,
            step < 36000,
            out@ == out0 + decode_points(p@, min_confidence).take(i as int),
        decreases POINTS_PER_PACKET - i,
    {
        assert(step * i <= 36000 * 12) by (nonlinear_arith)
            requires
                step < 36000,
                i < 12,
        ;
        let dist: u16 = read_le16(p, 6 + 3 * i);
        let len: u16 = if p[8 + 3 * i] < min_confidence { 0 } else { dist };
        let dir: u16 = ((start + step * i as u32) % DIR_ROUND as u32) as u16;
        out.push(Point { len, dir });
        proof {
            assert(decode_points(p@, min_confidence).take(i as int + 1)
                =~= decode_points(p@, min_confidence).take(i as int).push(Point { len, dir }));
        }
        i = i + 1;
    }
    assert(decode_points(p@, min_confidence).take(POINTS_PER_PACKET as int) =~= decode_points(p@, min_confidence));
}

} // verus!

verus! {

/// Every decoded direction lies within one turn, and the first reading points
/// at the start angle (taken modulo a turn).
pub proof fn lemma_decoded_dirs(p: Seq<u8>, min_confidence: u8)
    requires
        p.len() == PACKET_LEN,
    ensures
        forall|i: int| 0 <= i < POINTS_PER_PACKET ==> #[trigger] decode_points(p, min_confidence)[i].dir < DIR_ROUND,
        decode_points(p, min_confidence)[0].dir == start_angle(p) % (DIR_ROUND as int),
{
    assert forall|i: int| 0 <= i < POINTS_PER_PACKET implies #[trigger] decode_points(p, min_confidence)[i].dir < DIR_ROUND by {
        let d = reading_dir(start_angle(p), end_angle(p), i);
        assert(0 <= d < 36000);
    }
    assert(reading_dir(start_angle(p), end_angle(p), 0) == start_angle(p) % 36000) by {
        assert((sweep(start_angle(p), end_angle(p)) / 11) * 0 == 0);
    }
}


/// The distance of each decoded reading: zero when the reading's confidence
/// byte (offset `8 + 3 * i`) is below `min_confidence`, else the little-endian
/// distance bytes at offsets `6 + 3 * i` and `7 + 3 * i`. Whether a reading is
/// dropped depends on its confidence byte alone.
pub proof fn lemma_decoded_lens(p: Seq<u8>, min_confidence: u8)
    requires
        p.len() == PACKET_LEN,
    ensures
        decode_points(p, min_confidence).len() == POINTS_PER_PACKET,
        forall|i: int| 0 <= i < POINTS_PER_PACKET ==> (#[trigger] decode_points(p, min_confidence)[i]).len as int
            == if p[8 + 3 * i] < min_confidence { 0 } else { p[6 + 3 * i] + 256 * p[7 + 3 * i] },
        forall|i: int, q: Seq<u8>| 0 <= i < POINTS_PER_PACKET && q.len() == PACKET_LEN && q[8 + 3 * i] == p[8 + 3 * i]
            && #[trigger] decode_points(q, min_confidence)[i].len != 0
            ==> (#[trigger] decode_points(p, min_confidence)[i]).len != 0 || (p[6 + 3 * i] == 0 && p[7 + 3 * i] == 0),
{
    assert forall|i: int| 0 <= i < POINTS_PER_PACKET implies (#[trigger] decode_points(p, min_confidence)[i]).len as int
        == if p[8 + 3 * i] < min_confidence { 0 } else { p[6 + 3 * i] + 256 * p[7 + 3 * i] } by {
        let v = p[6 + 3 * i] + 256 * p[7 + 3 * i];
        assert(0 <= v < 65536);
    }
    assert forall|i: int, q: Seq<u8>| 0 <= i < POINTS_PER_PACKET && q.len() == PACKET_LEN && q[8 + 3 * i] == p[8 + 3 * i]
        && #[trigger] decode_points(q, min_confidence)[i].len != 0
        implies (#[trigger] decode_points(p, min_confidence)[i]).len != 0 || (p[6 + 3 * i] == 0 && p[7 + 3 * i] == 0) by {
        let v = p[6 + 3 * i] + 256 * p[7 + 3 * i];
        let w = q[6 + 3 * i] + 256 * q[7 + 3 * i];
        assert(0 <= v < 65536);
        assert(0 <= w < 65536);
    }
}


/// One bit step of the register is linear over exclusive or.
proof fn lemma_crc_shift_xor(x: u8, y: u8)
    ensures
        crc_shift(x ^ y) == crc_shift(x) ^ crc_shift(y),
{
    assert(crc_shift(x ^ y) == crc_shift(x) ^ crc_shift(y)) by (bit_vector);
}


proof fn lemma_crc_bits_xor(x: u8, y: u8, k: nat)
    ensures
        crc_bits(x ^ y, k) == crc_bits(x, k) ^ crc_bits(y, k),
    decreases k,
{
    if k > 0 {
        lemma_crc_bits_xor(x, y, (k - 1) as nat);
        lemma_crc_shift_xor(crc_bits(x, (k - 1) as nat), crc_bits(y, (k - 1) as nat));
    }
}


/// How bytes enter the CRC-8 register: absorbing `b` into the register `crc`
/// is the table step `T(x) = crc_update(0, x)` of `crc ^ b` (the register is
/// fed through the step, not added after it); the table step is linear over
/// exclusive or; and the checksum of a sequence starts at 0 and absorbs its
/// bytes in order.
pub proof fn lemma_crc8_absorb(crc: u8, b: u8, x: u8, y: u8, s: Seq<u8>)
    ensures
        crc_update(crc, b) == crc_update(0, crc ^ b),
        crc_update(0, x ^ y) == crc_update(0, x) ^ crc_update(0, y),
        spec_crc8(Seq::empty()) == 0,
        spec_crc8(s.push(b)) == crc_update(0, spec_crc8(s) ^ b),
{
    let c = spec_crc8(s);
    assert(0u8 ^ (crc ^ b) == crc ^ b && 0u8 ^ (x ^ y) == (0u8 ^ x) ^ (0u8 ^ y) && 0u8 ^ (c ^ b) == c ^ b) by (bit_vector);
    lemma_crc_bits_xor(0u8 ^ x, 0u8 ^ y, 8);
    assert(s.push(b).drop_last() =~= s);
}


/// The register after eight steps from `c`, written out step by step.
proof fn lemma_crc_bits_8(c: u8)
    ensures
        crc_bits(c, 8) == crc_shift(crc_shift(crc_shift(crc_shift(crc_shift(crc_shift(crc_shift(crc_shift(c)))))))),
{
    reveal_with_fuel(crc_bits, 9);
}


/// The CRC-8 table step on the eight single-bit bytes: the multiples of the
/// polynomial `0x4D` (`0x4D, 0x9A, 0x79, 0xF2, 0xA9, 0x1F, 0x3E, 0x7C`).
/// With the linearity of `lemma_crc8_absorb` this fixes the step on every byte.
pub proof fn lemma_crc8_table_basis()
    ensures
        crc_update(0, 0x01) == 0x4D,
        crc_update(0, 0x02) == 0x9A,
        crc_update(0, 0x04) == 0x79,
        crc_update(0, 0x08) == 0xF2,
        crc_update(0, 0x10) == 0xA9,
        crc_update(0, 0x20) == 0x1F,
        crc_update(0, 0x40) == 0x3E,
        crc_update(0, 0x80) == 0x7C,
{
    assert(crc_shift(0x01) == 0x02 && crc_shift(0x02) == 0x04 && crc_shift(0x04) == 0x08 && crc_shift(0x08) == 0x10
        && crc_shift(0x10) == 0x20 && crc_shift(0x20) == 0x40 && crc_shift(0x40) == 0x80 && crc_shift(0x80) == 0x4D
        && crc_shift(0x4D) == 0x9A && crc_shift(0x9A) == 0x79 && crc_shift(0x79) == 0xF2 && crc_shift(0xF2) == 0xA9
        && crc_shift(0xA9) == 0x1F && crc_shift(0x1F) == 0x3E && crc_shift(0x3E) == 0x7C) by (bit_vector);
    assert(0u8 ^ 0x01u8 == 0x01u8 && 0u8 ^ 0x02u8 == 0x02u8 && 0u8 ^ 0x04u8 == 0x04u8 && 0u8 ^ 0x08u8 == 0x08u8
        && 0u8 ^ 0x10u8 == 0x10u8 && 0u8 ^ 0x20u8 == 0x20u8 && 0u8 ^ 0x40u8 == 0x40u8 && 0u8 ^ 0x80u8 == 0x80u8) by (bit_vector);
    lemma_crc_bits_8(0x01);
    lemma_crc_bits_8(0x02);
    lemma_crc_bits_8(0x04);
    lemma_crc_bits_8(0x08);
    lemma_crc_bits_8(0x10);
    lemma_crc_bits_8(0x20);
    lemma_crc_bits_8(0x40);
    lemma_crc_bits_8(0x80);
}


/// The direction of each decoded reading, from the packet's bytes: the start
/// angle (bytes 4 and 5) plus `i` steps of one eleventh of the angle swept to
/// the end angle (bytes 42 and 43), rounded down, all modulo a full turn.
/// Consecutive readings are one step apart, modulo a turn.
pub proof fn lemma_decoded_dir_formula(p: Seq<u8>, min_confidence: u8)
    requires
        p.len() == PACKET_LEN,
    ensures
        forall|i: int| 0 <= i < POINTS_PER_PACKET ==> (#[trigger] decode_points(p, min_confidence)[i]).dir as int
            == ((p[4] + 256 * p[5]) + (((p[42] + 256 * p[43]) - (p[4] + 256 * p[5])) % 36000 / 11) * i) % 36000,
        forall|i: int| 0 <= i < POINTS_PER_PACKET - 1 ==>
            ((#[trigger] decode_points(p, min_confidence)[i + 1]).dir - decode_points(p, min_confidence)[i].dir) % 36000
            == ((p[42] + 256 * p[43]) - (p[4] + 256 * p[5])) % 36000 / 11,
{
    let st = p[4] + 256 * p[5];
    let step = ((p[42] + 256 * p[43]) - st) % 36000 / 11;
    assert(0 <= step < 36000);
    assert forall|i: int| 0 <= i < POINTS_PER_PACKET implies (#[trigger] decode_points(p, min_confidence)[i]).dir as int
        == (st + step * i) % 36000 by {
        let d = (st + step * i) % 36000;
        assert(0 <= d < 36000);
    }
    assert forall|i: int| 0 <= i < POINTS_PER_PACKET - 1 implies
        ((#[trigger] decode_points(p, min_confidence)[i + 1]).dir - decode_points(p, min_confidence)[i].dir) % 36000 == step by {
        let a = st + step * i;
        assert(decode_points(p, min_confidence)[i].dir as int == a % 36000);
        assert(decode_points(p, min_confidence)[i + 1].dir as int == (a + step) % 36000) by {
            assert(step * (i + 1) == step * i + step) by (nonlinear_arith);
        }
        vstd::arithmetic::div_mod::lemma_add_mod_noop(a, step, 36000);
        vstd::arithmetic::div_mod::lemma_sub_mod_noop(a + step, a, 36000);
        assert(step % 36000 == step) by {
            vstd::arithmetic::div_mod::lemma_small_mod(step as nat, 36000);
        }
        assert((a % 36000) % 36000 == a % 36000) by {
            vstd::arithmetic::div_mod::lemma_mod_twice(a, 36000);
        }
        assert(((a + step) % 36000) % 36000 == (a + step) % 36000) by {
            vstd::arithmetic::div_mod::lemma_mod_twice(a + step, 36000);
        }
    }
}


/// Different registers stay different through the bit steps.
proof fn lemma_crc_bits_injective(x: u8, y: u8, k: nat)
    ensures
        crc_bits(x, k) == crc_bits(y, k) ==> x == y,
    decreases k,
{
    if k > 0 {
        lemma_crc_bits_injective(x, y, (k - 1) as nat);
        let a = crc_bits(x, (k - 1) as nat);
        let c = crc_bits(y, (k - 1) as nat);
        lemma_crc_shift_xor(a, c);
        let z = a ^ c;
        assert(crc_shift(a) == crc_shift(c) ==> a == c) by {
            assert(crc_shift(z) == 0u8 ==> z == 0u8) by (bit_vector);
            assert(crc_shift(a) == crc_shift(c) ==> crc_shift(a) ^ crc_shift(c) == 0u8) by (bit_vector);
            assert(z == 0u8 ==> a == c) by (bit_vector)
                requires
                    z == a ^ c,
            ;
        }
    }
}

/// The packet checksum catches every change of a single byte: altering one
/// byte of the data always changes its CRC-8.
pub proof fn lemma_crc8_detects_byte_change(s: Seq<u8>, i: int, v: u8)
    requires
        0 <= i < s.len(),
        v != s[i],
    ensures
        spec_crc8(s.update(i, v)) != spec_crc8(s),
    decreases s.len(),
{
    let t = s.update(i, v);
    let n = s.len() - 1;
    if i == n {
        assert(t.drop_last() =~= s.drop_last());
        let c = spec_crc8(s.drop_last());
        let a = s.last();
        assert(t.last() == v);
        assert((c ^ a) == (c ^ v) ==> a == v) by (bit_vector);
        lemma_crc_bits_injective(c ^ a, c ^ v, 8);
    } else {
        assert(t.drop_last() =~= s.drop_last().update(i, v));
        lemma_crc8_detects_byte_change(s.drop_last(), i, v);
        let c1 = spec_crc8(s.drop_last());
        let c2 = spec_crc8(t.drop_last());
        let b = s.last();
        assert(t.last() == b);
        assert((c1 ^ b) == (c2 ^ b) ==> c1 == c2) by (bit_vector);
        lemma_crc_bits_injective(c1 ^ b, c2 ^ b, 8);
    }
}

} // verus!
