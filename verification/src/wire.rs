//! Fixed-width integers in byte buffers, little-endian and big-endian.
//!
//! The `*_at` functions say which number the bytes at an offset spell; the
//! executable readers and writers are proved against them. All of them are
//! plain positional notation in base 256.
use vstd::prelude::*;

verus! {

/// The number that the two bytes at `at` spell, low byte first.
pub open spec fn le_u16_at(s: Seq<u8>, at: int) -> int {
    s[at] + 0x100 * s[at + 1]
}

/// The number that the four bytes at `at` spell, low byte first.
pub open spec fn le_u32_at(s: Seq<u8>, at: int) -> int {
    s[at] + 0x100 * s[at + 1] + 0x1_0000 * s[at + 2] + 0x100_0000 * s[at + 3]
}

/// The number that the eight bytes at `at` spell, low byte first.
pub open spec fn le_u64_at(s: Seq<u8>, at: int) -> int {
    le_u32_at(s, at) + 0x1_0000_0000 * le_u32_at(s, at + 4)
}

/// The number that the four bytes at `at` spell, high byte first.
pub open spec fn be_u32_at(s: Seq<u8>, at: int) -> int {
    0x100_0000 * s[at] + 0x1_0000 * s[at + 1] + 0x100 * s[at + 2] + s[at + 3]
}

/// The number that the eight bytes at `at` spell, high byte first.
pub open spec fn be_u64_at(s: Seq<u8>, at: int) -> int {
    0x1_0000_0000 * be_u32_at(s, at) + be_u32_at(s, at + 4)
}

/// The two bytes of `x`, low byte first.
pub open spec fn le_u16_bytes(x: int) -> Seq<u8> {
    seq![(x % 0x100) as u8, (x / 0x100) as u8]
}

/// The eight bytes of `x`, low byte first.
pub open spec fn le_u64_bytes(x: int) -> Seq<u8> {
    le_u32_bytes(x % 0x1_0000_0000) + le_u32_bytes(x / 0x1_0000_0000)
}

/// The four bytes of `x`, low byte first.
pub open spec fn le_u32_bytes(x: int) -> Seq<u8> {
    seq![
        (x % 0x100) as u8,
        (x / 0x100 % 0x100) as u8,
        (x / 0x1_0000 % 0x100) as u8,
        (x / 0x100_0000) as u8,
    ]
}

/// The four bytes of `x`, high byte first.
pub open spec fn be_u32_bytes(x: int) -> Seq<u8> {
    seq![
        (x / 0x100_0000) as u8,
        (x / 0x1_0000 % 0x100) as u8,
        (x / 0x100 % 0x100) as u8,
        (x % 0x100) as u8,
    ]
}

/// The eight bytes of `x`, high byte first.
pub open spec fn be_u64_bytes(x: int) -> Seq<u8> {
    be_u32_bytes(x / 0x1_0000_0000) + be_u32_bytes(x % 0x1_0000_0000)
}

/// `s` starts with `prefix`.
pub open spec fn extends(s: Seq<u8>, prefix: Seq<u8>) -> bool {
    &&& prefix.len() <= s.len()
    &&& forall|i: int| 0 <= i < prefix.len() ==> #[trigger] s[i] == prefix[i]
}

/// Reads two bytes at `at`, low byte first.
pub fn read_le_u16(s: &[u8], at: usize) -> (x: u16)
    requires
        at + 2 <= s@.len(),
    ensures
        x == le_u16_at(s@, at as int),
{
    s[at] as u16 + 0x100 * (s[at + 1] as u16)
}

/// Reads four bytes at `at`, low byte first.
pub fn read_le_u32(s: &[u8], at: usize) -> (x: u32)
    requires
        at + 4 <= s@.len(),
    ensures
        x == le_u32_at(s@, at as int),
{
    s[at] as u32 + 0x100 * (s[at + 1] as u32) + 0x1_0000 * (s[at + 2] as u32) + 0x100_0000 * (s[at
        + 3] as u32)
}

/// Reads eight bytes at `at`, low byte first.
pub fn read_le_u64(s: &[u8], at: usize) -> (x: u64)
    requires
        at + 8 <= s@.len(),
    ensures
        x == le_u64_at(s@, at as int),
{
    assert(s@.len() == s.len());
    let low: u32 = read_le_u32(s, at);
    let high: u32 = read_le_u32(s, at + 4);
    low as u64 + 0x1_0000_0000 * (high as u64)
}

/// Reads four bytes at `at`, high byte first.
pub fn read_be_u32(s: &[u8], at: usize) -> (x: u32)
    requires
        at + 4 <= s@.len(),
    ensures
        x == be_u32_at(s@, at as int),
{
    0x100_0000 * (s[at] as u32) + 0x1_0000 * (s[at + 1] as u32) + 0x100 * (s[at + 2] as u32)
        + s[at + 3] as u32
}

/// Reads eight bytes at `at`, high byte first.
pub fn read_be_u64(s: &[u8], at: usize) -> (x: u64)
    requires
        at + 8 <= s@.len(),
    ensures
        x == be_u64_at(s@, at as int),
{
    assert(s@.len() == s.len());
    let high: u32 = read_be_u32(s, at);
    let low: u32 = read_be_u32(s, at + 4);
    0x1_0000_0000 * (high as u64) + low as u64
}

/// Appends `x` in four bytes, low byte first.
pub fn push_le_u32(buf: &mut Vec<u8>, x: u32)
    ensures
        final(buf)@.len() == old(buf)@.len() + 4,
        extends(final(buf)@, old(buf)@),
        le_u32_at(final(buf)@, old(buf)@.len() as int) == x,
{
    let q1: u32 = x / 0x100;
    let q2: u32 = q1 / 0x100;
    let q3: u32 = q2 / 0x100;
    buf.push((x % 0x100) as u8);
    buf.push((q1 % 0x100) as u8);
    buf.push((q2 % 0x100) as u8);
    buf.push(q3 as u8);
}

/// Appends `x` in eight bytes, low byte first.
pub fn push_le_u64(buf: &mut Vec<u8>, x: u64)
    ensures
        final(buf)@.len() == old(buf)@.len() + 8,
        extends(final(buf)@, old(buf)@),
        le_u64_at(final(buf)@, old(buf)@.len() as int) == x,
{
    let low: u32 = (x % 0x1_0000_0000) as u32;
    let high: u32 = (x / 0x1_0000_0000) as u32;
    push_le_u32(buf, low);
    let ghost mid = buf@;
    push_le_u32(buf, high);
    proof {
        lemma_extends_keeps_le(buf@, mid, old(buf)@.len() as int);
    }
}

/// Appends `x` in four bytes, high byte first.
pub fn push_be_u32(buf: &mut Vec<u8>, x: u32)
    ensures
        final(buf)@ == old(buf)@ + be_u32_bytes(x as int),
{
    buf.push((x / 0x100_0000) as u8);
    buf.push((x / 0x1_0000 % 0x100) as u8);
    buf.push((x / 0x100 % 0x100) as u8);
    buf.push((x % 0x100) as u8);
}

/// Appends `x` in eight bytes, high byte first.
pub fn push_be_u64(buf: &mut Vec<u8>, x: u64)
    ensures
        final(buf)@ == old(buf)@ + be_u64_bytes(x as int),
{
    push_be_u32(buf, (x / 0x1_0000_0000) as u32);
    push_be_u32(buf, (x % 0x1_0000_0000) as u32);
}

/// The bytes of a 32-bit number spell it.
pub proof fn lemma_be_u32_bytes(x: int)
    requires
        0 <= x < 0x1_0000_0000,
    ensures
        be_u32_bytes(x).len() == 4,
        be_u32_at(be_u32_bytes(x), 0) == x,
{
}

/// The bytes of a 64-bit number spell it, wherever they stand.
pub proof fn lemma_be_u64_bytes(s: Seq<u8>, at: int, x: int)
    requires
        0 <= x <= u64::MAX,
        0 <= at,
        at + 8 <= s.len(),
        s.subrange(at, at + 8) == be_u64_bytes(x),
    ensures
        be_u64_at(s, at) == x,
{
    let b = be_u64_bytes(x);
    let t = s.subrange(at, at + 8);
    lemma_be_u32_bytes(x / 0x1_0000_0000);
    lemma_be_u32_bytes(x % 0x1_0000_0000);
    assert(be_u32_at(b, 0) == x / 0x1_0000_0000);
    assert(be_u32_at(b, 4) == x % 0x1_0000_0000);
    assert(s[at] == t[0] && s[at + 1] == t[1] && s[at + 2] == t[2] && s[at + 3] == t[3]);
    assert(s[at + 4] == t[4] && s[at + 5] == t[5] && s[at + 6] == t[6] && s[at + 7] == t[7]);
}

/// Appending keeps what was readable before.
pub proof fn lemma_extends_keeps_le(s: Seq<u8>, prefix: Seq<u8>, at: int)
    requires
        extends(s, prefix),
        0 <= at,
    ensures
        at + 2 <= prefix.len() ==> le_u16_at(s, at) == le_u16_at(prefix, at),
        at + 4 <= prefix.len() ==> le_u32_at(s, at) == le_u32_at(prefix, at),
        at + 8 <= prefix.len() ==> le_u64_at(s, at) == le_u64_at(prefix, at),
{
}

/// Two digits in base 256 are determined by the number that they spell.
proof fn lemma_base_256(a: int, b: int, c: int, d: int)
    requires
        0 <= a < 0x100,
        0 <= c < 0x100,
        a + 0x100 * b == c + 0x100 * d,
    ensures
        a == c,
        b == d,
{
}

/// Two digits in base 2^32 are determined by the number that they spell.
proof fn lemma_base_2_to_32(a: int, b: int, c: int, d: int)
    requires
        0 <= a < 0x1_0000_0000,
        0 <= c < 0x1_0000_0000,
        a + 0x1_0000_0000 * b == c + 0x1_0000_0000 * d,
    ensures
        a == c,
        b == d,
{
}

/// Four bytes spell a 32-bit number.
proof fn lemma_le_u32_range(s: Seq<u8>, at: int)
    ensures
        0 <= le_u32_at(s, at) < 0x1_0000_0000,
{
}

/// Four bytes are determined by the number that they spell, low byte first.
pub proof fn lemma_le_u32_determines_bytes(s: Seq<u8>, t: Seq<u8>, at: int)
    requires
        le_u32_at(s, at) == le_u32_at(t, at),
    ensures
        forall|i: int| at <= i < at + 4 ==> #[trigger] s[i] == t[i],
{
    let (s2, t2) = (s[at + 2] + 0x100 * s[at + 3], t[at + 2] + 0x100 * t[at + 3]);
    let (s1, t1) = (s[at + 1] + 0x100 * s2, t[at + 1] + 0x100 * t2);
    lemma_base_256(s[at] as int, s1, t[at] as int, t1);
    lemma_base_256(s[at + 1] as int, s2, t[at + 1] as int, t2);
    lemma_base_256(s[at + 2] as int, s[at + 3] as int, t[at + 2] as int, t[at + 3] as int);
}

/// Eight bytes are determined by the number that they spell, low byte first.
pub proof fn lemma_le_u64_determines_bytes(s: Seq<u8>, t: Seq<u8>, at: int)
    requires
        le_u64_at(s, at) == le_u64_at(t, at),
    ensures
        forall|i: int| at <= i < at + 8 ==> #[trigger] s[i] == t[i],
{
    lemma_le_u32_range(s, at);
    lemma_le_u32_range(t, at);
    lemma_base_2_to_32(
        le_u32_at(s, at),
        le_u32_at(s, at + 4),
        le_u32_at(t, at),
        le_u32_at(t, at + 4),
    );
    lemma_le_u32_determines_bytes(s, t, at);
    lemma_le_u32_determines_bytes(s, t, at + 4);
}

// --- Laws --------------------------------------------------------------------

/// The last digit of a number in base 256, and what stands before it.
proof fn lemma_last_byte(rest: int, byte: int)
    requires
        0 <= byte < 0x100,
    ensures
        (byte + 0x100 * rest) % 0x100 == byte,
        (byte + 0x100 * rest) / 0x100 == rest,
{
}

/// Little-endian numbers have their low byte first: dividing by 256 time and
/// again gives the bytes in the order in which they stand.
pub proof fn law_little_endian(s: Seq<u8>, at: int)
    ensures
        le_u16_at(s, at) % 0x100 == s[at],
        le_u16_at(s, at) / 0x100 == s[at + 1],
        le_u32_at(s, at) % 0x100 == s[at],
        le_u32_at(s, at) / 0x100 % 0x100 == s[at + 1],
        le_u32_at(s, at) / 0x100 / 0x100 % 0x100 == s[at + 2],
        le_u32_at(s, at) / 0x100 / 0x100 / 0x100 == s[at + 3],
        le_u64_at(s, at) % 0x1_0000_0000 == le_u32_at(s, at),
        le_u64_at(s, at) / 0x1_0000_0000 == le_u32_at(s, at + 4),
        0 <= le_u16_at(s, at) < 0x1_0000,
        0 <= le_u32_at(s, at) < 0x1_0000_0000,
        0 <= le_u64_at(s, at) <= u64::MAX,
{
    let r2 = s[at + 2] + 0x100 * s[at + 3];
    let r1 = s[at + 1] + 0x100 * r2;
    assert(le_u32_at(s, at) == s[at] + 0x100 * r1);
    lemma_last_byte(r1, s[at] as int);
    lemma_last_byte(r2, s[at + 1] as int);
    lemma_last_byte(s[at + 3] as int, s[at + 2] as int);
    lemma_last_byte(s[at + 1] as int, s[at] as int);
    lemma_le_u32_range(s, at);
    lemma_le_u32_range(s, at + 4);
    let (low, high) = (le_u32_at(s, at), le_u32_at(s, at + 4));
    lemma_halves(low, high);
}

proof fn lemma_halves(low: int, high: int)
    requires
        0 <= low < 0x1_0000_0000,
        0 <= high < 0x1_0000_0000,
    ensures
        (low + 0x1_0000_0000 * high) % 0x1_0000_0000 == low,
        (low + 0x1_0000_0000 * high) / 0x1_0000_0000 == high,
        0 <= low + 0x1_0000_0000 * high <= u64::MAX,
{
}

/// Big-endian numbers have their low byte last.
pub proof fn law_big_endian(s: Seq<u8>, at: int)
    ensures
        be_u32_at(s, at) % 0x100 == s[at + 3],
        be_u32_at(s, at) / 0x100 % 0x100 == s[at + 2],
        be_u32_at(s, at) / 0x100 / 0x100 % 0x100 == s[at + 1],
        be_u32_at(s, at) / 0x100 / 0x100 / 0x100 == s[at],
        be_u64_at(s, at) % 0x1_0000_0000 == be_u32_at(s, at + 4),
        be_u64_at(s, at) / 0x1_0000_0000 == be_u32_at(s, at),
        0 <= be_u32_at(s, at) < 0x1_0000_0000,
        0 <= be_u64_at(s, at) <= u64::MAX,
{
    let r2 = s[at + 1] + 0x100 * s[at];
    let r1 = s[at + 2] + 0x100 * r2;
    assert(be_u32_at(s, at) == s[at + 3] + 0x100 * r1);
    lemma_last_byte(r1, s[at + 3] as int);
    lemma_last_byte(r2, s[at + 2] as int);
    lemma_last_byte(s[at] as int, s[at + 1] as int);
    lemma_be_u32_range(s, at);
    lemma_be_u32_range(s, at + 4);
    lemma_halves(be_u32_at(s, at + 4), be_u32_at(s, at));
}

/// Four bytes spell a 32-bit number.
proof fn lemma_be_u32_range(s: Seq<u8>, at: int)
    ensures
        0 <= be_u32_at(s, at) < 0x1_0000_0000,
{
}

/// The bytes of a number spell it, wherever they stand.
pub proof fn law_bytes_spell_the_number(before: Seq<u8>, after: Seq<u8>, x: int)
    ensures
        0 <= x < 0x1_0000 ==> le_u16_bytes(x).len() == 2 && le_u16_at(
            before + le_u16_bytes(x) + after,
            before.len() as int,
        ) == x,
        0 <= x < 0x1_0000_0000 ==> le_u32_bytes(x).len() == 4 && le_u32_at(
            before + le_u32_bytes(x) + after,
            before.len() as int,
        ) == x,
        0 <= x <= u64::MAX ==> le_u64_bytes(x).len() == 8 && le_u64_at(
            before + le_u64_bytes(x) + after,
            before.len() as int,
        ) == x,
        0 <= x < 0x1_0000_0000 ==> be_u32_bytes(x).len() == 4 && be_u32_at(
            before + be_u32_bytes(x) + after,
            before.len() as int,
        ) == x,
        0 <= x <= u64::MAX ==> be_u64_bytes(x).len() == 8 && be_u64_at(
            before + be_u64_bytes(x) + after,
            before.len() as int,
        ) == x,
{
    let at = before.len() as int;
    let (high, low) = (x / 0x1_0000_0000, x % 0x1_0000_0000);
    if 0 <= x < 0x1_0000_0000 {
        lemma_le_u32_bytes_at(before + le_u32_bytes(x) + after, at, x);
        lemma_be_u32_bytes_at(before + be_u32_bytes(x) + after, at, x);
    }
    if 0 <= x <= u64::MAX {
        let s = before + le_u64_bytes(x) + after;
        assert(le_u64_bytes(x).subrange(0, 4) =~= le_u32_bytes(low));
        assert(le_u64_bytes(x).subrange(4, 8) =~= le_u32_bytes(high));
        assert(s.subrange(at, at + 4) =~= le_u32_bytes(low));
        assert(s.subrange(at + 4, at + 8) =~= le_u32_bytes(high));
        lemma_le_u32_bytes_at(s, at, low);
        lemma_le_u32_bytes_at(s, at + 4, high);
        let t = before + be_u64_bytes(x) + after;
        assert(t.subrange(at, at + 4) =~= be_u32_bytes(high));
        assert(t.subrange(at + 4, at + 8) =~= be_u32_bytes(low));
        lemma_be_u32_bytes_at(t, at, high);
        lemma_be_u32_bytes_at(t, at + 4, low);
    }
}

proof fn lemma_le_u32_bytes_at(s: Seq<u8>, at: int, x: int)
    requires
        0 <= x < 0x1_0000_0000,
        0 <= at,
        at + 4 <= s.len(),
        s.subrange(at, at + 4) =~= le_u32_bytes(x),
    ensures
        le_u32_at(s, at) == x,
{
    let t = s.subrange(at, at + 4);
    assert(s[at] == t[0] && s[at + 1] == t[1] && s[at + 2] == t[2] && s[at + 3] == t[3]);
}

proof fn lemma_be_u32_bytes_at(s: Seq<u8>, at: int, x: int)
    requires
        0 <= x < 0x1_0000_0000,
        0 <= at,
        at + 4 <= s.len(),
        s.subrange(at, at + 4) =~= be_u32_bytes(x),
    ensures
        be_u32_at(s, at) == x,
{
    let t = s.subrange(at, at + 4);
    assert(s[at] == t[0] && s[at + 1] == t[1] && s[at + 2] == t[2] && s[at + 3] == t[3]);
}

} // verus!
