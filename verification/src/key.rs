//! Keys under which pages and metadata are stored.
use vstd::prelude::*;

verus! {

/// A key, as six fields of which the first is the most significant.
#[derive(Clone, Copy, Debug, PartialEq, Eq, PartialOrd, Ord, Hash, Structural)]
pub struct Key {
    pub field1: u8,
    pub field2: u32,
    pub field3: u32,
    pub field4: u32,
    pub field5: u8,
    pub field6: u32,
}

/// A key squeezed into one number. Compact keys are ordered by that number.
#[derive(Clone, Copy, Debug, PartialEq, Eq, PartialOrd, Ord, Hash, Structural)]
pub struct CompactKey(pub i128);

/// A set of keys, as ranges that hold their start and not their end.
#[derive(Clone, Debug, PartialEq, Eq)]
pub struct KeySpace {
    pub ranges: Vec<std::ops::Range<Key>>,
}

/// A fork of a relation.
#[derive(Clone, Copy, Debug, PartialEq, Eq, Hash, Structural)]
pub struct RelTag {
    pub forknum: u8,
    pub spcnode: u32,
    pub dbnode: u32,
    pub relnode: u32,
}

// --- Model -------------------------------------------------------------------

/// Number of keys: 144 bits.
pub open spec fn key_count() -> int {
    0x1_0000_0000_0000_0000_0000_0000_0000_0000_0000int
}

impl Key {
    /// The place of the key in the order of all keys.
    pub open spec fn rank(self) -> int {
        let r2 = self.field1 * 0x1_0000_0000 + self.field2;
        let r3 = r2 * 0x1_0000_0000 + self.field3;
        let r4 = r3 * 0x1_0000_0000 + self.field4;
        let r5 = r4 * 0x100 + self.field5;
        r5 * 0x1_0000_0000 + self.field6
    }

    /// The second field survives in a compact key, where it has only 16 bits:
    /// besides 16-bit numbers, two marks are told apart by their low half.
    pub open spec fn representable(self) -> bool {
        self.field2 <= 0xFFFF || self.field2 == 0xFFFF_FFFF || self.field2 == 0x2222_2222
    }

    /// The compact form: 7 bits of the first field, 16 of the second, and the
    /// others whole.
    pub open spec fn compact(self) -> CompactKey {
        CompactKey(
            ((self.field1 % 0x80) * 0x100_0000_0000_0000_0000_0000_0000_0000 + (self.field2
                % 0x1_0000) * 0x100_0000_0000_0000_0000_0000_0000 + self.field3
                * 0x100_0000_0000_0000_0000 + self.field4 * 0x100_0000_0000 + self.field5
                * 0x1_0000_0000 + self.field6) as i128,
        )
    }
}

/// The key at a place in the order of all keys.
pub open spec fn key_of_rank(rank: int) -> Key {
    let r5 = rank / 0x1_0000_0000;
    let r4 = r5 / 0x100;
    let r3 = r4 / 0x1_0000_0000;
    let r2 = r3 / 0x1_0000_0000;
    Key {
        field1: (r2 / 0x1_0000_0000) as u8,
        field2: (r2 % 0x1_0000_0000) as u32,
        field3: (r3 % 0x1_0000_0000) as u32,
        field4: (r4 % 0x1_0000_0000) as u32,
        field5: (r5 % 0x100) as u8,
        field6: (rank % 0x1_0000_0000) as u32,
    }
}

/// The key of a block.
pub open spec fn block_key(rel: RelTag, blknum: u32) -> Key {
    Key {
        field1: 0,
        field2: rel.spcnode,
        field3: rel.dbnode,
        field4: rel.relnode,
        field5: rel.forknum,
        field6: blknum,
    }
}

// --- Operations --------------------------------------------------------------

impl Key {
    /// The key that lies `x` places further on. A field that overflows carries
    /// into the one before it.
    pub fn add(&self, x: u32) -> (r: Key)
        requires
            self.rank() + x < key_count(),
        ensures
            r.rank() == self.rank() + x,
            r == key_of_rank(self.rank() + x),
    {
        let mut key: Key = *self;
        if self.field6 <= u32::MAX - x {
            key.field6 = self.field6 + x;
        } else {
            key.field6 = x - (u32::MAX - self.field6) - 1;
            if self.field5 < u8::MAX {
                key.field5 = self.field5 + 1;
            } else {
                key.field5 = 0;
                if self.field4 < u32::MAX {
                    key.field4 = self.field4 + 1;
                } else {
                    key.field4 = 0;
                    if self.field3 < u32::MAX {
                        key.field3 = self.field3 + 1;
                    } else {
                        key.field3 = 0;
                        if self.field2 < u32::MAX {
                            key.field2 = self.field2 + 1;
                        } else {
                            key.field2 = 0;
                            key.field1 = self.field1 + 1;
                        }
                    }
                }
            }
        }
        proof {
            law_rank_names_the_key(key);
        }
        key
    }

    /// The key that comes next.
    pub fn next(&self) -> (r: Key)
        requires
            self.rank() + 1 < key_count(),
        ensures
            r.rank() == self.rank() + 1,
            r == key_of_rank(self.rank() + 1),
    {
        self.add(1)
    }

    /// Whether a page may be written under this key: it must have a compact
    /// form of its own.
    pub fn is_valid_key_on_write_path(&self) -> (r: bool)
        ensures
            r == self.representable(),
    {
        self.field2 <= 0xFFFF || self.field2 == 0xFFFF_FFFF || self.field2 == 0x2222_2222
    }

    /// The compact form of a key that has one.
    pub fn to_compact(&self) -> (r: CompactKey)
        requires
            self.representable(),
        ensures
            r == self.compact(),
    {
        let f1: i128 = (self.field1 % 0x80) as i128;
        let f2: i128 = (self.field2 % 0x1_0000) as i128;
        let f3: i128 = self.field3 as i128;
        let f4: i128 = self.field4 as i128;
        let f5: i128 = self.field5 as i128;
        let f6: i128 = self.field6 as i128;
        CompactKey(
            f1 * 0x100_0000_0000_0000_0000_0000_0000_0000 + f2
                * 0x100_0000_0000_0000_0000_0000_0000 + f3 * 0x100_0000_0000_0000_0000 + f4
                * 0x100_0000_0000 + f5 * 0x1_0000_0000 + f6,
        )
    }
}

/// The key of block `blknum` of a relation fork.
pub fn rel_block_to_key(rel: RelTag, blknum: u32) -> (r: Key)
    ensures
        r == block_key(rel, blknum),
{
    Key {
        field1: 0,
        field2: rel.spcnode,
        field3: rel.dbnode,
        field4: rel.relnode,
        field5: rel.forknum,
        field6: blknum,
    }
}

// --- Laws --------------------------------------------------------------------

/// The last digit of a number, and what stands before it.
proof fn lemma_last_digit(base: int, rest: int, digit: int)
    requires
        0 <= digit < base,
    ensures
        (rest * base + digit) / base == rest,
        (rest * base + digit) % base == digit,
{
    vstd::arithmetic::div_mod::lemma_fundamental_div_mod_converse(
        rest * base + digit,
        base,
        rest,
        digit,
    );
}

/// Every key has its own place in the order.
pub proof fn law_rank_names_the_key(key: Key)
    ensures
        0 <= key.rank() < key_count(),
        key_of_rank(key.rank()) == key,
{
    let r2 = key.field1 * 0x1_0000_0000 + key.field2;
    let r3 = r2 * 0x1_0000_0000 + key.field3;
    let r4 = r3 * 0x1_0000_0000 + key.field4;
    let r5 = r4 * 0x100 + key.field5;
    lemma_last_digit(0x1_0000_0000, r5, key.field6 as int);
    lemma_last_digit(0x100, r4, key.field5 as int);
    lemma_last_digit(0x1_0000_0000, r3, key.field4 as int);
    lemma_last_digit(0x1_0000_0000, r2, key.field3 as int);
    lemma_last_digit(0x1_0000_0000, key.field1 as int, key.field2 as int);
    assert(0 <= r2 < 0x100_0000_0000);
    assert(0 <= r3 < 0x100_0000_0000_0000_0000);
    assert(0 <= r4 < 0x100_0000_0000_0000_0000_0000_0000);
    assert(0 <= r5 < 0x1_0000_0000_0000_0000_0000_0000_0000);
}

/// Every place in the order is taken by a key.
pub proof fn law_every_rank_is_taken(rank: int)
    requires
        0 <= rank < key_count(),
    ensures
        key_of_rank(rank).rank() == rank,
{
    let r5 = rank / 0x1_0000_0000;
    let r4 = r5 / 0x100;
    let r3 = r4 / 0x1_0000_0000;
    let r2 = r3 / 0x1_0000_0000;
    let r1 = r2 / 0x1_0000_0000;
    assert(0 <= r5 < 0x1_0000_0000_0000_0000_0000_0000_0000);
    assert(0 <= r4 < 0x100_0000_0000_0000_0000_0000_0000);
    assert(0 <= r3 < 0x100_0000_0000_0000_0000);
    assert(0 <= r2 < 0x100_0000_0000);
    assert(0 <= r1 < 0x100);
    assert(r1 * 0x1_0000_0000 + r2 % 0x1_0000_0000 == r2);
    assert(r2 * 0x1_0000_0000 + r3 % 0x1_0000_0000 == r3);
    assert(r3 * 0x1_0000_0000 + r4 % 0x1_0000_0000 == r4);
    assert(r4 * 0x100 + r5 % 0x100 == r5);
    assert(r5 * 0x1_0000_0000 + rank % 0x1_0000_0000 == rank);
}

/// Two digits are determined by the number that they spell.
proof fn lemma_digits(base: int, a: int, b: int, c: int, d: int)
    requires
        0 <= a < base,
        0 <= c < base,
        a + base * b == c + base * d,
    ensures
        a == c,
        b == d,
{
    assert(base * (b - d) == c - a) by (nonlinear_arith)
        requires
            a + base * b == c + base * d,
    ;
    assert(b == d) by (nonlinear_arith)
        requires
            0 <= a < base,
            0 <= c < base,
            base * (b - d) == c - a,
    ;
}

/// The compact form of a block key, digit by digit.
spec fn compact_digits(rel: RelTag, blknum: u32) -> int {
    blknum + 0x1_0000_0000 * (rel.forknum + 0x100 * (rel.relnode + 0x1_0000_0000 * (rel.dbnode
        + 0x1_0000_0000 * (rel.spcnode as int))))
}

proof fn lemma_compact_digits(rel: RelTag, blknum: u32)
    requires
        rel.spcnode <= 0xFFFF,
    ensures
        block_key(rel, blknum).compact().0 == compact_digits(rel, blknum),
{
}

/// Compact keys tell blocks apart, as long as the tablespace numbers fit the
/// 16 bits that are kept of them.
pub proof fn law_compact_names_the_block(a: RelTag, blk_a: u32, b: RelTag, blk_b: u32)
    requires
        block_key(a, blk_a).compact() == block_key(b, blk_b).compact(),
        a.spcnode <= 0xFFFF,
        b.spcnode <= 0xFFFF,
    ensures
        a == b,
        blk_a == blk_b,
{
    lemma_compact_digits(a, blk_a);
    lemma_compact_digits(b, blk_b);
    let (a3, b3) = (
        a.dbnode + 0x1_0000_0000 * (a.spcnode as int),
        b.dbnode + 0x1_0000_0000 * (b.spcnode as int),
    );
    let (a4, b4) = (a.relnode + 0x1_0000_0000 * a3, b.relnode + 0x1_0000_0000 * b3);
    let (a5, b5) = (a.forknum + 0x100 * a4, b.forknum + 0x100 * b4);
    lemma_digits(0x1_0000_0000, blk_a as int, a5, blk_b as int, b5);
    lemma_digits(0x100, a.forknum as int, a4, b.forknum as int, b4);
    lemma_digits(0x1_0000_0000, a.relnode as int, a3, b.relnode as int, b3);
    lemma_digits(
        0x1_0000_0000,
        a.dbnode as int,
        a.spcnode as int,
        b.dbnode as int,
        b.spcnode as int,
    );
}

/// Comparing two numbers is comparing what stands before their last digits, and
/// the last digits where that is equal.
proof fn lemma_digits_compare(base: int, a: int, x: int, b: int, y: int)
    requires
        0 <= x < base,
        0 <= y < base,
    ensures
        a * base + x < b * base + y <==> a < b || a == b && x < y,
        a * base + x == b * base + y <==> a == b && x == y,
{
    if a < b {
        assert(a * base + base <= b * base) by (nonlinear_arith)
            requires
                a + 1 <= b,
                base > 0,
        ;
    } else if b < a {
        assert(b * base + base <= a * base) by (nonlinear_arith)
            requires
                b + 1 <= a,
                base > 0,
        ;
    }
}

/// Keys are ordered by their first field, then by the second, and so on. As
/// every rank up to the last is taken by one key, this fixes the rank of each.
pub proof fn law_rank_orders_by_fields(a: Key, b: Key)
    ensures
        a.rank() < b.rank() <==> {
            ||| a.field1 < b.field1
            ||| a.field1 == b.field1 && a.field2 < b.field2
            ||| a.field1 == b.field1 && a.field2 == b.field2 && a.field3 < b.field3
            ||| a.field1 == b.field1 && a.field2 == b.field2 && a.field3 == b.field3 && a.field4
                < b.field4
            ||| a.field1 == b.field1 && a.field2 == b.field2 && a.field3 == b.field3 && a.field4
                == b.field4 && a.field5 < b.field5
            ||| a.field1 == b.field1 && a.field2 == b.field2 && a.field3 == b.field3 && a.field4
                == b.field4 && a.field5 == b.field5 && a.field6 < b.field6
        },
{
    let a2 = a.field1 * 0x1_0000_0000 + a.field2;
    let a3 = a2 * 0x1_0000_0000 + a.field3;
    let a4 = a3 * 0x1_0000_0000 + a.field4;
    let a5 = a4 * 0x100 + a.field5;
    let b2 = b.field1 * 0x1_0000_0000 + b.field2;
    let b3 = b2 * 0x1_0000_0000 + b.field3;
    let b4 = b3 * 0x1_0000_0000 + b.field4;
    let b5 = b4 * 0x100 + b.field5;
    lemma_digits_compare(0x1_0000_0000, a5, a.field6 as int, b5, b.field6 as int);
    lemma_digits_compare(0x100, a4, a.field5 as int, b4, b.field5 as int);
    lemma_digits_compare(0x1_0000_0000, a3, a.field4 as int, b3, b.field4 as int);
    lemma_digits_compare(0x1_0000_0000, a2, a.field3 as int, b2, b.field3 as int);
    lemma_digits_compare(
        0x1_0000_0000,
        a.field1 as int,
        a.field2 as int,
        b.field1 as int,
        b.field2 as int,
    );
}

/// Ranks start with the key that is 0 throughout and end with the key that is
/// all ones; there are as many as 144 bits give.
pub proof fn law_ranks_have_ends(key: Key)
    ensures
        0 <= key.rank() < key_count(),
        key_count() == 0x100 * 0x1_0000_0000 * 0x1_0000_0000 * 0x1_0000_0000 * 0x100
            * 0x1_0000_0000,
        key.rank() == 0 <==> key.field1 == 0 && key.field2 == 0 && key.field3 == 0 && key.field4
            == 0 && key.field5 == 0 && key.field6 == 0,
{
    law_rank_names_the_key(key);
    let zero = Key { field1: 0, field2: 0, field3: 0, field4: 0, field5: 0, field6: 0 };
    law_rank_orders_by_fields(zero, key);
    assert(zero.rank() == 0);
}

/// Going on by `x` keys changes the block number alone, as long as it does not
/// overflow. Where it does, it starts over, and the field before it grows.
pub proof fn law_adding_moves_the_block(key: Key, x: u32)
    ensures
        key.field6 + x < 0x1_0000_0000 ==> key_of_rank(key.rank() + x) == (Key {
            field6: (key.field6 + x) as u32,
            ..key
        }),
        key.field6 + x >= 0x1_0000_0000 && key.field5 < 0xFF ==> key_of_rank(key.rank() + x) == (
        Key {
            field6: (key.field6 + x - 0x1_0000_0000) as u32,
            field5: (key.field5 + 1) as u8,
            ..key
        }),
{
    if key.field6 + x < 0x1_0000_0000 {
        let moved = Key { field6: (key.field6 + x) as u32, ..key };
        assert(moved.rank() == key.rank() + x);
        law_rank_names_the_key(moved);
    } else if key.field5 < 0xFF {
        let moved = Key {
            field6: (key.field6 + x - 0x1_0000_0000) as u32,
            field5: (key.field5 + 1) as u8,
            ..key
        };
        assert(moved.rank() == key.rank() + x);
        law_rank_names_the_key(moved);
    }
}

/// The digits of a compact key, from the lowest on, are the fields from the last
/// to the first: 32, 8, 32 and 32 bits whole, then the low 16 bits of the second
/// field and the low 7 bits of the first.
pub proof fn law_compact_digits(key: Key)
    ensures
        ({
            let c0 = key.compact().0 as int;
            let c1 = c0 / 0x1_0000_0000;
            let c2 = c1 / 0x100;
            let c3 = c2 / 0x1_0000_0000;
            let c4 = c3 / 0x1_0000_0000;
            &&& c0 % 0x1_0000_0000 == key.field6
            &&& c1 % 0x100 == key.field5
            &&& c2 % 0x1_0000_0000 == key.field4
            &&& c3 % 0x1_0000_0000 == key.field3
            &&& c4 % 0x1_0000 == key.field2 % 0x1_0000
            &&& c4 / 0x1_0000 == key.field1 % 0x80
        }),
{
    let f1 = (key.field1 % 0x80) as int;
    let f2 = (key.field2 % 0x1_0000) as int;
    let c4 = f1 * 0x1_0000 + f2;
    let c3 = c4 * 0x1_0000_0000 + key.field3;
    let c2 = c3 * 0x1_0000_0000 + key.field4;
    let c1 = c2 * 0x100 + key.field5;
    let c0 = c1 * 0x1_0000_0000 + key.field6;
    lemma_compact_sum(key);
    assert(key.compact().0 == c0);
    lemma_last_digit(0x1_0000_0000, c1, key.field6 as int);
    lemma_last_digit(0x100, c2, key.field5 as int);
    lemma_last_digit(0x1_0000_0000, c3, key.field4 as int);
    lemma_last_digit(0x1_0000_0000, c4, key.field3 as int);
    lemma_last_digit(0x1_0000, f1, f2);
}

/// The compact form, digit by digit.
proof fn lemma_compact_sum(key: Key)
    ensures
        key.compact().0 == ((((((key.field1 % 0x80) * 0x1_0000 + key.field2 % 0x1_0000)
            * 0x1_0000_0000 + key.field3) * 0x1_0000_0000 + key.field4) * 0x100 + key.field5)
            * 0x1_0000_0000 + key.field6),
{
}

/// A key can be stored exactly where its second field has no more than 16 bits
/// or is one of two marks.
pub proof fn law_storable_keys(key: Key)
    ensures
        key.representable() <==> key.field2 < 0x1_0000 || key.field2 == 0xFFFF_FFFF || key.field2
            == 0x2222_2222,
{
}

/// The key of a block has the tablespace, database, relation, fork and block
/// number in this order, behind a 0.
pub proof fn law_block_key_fields(rel: RelTag, blknum: u32)
    ensures
        block_key(rel, blknum).field1 == 0,
        block_key(rel, blknum).field2 == rel.spcnode,
        block_key(rel, blknum).field3 == rel.dbnode,
        block_key(rel, blknum).field4 == rel.relnode,
        block_key(rel, blknum).field5 == rel.forknum,
        block_key(rel, blknum).field6 == blknum,
{
}

} // verus!
