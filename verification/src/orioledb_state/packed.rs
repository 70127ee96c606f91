//! The packed form of the cold-start summary.
//!
//! All numbers are little-endian:
//!
//! ```text
//! offset  size  field
//! -- fixed prefix (48 bytes), the whole of version 2 --
//! 0       4     magic
//! 4       4     version
//! 8       8     next_oxid
//! 16      4     last_pg_xid_seen
//! 20      4     reserved (0)
//! 24      8     last_ingested_lsn_raw
//! 32      8     ingested_count
//! 40      8     next_csn
//! -- counts header (16 bytes), since version 3 --
//! 48      4     tree_count
//! 52      4     pending_split_count
//! 56      4     pending_merge_count
//! 60      4     reserved (0)
//! -- sections, since version 3 --
//! 64            tree_count slots of 64 bytes
//!               pending_split_count slots of 32 bytes
//!               pending_merge_count slots of 24 bytes
//! ```
use vstd::prelude::*;
use crate::orioledb_state::summary::OrioleDBColdStartSummary;
use crate::orioledb_state::summary::PendingMerge;
use crate::orioledb_state::summary::PendingSplit;
use crate::orioledb_state::summary::PerTreeCounters;
use crate::orioledb_state::summary::SummaryState;
use crate::wire;

verus! {

/// First four bytes of a packed summary: "OROS".
pub const ORIOLEDB_STATE_MAGIC: u32 = 0x534F524F;

/// Version that `encode_packed` writes.
pub const ORIOLEDB_STATE_VERSION: u32 = 3;

/// Size of the fixed prefix, which is all that version 2 has.
pub const ORIOLEDB_STATE_V2_FIXED_SIZE: usize = 48;

/// Size of the fixed prefix and the counts header of version 3.
pub const ORIOLEDB_STATE_V3_HEADER_SIZE: usize = 64;

/// Size of one `PerTreeCounters` slot.
pub const PER_TREE_COUNTERS_SIZE: usize = 64;

/// Size of one `PendingSplit` slot.
pub const PENDING_SPLIT_SIZE: usize = 32;

/// Size of one `PendingMerge` slot.
pub const PENDING_MERGE_SIZE: usize = 24;

/// Largest number of slots that a section may declare.
pub const ORIOLEDB_STATE_V3_MAX_ELEMENTS: u32 = 0x10_0000;

/// Old name of `ORIOLEDB_STATE_V2_FIXED_SIZE`; version 3 has no fixed size.
pub const ORIOLEDB_STATE_ENCODED_SIZE: usize = 48;

#[derive(Clone, Copy, Debug, PartialEq, Eq)]
pub enum DecodeError {
    /// Fewer bytes than the version and the declared counts ask for.
    TooShort,
    /// The bytes do not start with the magic number.
    BadMagic(u32),
    /// A version that is not known here.
    UnsupportedVersion(u32),
    /// A section declares more slots than `ORIOLEDB_STATE_V3_MAX_ELEMENTS`.
    TooManyElements(u32),
}

// --- Model -------------------------------------------------------------------

/// The slot at `at` holds `t`.
pub open spec fn tree_packed_at(b: Seq<u8>, at: int, t: PerTreeCounters) -> bool {
    &&& wire::le_u64_at(b, at) == t.tree_id
    &&& wire::le_u64_at(b, at + 8) == t.ctid
    &&& wire::le_u64_at(b, at + 16) == t.bridge_ctid
    &&& wire::le_u64_at(b, at + 24) == t.num_free_blocks
    &&& wire::le_u64_at(b, at + 32) == t.leaf_pages_num
    &&& wire::le_u64_at(b, at + 40) == t.datafile_length[0]
    &&& wire::le_u64_at(b, at + 48) == t.datafile_length[1]
    &&& wire::le_u64_at(b, at + 56) == t.undo_location
}

/// The slot at `at` holds `p`.
pub open spec fn split_packed_at(b: Seq<u8>, at: int, p: PendingSplit) -> bool {
    &&& wire::le_u64_at(b, at) == p.tree_id
    &&& wire::le_u32_at(b, at + 8) == p.left_blkno
    &&& wire::le_u32_at(b, at + 12) == p.right_blkno
    &&& wire::le_u64_at(b, at + 16) == p.child_hikey_lsn
    &&& wire::le_u32_at(b, at + 24) == p.child_hikey_offset
    &&& wire::le_u32_at(b, at + 28) == p._reserved
}

/// The slot at `at` holds `p`.
pub open spec fn merge_packed_at(b: Seq<u8>, at: int, p: PendingMerge) -> bool {
    &&& wire::le_u64_at(b, at) == p.tree_id
    &&& wire::le_u32_at(b, at + 8) == p.left_blkno
    &&& wire::le_u32_at(b, at + 12) == p.parent_blkno
    &&& wire::le_u64_at(b, at + 16) == p.merge_lsn
}

/// Offset of tree slot `i`.
pub open spec fn tree_offset(i: int) -> int {
    64 + 64 * i
}

/// Offset of split slot `i` behind `trees` tree slots.
pub open spec fn split_offset(trees: int, i: int) -> int {
    64 + 64 * trees + 32 * i
}

/// Offset of merge slot `i` behind `trees` tree slots and `splits` split slots.
pub open spec fn merge_offset(trees: int, splits: int, i: int) -> int {
    64 + 64 * trees + 32 * splits + 24 * i
}

/// Size of a version 3 summary with so many slots.
pub open spec fn packed_size(trees: int, splits: int, merges: int) -> int {
    64 + 64 * trees + 32 * splits + 24 * merges
}

/// The fixed prefix holds the scalars of `s`.
pub open spec fn scalars_packed(b: Seq<u8>, s: SummaryState) -> bool {
    &&& wire::le_u64_at(b, 8) == s.next_oxid
    &&& wire::le_u32_at(b, 16) == s.last_pg_xid_seen
    &&& wire::le_u64_at(b, 24) == s.last_ingested_lsn_raw
    &&& wire::le_u64_at(b, 32) == s.ingested_count
    &&& wire::le_u64_at(b, 40) == s.next_csn
}

/// The sections hold the trees, splits and merges of `s`.
pub open spec fn sections_packed(b: Seq<u8>, s: SummaryState) -> bool {
    let (trees, splits) = (s.per_tree.len() as int, s.pending_splits.len() as int);
    &&& forall|i: int|
        0 <= i < s.per_tree.len() ==> tree_packed_at(b, tree_offset(i), #[trigger] s.per_tree[i])
    &&& forall|i: int|
        0 <= i < s.pending_splits.len() ==> split_packed_at(
            b,
            split_offset(trees, i),
            #[trigger] s.pending_splits[i],
        )
    &&& forall|i: int|
        0 <= i < s.pending_merges.len() ==> merge_packed_at(
            b,
            merge_offset(trees, splits, i),
            #[trigger] s.pending_merges[i],
        )
}

/// The first 64 bytes of a version 3 summary. A count is written in 32 bits.
pub open spec fn header_packed(b: Seq<u8>, s: SummaryState) -> bool {
    &&& wire::le_u32_at(b, 0) == ORIOLEDB_STATE_MAGIC
    &&& wire::le_u32_at(b, 4) == ORIOLEDB_STATE_VERSION
    &&& wire::le_u32_at(b, 20) == 0
    &&& scalars_packed(b, s)
    &&& wire::le_u32_at(b, 48) == s.per_tree.len() % 0x1_0000_0000
    &&& wire::le_u32_at(b, 52) == s.pending_splits.len() % 0x1_0000_0000
    &&& wire::le_u32_at(b, 56) == s.pending_merges.len() % 0x1_0000_0000
    &&& wire::le_u32_at(b, 60) == 0
}

/// Size of the packed form of `s`.
pub open spec fn packed_len(s: SummaryState) -> int {
    packed_size(
        s.per_tree.len() as int,
        s.pending_splits.len() as int,
        s.pending_merges.len() as int,
    )
}

/// `b` is the packed form of `s`.
pub open spec fn is_packed_form(b: Seq<u8>, s: SummaryState) -> bool {
    &&& b.len() == packed_len(s)
    &&& header_packed(b, s)
    &&& sections_packed(b, s)
}

/// The first of the three counts that is over the limit.
pub open spec fn excessive_count(b: Seq<u8>) -> Option<u32> {
    if wire::le_u32_at(b, 48) > ORIOLEDB_STATE_V3_MAX_ELEMENTS {
        Some(wire::le_u32_at(b, 48) as u32)
    } else if wire::le_u32_at(b, 52) > ORIOLEDB_STATE_V3_MAX_ELEMENTS {
        Some(wire::le_u32_at(b, 52) as u32)
    } else if wire::le_u32_at(b, 56) > ORIOLEDB_STATE_V3_MAX_ELEMENTS {
        Some(wire::le_u32_at(b, 56) as u32)
    } else {
        None
    }
}

/// Why the bytes are no version 3 summary, given that their prefix says so.
pub open spec fn v3_error(b: Seq<u8>) -> Option<DecodeError> {
    if b.len() < ORIOLEDB_STATE_V3_HEADER_SIZE {
        Some(DecodeError::TooShort)
    } else if excessive_count(b) is Some {
        Some(DecodeError::TooManyElements(excessive_count(b)->0))
    } else if b.len() < packed_size(
        wire::le_u32_at(b, 48),
        wire::le_u32_at(b, 52),
        wire::le_u32_at(b, 56),
    ) {
        Some(DecodeError::TooShort)
    } else {
        None
    }
}

/// Why the bytes are no packed summary; `None` where they are one.
pub open spec fn decode_error(b: Seq<u8>) -> Option<DecodeError> {
    if b.len() < ORIOLEDB_STATE_V2_FIXED_SIZE {
        Some(DecodeError::TooShort)
    } else if wire::le_u32_at(b, 0) != ORIOLEDB_STATE_MAGIC {
        Some(DecodeError::BadMagic(wire::le_u32_at(b, 0) as u32))
    } else if wire::le_u32_at(b, 4) == 2 {
        None
    } else if wire::le_u32_at(b, 4) == 3 {
        v3_error(b)
    } else {
        Some(DecodeError::UnsupportedVersion(wire::le_u32_at(b, 4) as u32))
    }
}

/// A version 3 summary reads as `s`.
pub open spec fn reads_as_v3(b: Seq<u8>, s: SummaryState) -> bool {
    &&& scalars_packed(b, s)
    &&& s.per_tree.len() == wire::le_u32_at(b, 48)
    &&& s.pending_splits.len() == wire::le_u32_at(b, 52)
    &&& s.pending_merges.len() == wire::le_u32_at(b, 56)
    &&& sections_packed(b, s)
}

/// A packed summary reads as `s`: version 2 has no sections.
pub open spec fn reads_as(b: Seq<u8>, s: SummaryState) -> bool {
    if wire::le_u32_at(b, 4) == 2 {
        &&& scalars_packed(b, s)
        &&& s.per_tree.len() == 0
        &&& s.pending_splits.len() == 0
        &&& s.pending_merges.len() == 0
    } else {
        reads_as_v3(b, s)
    }
}

// --- Encoding ----------------------------------------------------------------

/// A slot stays as it is while bytes are appended behind it.
proof fn lemma_slot_kept(b: Seq<u8>, prefix: Seq<u8>, at: int)
    requires
        wire::extends(b, prefix),
        0 <= at,
    ensures
        forall|t: PerTreeCounters|
            at + 64 <= prefix.len() ==> (#[trigger] tree_packed_at(b, at, t) == tree_packed_at(
                prefix,
                at,
                t,
            )),
        forall|p: PendingSplit|
            at + 32 <= prefix.len() ==> (#[trigger] split_packed_at(b, at, p) == split_packed_at(
                prefix,
                at,
                p,
            )),
        forall|p: PendingMerge|
            at + 24 <= prefix.len() ==> (#[trigger] merge_packed_at(b, at, p) == merge_packed_at(
                prefix,
                at,
                p,
            )),
{
}

/// The header stays as it is while bytes are appended behind it.
proof fn lemma_header_kept(b: Seq<u8>, prefix: Seq<u8>, s: SummaryState)
    requires
        wire::extends(b, prefix),
        prefix.len() >= 64,
        header_packed(prefix, s),
    ensures
        header_packed(b, s),
{
}

fn push_tree(buf: &mut Vec<u8>, t: &PerTreeCounters)
    ensures
        final(buf)@.len() == old(buf)@.len() + 64,
        wire::extends(final(buf)@, old(buf)@),
        tree_packed_at(final(buf)@, old(buf)@.len() as int, *t),
{
    wire::push_le_u64(buf, t.tree_id);
    wire::push_le_u64(buf, t.ctid);
    wire::push_le_u64(buf, t.bridge_ctid);
    wire::push_le_u64(buf, t.num_free_blocks);
    wire::push_le_u64(buf, t.leaf_pages_num);
    wire::push_le_u64(buf, t.datafile_length[0]);
    wire::push_le_u64(buf, t.datafile_length[1]);
    wire::push_le_u64(buf, t.undo_location);
}

fn push_split(buf: &mut Vec<u8>, p: &PendingSplit)
    ensures
        final(buf)@.len() == old(buf)@.len() + 32,
        wire::extends(final(buf)@, old(buf)@),
        split_packed_at(final(buf)@, old(buf)@.len() as int, *p),
{
    wire::push_le_u64(buf, p.tree_id);
    wire::push_le_u32(buf, p.left_blkno);
    wire::push_le_u32(buf, p.right_blkno);
    wire::push_le_u64(buf, p.child_hikey_lsn);
    wire::push_le_u32(buf, p.child_hikey_offset);
    wire::push_le_u32(buf, p._reserved);
}

fn push_merge(buf: &mut Vec<u8>, p: &PendingMerge)
    ensures
        final(buf)@.len() == old(buf)@.len() + 24,
        wire::extends(final(buf)@, old(buf)@),
        merge_packed_at(final(buf)@, old(buf)@.len() as int, *p),
{
    wire::push_le_u64(buf, p.tree_id);
    wire::push_le_u32(buf, p.left_blkno);
    wire::push_le_u32(buf, p.parent_blkno);
    wire::push_le_u64(buf, p.merge_lsn);
}

fn push_header(buf: &mut Vec<u8>, summary: &OrioleDBColdStartSummary)
    requires
        old(buf)@.len() == 0,
    ensures
        final(buf)@.len() == 64,
        header_packed(final(buf)@, summary@),
{
    let tree_count: usize = summary.per_tree.len();
    let split_count: usize = summary.pending_splits.len();
    let merge_count: usize = summary.pending_merges.len();
    let tree_count_low: u32 = (tree_count as u64 % 0x1_0000_0000) as u32;
    let split_count_low: u32 = (split_count as u64 % 0x1_0000_0000) as u32;
    let merge_count_low: u32 = (merge_count as u64 % 0x1_0000_0000) as u32;
    wire::push_le_u32(buf, ORIOLEDB_STATE_MAGIC);
    wire::push_le_u32(buf, ORIOLEDB_STATE_VERSION);
    wire::push_le_u64(buf, summary.next_oxid);
    wire::push_le_u32(buf, summary.last_pg_xid_seen);
    wire::push_le_u32(buf, 0);
    wire::push_le_u64(buf, summary.last_ingested_lsn_raw);
    wire::push_le_u64(buf, summary.ingested_count);
    wire::push_le_u64(buf, summary.next_csn);
    wire::push_le_u32(buf, tree_count_low);
    wire::push_le_u32(buf, split_count_low);
    wire::push_le_u32(buf, merge_count_low);
    wire::push_le_u32(buf, 0);
}

impl OrioleDBColdStartSummary {
    /// Encodes the summary as version 3. Its first 48 bytes are what a reader
    /// of version 2 knows.
    pub fn encode_packed(&self) -> (buf: Vec<u8>)
        requires
            packed_len(self@) <= isize::MAX,
        ensures
            is_packed_form(buf@, self@),
    {
        let mut buf: Vec<u8> = Vec::new();
        push_header(&mut buf, self);
        let mut i: usize = 0;
        while i < self.per_tree.len()
            invariant
                i <= self.per_tree@.len(),
                buf@.len() == tree_offset(i as int),
                header_packed(buf@, self@),
                forall|j: int|
                    0 <= j < i ==> tree_packed_at(
                        buf@,
                        tree_offset(j),
                        #[trigger] self.per_tree@[j],
                    ),
            decreases self.per_tree@.len() - i,
        {
            let ghost before = buf@;
            push_tree(&mut buf, &self.per_tree[i]);
            proof {
                lemma_header_kept(buf@, before, self@);
                assert forall|j: int| 0 <= j < i implies tree_packed_at(
                    buf@,
                    tree_offset(j),
                    #[trigger] self.per_tree@[j],
                ) by {
                    lemma_slot_kept(buf@, before, tree_offset(j));
                }
            }
            i = i + 1;
        }
        let ghost trees = self.per_tree@.len() as int;
        let ghost with_trees = buf@;
        i = 0;
        while i < self.pending_splits.len()
            invariant
                i <= self.pending_splits@.len(),
                trees == self.per_tree@.len(),
                with_trees.len() == tree_offset(trees),
                buf@.len() == split_offset(trees, i as int),
                header_packed(buf@, self@),
                wire::extends(buf@, with_trees),
                forall|j: int|
                    0 <= j < i ==> split_packed_at(
                        buf@,
                        split_offset(trees, j),
                        #[trigger] self.pending_splits@[j],
                    ),
            decreases self.pending_splits@.len() - i,
        {
            let ghost before = buf@;
            push_split(&mut buf, &self.pending_splits[i]);
            proof {
                lemma_header_kept(buf@, before, self@);
                assert forall|j: int| 0 <= j < i implies split_packed_at(
                    buf@,
                    split_offset(trees, j),
                    #[trigger] self.pending_splits@[j],
                ) by {
                    lemma_slot_kept(buf@, before, split_offset(trees, j));
                }
            }
            i = i + 1;
        }
        let ghost splits = self.pending_splits@.len() as int;
        let ghost with_splits = buf@;
        i = 0;
        while i < self.pending_merges.len()
            invariant
                i <= self.pending_merges@.len(),
                trees == self.per_tree@.len(),
                splits == self.pending_splits@.len(),
                with_splits.len() == split_offset(trees, splits),
                buf@.len() == merge_offset(trees, splits, i as int),
                header_packed(buf@, self@),
                wire::extends(buf@, with_splits),
                forall|j: int|
                    0 <= j < i ==> merge_packed_at(
                        buf@,
                        merge_offset(trees, splits, j),
                        #[trigger] self.pending_merges@[j],
                    ),
            decreases self.pending_merges@.len() - i,
        {
            let ghost before = buf@;
            push_merge(&mut buf, &self.pending_merges[i]);
            proof {
                lemma_header_kept(buf@, before, self@);
                assert forall|j: int| 0 <= j < i implies merge_packed_at(
                    buf@,
                    merge_offset(trees, splits, j),
                    #[trigger] self.pending_merges@[j],
                ) by {
                    lemma_slot_kept(buf@, before, merge_offset(trees, splits, j));
                }
            }
            i = i + 1;
        }
        proof {
            assert forall|j: int| 0 <= j < trees implies tree_packed_at(
                buf@,
                tree_offset(j),
                #[trigger] self.per_tree@[j],
            ) by {
                lemma_slot_kept(with_splits, with_trees, tree_offset(j));
                lemma_slot_kept(buf@, with_splits, tree_offset(j));
            }
            assert forall|j: int| 0 <= j < splits implies split_packed_at(
                buf@,
                split_offset(trees, j),
                #[trigger] self.pending_splits@[j],
            ) by {
                lemma_slot_kept(buf@, with_splits, split_offset(trees, j));
            }
        }
        buf
    }
}

// --- Decoding ----------------------------------------------------------------

fn read_tree(bytes: &[u8], at: usize) -> (t: PerTreeCounters)
    requires
        at + 64 <= bytes@.len(),
    ensures
        tree_packed_at(bytes@, at as int, t),
{
    assert(bytes@.len() == bytes.len());
    PerTreeCounters {
        tree_id: wire::read_le_u64(bytes, at),
        ctid: wire::read_le_u64(bytes, at + 8),
        bridge_ctid: wire::read_le_u64(bytes, at + 16),
        num_free_blocks: wire::read_le_u64(bytes, at + 24),
        leaf_pages_num: wire::read_le_u64(bytes, at + 32),
        datafile_length: [
            wire::read_le_u64(bytes, at + 40),
            wire::read_le_u64(bytes, at + 48),
        ],
        undo_location: wire::read_le_u64(bytes, at + 56),
    }
}

fn read_split(bytes: &[u8], at: usize) -> (p: PendingSplit)
    requires
        at + 32 <= bytes@.len(),
    ensures
        split_packed_at(bytes@, at as int, p),
{
    assert(bytes@.len() == bytes.len());
    PendingSplit {
        tree_id: wire::read_le_u64(bytes, at),
        left_blkno: wire::read_le_u32(bytes, at + 8),
        right_blkno: wire::read_le_u32(bytes, at + 12),
        child_hikey_lsn: wire::read_le_u64(bytes, at + 16),
        child_hikey_offset: wire::read_le_u32(bytes, at + 24),
        _reserved: wire::read_le_u32(bytes, at + 28),
    }
}

fn read_merge(bytes: &[u8], at: usize) -> (p: PendingMerge)
    requires
        at + 24 <= bytes@.len(),
    ensures
        merge_packed_at(bytes@, at as int, p),
{
    assert(bytes@.len() == bytes.len());
    PendingMerge {
        tree_id: wire::read_le_u64(bytes, at),
        left_blkno: wire::read_le_u32(bytes, at + 8),
        parent_blkno: wire::read_le_u32(bytes, at + 12),
        merge_lsn: wire::read_le_u64(bytes, at + 16),
    }
}

impl OrioleDBColdStartSummary {
    /// Decodes a packed summary of version 2 or 3. Bytes behind the declared
    /// sections are ignored.
    pub fn decode_packed(bytes: &[u8]) -> (r: Result<Self, DecodeError>)
        ensures
            match r {
                Ok(summary) => decode_error(bytes@) is None && reads_as(bytes@, summary@),
                Err(e) => decode_error(bytes@) == Some(e),
            },
    {
        if bytes.len() < ORIOLEDB_STATE_V2_FIXED_SIZE {
            return Err(DecodeError::TooShort);
        }
        let magic: u32 = wire::read_le_u32(bytes, 0);
        if magic != ORIOLEDB_STATE_MAGIC {
            return Err(DecodeError::BadMagic(magic));
        }
        let version: u32 = wire::read_le_u32(bytes, 4);
        match version {
            2 => Ok(
                OrioleDBColdStartSummary {
                    next_oxid: wire::read_le_u64(bytes, 8),
                    last_pg_xid_seen: wire::read_le_u32(bytes, 16),
                    last_ingested_lsn_raw: wire::read_le_u64(bytes, 24),
                    ingested_count: wire::read_le_u64(bytes, 32),
                    next_csn: wire::read_le_u64(bytes, 40),
                    per_tree: Vec::new(),
                    pending_splits: Vec::new(),
                    pending_merges: Vec::new(),
                },
            ),
            3 => Self::decode_v3(bytes),
            _ => Err(DecodeError::UnsupportedVersion(version)),
        }
    }

    fn decode_v3(bytes: &[u8]) -> (r: Result<Self, DecodeError>)
        ensures
            match r {
                Ok(summary) => v3_error(bytes@) is None && reads_as_v3(bytes@, summary@),
                Err(e) => v3_error(bytes@) == Some(e),
            },
    {
        if bytes.len() < ORIOLEDB_STATE_V3_HEADER_SIZE {
            return Err(DecodeError::TooShort);
        }
        let tree_count: u32 = wire::read_le_u32(bytes, 48);
        let split_count: u32 = wire::read_le_u32(bytes, 52);
        let merge_count: u32 = wire::read_le_u32(bytes, 56);
        if tree_count > ORIOLEDB_STATE_V3_MAX_ELEMENTS {
            return Err(DecodeError::TooManyElements(tree_count));
        }
        if split_count > ORIOLEDB_STATE_V3_MAX_ELEMENTS {
            return Err(DecodeError::TooManyElements(split_count));
        }
        if merge_count > ORIOLEDB_STATE_V3_MAX_ELEMENTS {
            return Err(DecodeError::TooManyElements(merge_count));
        }
        let splits_at: usize = ORIOLEDB_STATE_V3_HEADER_SIZE + tree_count as usize
            * PER_TREE_COUNTERS_SIZE;
        let merges_at: usize = splits_at + split_count as usize * PENDING_SPLIT_SIZE;
        if bytes.len() < merges_at + merge_count as usize * PENDING_MERGE_SIZE {
            return Err(DecodeError::TooShort);
        }
        let mut per_tree: Vec<PerTreeCounters> = Vec::new();
        let mut i: u32 = 0;
        while i < tree_count
            invariant
                i <= tree_count,
                bytes@.len() >= tree_offset(tree_count as int),
                tree_count <= 0x10_0000,
                per_tree@.len() == i,
                forall|j: int|
                    0 <= j < i ==> tree_packed_at(
                        bytes@,
                        tree_offset(j),
                        #[trigger] per_tree@[j],
                    ),
            decreases tree_count - i,
        {
            let at: usize = ORIOLEDB_STATE_V3_HEADER_SIZE + i as usize * PER_TREE_COUNTERS_SIZE;
            per_tree.push(read_tree(bytes, at));
            i = i + 1;
        }
        let mut pending_splits: Vec<PendingSplit> = Vec::new();
        i = 0;
        while i < split_count
            invariant
                i <= split_count,
                splits_at == tree_offset(tree_count as int),
                tree_count <= 0x10_0000,
                split_count <= 0x10_0000,
                bytes@.len() >= split_offset(tree_count as int, split_count as int),
                pending_splits@.len() == i,
                forall|j: int|
                    0 <= j < i ==> split_packed_at(
                        bytes@,
                        split_offset(tree_count as int, j),
                        #[trigger] pending_splits@[j],
                    ),
            decreases split_count - i,
        {
            let at: usize = splits_at + i as usize * PENDING_SPLIT_SIZE;
            pending_splits.push(read_split(bytes, at));
            i = i + 1;
        }
        let mut pending_merges: Vec<PendingMerge> = Vec::new();
        i = 0;
        while i < merge_count
            invariant
                i <= merge_count,
                merges_at == split_offset(tree_count as int, split_count as int),
                tree_count <= 0x10_0000,
                split_count <= 0x10_0000,
                merge_count <= 0x10_0000,
                bytes@.len() >= packed_size(
                    tree_count as int,
                    split_count as int,
                    merge_count as int,
                ),
                pending_merges@.len() == i,
                forall|j: int|
                    0 <= j < i ==> merge_packed_at(
                        bytes@,
                        merge_offset(tree_count as int, split_count as int, j),
                        #[trigger] pending_merges@[j],
                    ),
            decreases merge_count - i,
        {
            let at: usize = merges_at + i as usize * PENDING_MERGE_SIZE;
            pending_merges.push(read_merge(bytes, at));
            i = i + 1;
        }
        Ok(
            OrioleDBColdStartSummary {
                next_oxid: wire::read_le_u64(bytes, 8),
                last_pg_xid_seen: wire::read_le_u32(bytes, 16),
                last_ingested_lsn_raw: wire::read_le_u64(bytes, 24),
                ingested_count: wire::read_le_u64(bytes, 32),
                next_csn: wire::read_le_u64(bytes, 40),
                per_tree,
                pending_splits,
                pending_merges,
            },
        )
    }
}

// --- Laws --------------------------------------------------------------------

/// Bytes read as at most one summary.
pub proof fn law_reading_is_unambiguous(b: Seq<u8>, s: SummaryState, t: SummaryState)
    requires
        reads_as(b, s),
        reads_as(b, t),
    ensures
        s == t,
{
    assert forall|i: int| 0 <= i < s.per_tree.len() implies s.per_tree[i] == t.per_tree[i] by {
        assert(tree_packed_at(b, tree_offset(i), s.per_tree[i]));
        assert(tree_packed_at(b, tree_offset(i), t.per_tree[i]));
        assert(s.per_tree[i].datafile_length =~= t.per_tree[i].datafile_length);
    }
    assert forall|i: int| 0 <= i < s.pending_splits.len() implies s.pending_splits[i]
        == t.pending_splits[i] by {
        let at = split_offset(s.per_tree.len() as int, i);
        assert(split_packed_at(b, at, s.pending_splits[i]));
        assert(split_packed_at(b, at, t.pending_splits[i]));
    }
    assert forall|i: int| 0 <= i < s.pending_merges.len() implies s.pending_merges[i]
        == t.pending_merges[i] by {
        let at = merge_offset(s.per_tree.len() as int, s.pending_splits.len() as int, i);
        assert(merge_packed_at(b, at, s.pending_merges[i]));
        assert(merge_packed_at(b, at, t.pending_merges[i]));
    }
    assert(s =~= t);
}

/// What was encoded is read back: the packed form of a summary decodes without
/// error, to that summary and to no other, as long as no section is longer than
/// a reader admits.
pub proof fn law_round_trip(b: Seq<u8>, s: SummaryState)
    requires
        is_packed_form(b, s),
        s.per_tree.len() <= ORIOLEDB_STATE_V3_MAX_ELEMENTS,
        s.pending_splits.len() <= ORIOLEDB_STATE_V3_MAX_ELEMENTS,
        s.pending_merges.len() <= ORIOLEDB_STATE_V3_MAX_ELEMENTS,
    ensures
        decode_error(b) is None,
        forall|t: SummaryState| #[trigger] reads_as(b, t) <==> t == s,
{
    lemma_count_fits(s.per_tree.len());
    lemma_count_fits(s.pending_splits.len());
    lemma_count_fits(s.pending_merges.len());
    assert(wire::le_u32_at(b, 4) == 3);
    assert(reads_as(b, s));
    assert(excessive_count(b) is None);
    assert forall|t: SummaryState| #[trigger] reads_as(b, t) implies t == s by {
        law_reading_is_unambiguous(b, s, t);
    }
}

/// A count that fits 32 bits is written as it is.
proof fn lemma_count_fits(n: nat)
    requires
        n <= u32::MAX,
    ensures
        n % 0x1_0000_0000 == n,
{
}

/// A summary with a section longer than a reader admits is refused on reading,
/// and the refusal names the first such section's length.
pub proof fn law_long_section_is_refused(b: Seq<u8>, s: SummaryState)
    requires
        is_packed_form(b, s),
        s.per_tree.len() <= u32::MAX,
        s.pending_splits.len() <= u32::MAX,
        s.pending_merges.len() <= u32::MAX,
        s.per_tree.len() > ORIOLEDB_STATE_V3_MAX_ELEMENTS || s.pending_splits.len()
            > ORIOLEDB_STATE_V3_MAX_ELEMENTS || s.pending_merges.len()
            > ORIOLEDB_STATE_V3_MAX_ELEMENTS,
    ensures
        decode_error(b) == Some(
            DecodeError::TooManyElements(
                if s.per_tree.len() > ORIOLEDB_STATE_V3_MAX_ELEMENTS {
                    s.per_tree.len() as u32
                } else if s.pending_splits.len() > ORIOLEDB_STATE_V3_MAX_ELEMENTS {
                    s.pending_splits.len() as u32
                } else {
                    s.pending_merges.len() as u32
                },
            ),
        ),
{
    lemma_count_fits(s.per_tree.len());
    lemma_count_fits(s.pending_splits.len());
    lemma_count_fits(s.pending_merges.len());
    assert(wire::le_u32_at(b, 4) == 3);
}

/// A reader of version 2 can read a version 3 summary: its first 48 bytes,
/// under version number 2, decode to the same scalars without sections.
pub proof fn law_prefix_is_version_2(b: Seq<u8>, s: SummaryState)
    requires
        is_packed_form(b, s),
    ensures
        ({
            let prefix = b.take(48).update(4, 2);
            &&& decode_error(prefix) is None
            &&& forall|t: SummaryState| #[trigger]
                reads_as(prefix, t) <==> t == (SummaryState {
                    per_tree: Seq::empty(),
                    pending_splits: Seq::empty(),
                    pending_merges: Seq::empty(),
                    ..s
                })
        }),
{
    let prefix = b.take(48).update(4, 2);
    let scalars = SummaryState {
        per_tree: Seq::empty(),
        pending_splits: Seq::empty(),
        pending_merges: Seq::empty(),
        ..s
    };
    assert(b[4] == 3 && b[5] == 0 && b[6] == 0 && b[7] == 0);
    assert(wire::le_u32_at(prefix, 4) == 2);
    assert(wire::le_u32_at(prefix, 0) == wire::le_u32_at(b, 0));
    assert(scalars_packed(prefix, s));
    assert(reads_as(prefix, scalars));
    assert forall|t: SummaryState| #[trigger] reads_as(prefix, t) implies t == scalars by {
        law_reading_is_unambiguous(prefix, t, scalars);
    }
}

/// `c` has the bytes of `b` between `from` and `n`, but for the reserved ones.
pub open spec fn agrees_on_fields(b: Seq<u8>, c: Seq<u8>, from: int, n: int) -> bool {
    &&& n <= b.len()
    &&& n <= c.len()
    &&& forall|i: int|
        from <= i < n && !(20 <= i < 24) && !(60 <= i < 64) ==> #[trigger] c[i] == b[i]
}

/// The size that a packed summary declares.
pub open spec fn declared_size(b: Seq<u8>) -> int {
    if wire::le_u32_at(b, 4) == 2 {
        ORIOLEDB_STATE_V2_FIXED_SIZE as int
    } else {
        packed_size(wire::le_u32_at(b, 48), wire::le_u32_at(b, 52), wire::le_u32_at(b, 56))
    }
}

/// Bytes that agree hold the same slots.
proof fn lemma_same_slot(b: Seq<u8>, c: Seq<u8>, n: int, at: int)
    requires
        agrees_on_fields(b, c, 8, n),
        64 <= at,
    ensures
        forall|t: PerTreeCounters|
            at + 64 <= n ==> (#[trigger] tree_packed_at(c, at, t) == tree_packed_at(b, at, t)),
        forall|p: PendingSplit|
            at + 32 <= n ==> (#[trigger] split_packed_at(c, at, p) == split_packed_at(b, at, p)),
        forall|p: PendingMerge|
            at + 24 <= n ==> (#[trigger] merge_packed_at(c, at, p) == merge_packed_at(b, at, p)),
{
}

/// A version 3 summary is read from its scalars, its counts and the sections
/// that they declare. Neither the reserved bytes nor those behind the sections
/// count.
pub proof fn law_v3_reads_fields_only(b: Seq<u8>, c: Seq<u8>, s: SummaryState)
    requires
        v3_error(b) is None,
        agrees_on_fields(
            b,
            c,
            8,
            packed_size(wire::le_u32_at(b, 48), wire::le_u32_at(b, 52), wire::le_u32_at(b, 56)),
        ),
    ensures
        v3_error(c) is None,
        reads_as_v3(b, s) <==> reads_as_v3(c, s),
{
    let (trees, splits, merges) = (
        wire::le_u32_at(b, 48),
        wire::le_u32_at(b, 52),
        wire::le_u32_at(b, 56),
    );
    let n = packed_size(trees, splits, merges);
    assert(wire::le_u32_at(c, 48) == trees);
    assert(wire::le_u32_at(c, 52) == splits);
    assert(wire::le_u32_at(c, 56) == merges);
    assert(scalars_packed(c, s) == scalars_packed(b, s));
    if s.per_tree.len() == trees && s.pending_splits.len() == splits && s.pending_merges.len()
        == merges {
        assert forall|i: int| 0 <= i < trees implies tree_packed_at(
            b,
            tree_offset(i),
            #[trigger] s.per_tree[i],
        ) == tree_packed_at(c, tree_offset(i), s.per_tree[i]) by {
            lemma_same_slot(b, c, n, tree_offset(i));
        }
        assert forall|i: int| 0 <= i < splits implies split_packed_at(
            b,
            split_offset(trees, i),
            #[trigger] s.pending_splits[i],
        ) == split_packed_at(c, split_offset(trees, i), s.pending_splits[i]) by {
            lemma_same_slot(b, c, n, split_offset(trees, i));
        }
        assert forall|i: int| 0 <= i < merges implies merge_packed_at(
            b,
            merge_offset(trees, splits, i),
            #[trigger] s.pending_merges[i],
        ) == merge_packed_at(c, merge_offset(trees, splits, i), s.pending_merges[i]) by {
            lemma_same_slot(b, c, n, merge_offset(trees, splits, i));
        }
    }
}

/// A packed summary is read from its fields: bytes that agree with it on the
/// size that it declares read alike, whatever the reserved bytes and those
/// behind hold.
pub proof fn law_decoding_reads_fields_only(b: Seq<u8>, c: Seq<u8>, s: SummaryState)
    requires
        decode_error(b) is None,
        agrees_on_fields(b, c, 0, declared_size(b)),
    ensures
        decode_error(c) is None,
        reads_as(b, s) <==> reads_as(c, s),
{
    assert(wire::le_u32_at(c, 0) == wire::le_u32_at(b, 0));
    assert(wire::le_u32_at(c, 4) == wire::le_u32_at(b, 4));
    if wire::le_u32_at(b, 4) == 2 {
        assert(scalars_packed(c, s) == scalars_packed(b, s));
    } else {
        law_v3_reads_fields_only(b, c, s);
    }
}

/// Bytes behind a packed summary change nothing.
pub proof fn law_trailing_bytes_are_ignored(b: Seq<u8>, tail: Seq<u8>, s: SummaryState)
    requires
        decode_error(b) is None,
    ensures
        decode_error(b + tail) is None,
        reads_as(b, s) <==> reads_as(b + tail, s),
{
    law_decoding_reads_fields_only(b, b + tail, s);
}

/// Eight numbers of eight bytes determine the bytes that spell them.
proof fn lemma_tree_slot_bytes(a: Seq<u8>, b: Seq<u8>, at: int, t: PerTreeCounters)
    requires
        tree_packed_at(a, at, t),
        tree_packed_at(b, at, t),
    ensures
        forall|k: int| at <= k < at + 64 ==> #[trigger] a[k] == b[k],
{
    wire::lemma_le_u64_determines_bytes(a, b, at);
    wire::lemma_le_u64_determines_bytes(a, b, at + 8);
    wire::lemma_le_u64_determines_bytes(a, b, at + 16);
    wire::lemma_le_u64_determines_bytes(a, b, at + 24);
    wire::lemma_le_u64_determines_bytes(a, b, at + 32);
    wire::lemma_le_u64_determines_bytes(a, b, at + 40);
    wire::lemma_le_u64_determines_bytes(a, b, at + 48);
    wire::lemma_le_u64_determines_bytes(a, b, at + 56);
}

/// The fields of a split slot determine its bytes.
proof fn lemma_split_slot_bytes(a: Seq<u8>, b: Seq<u8>, at: int, p: PendingSplit)
    requires
        split_packed_at(a, at, p),
        split_packed_at(b, at, p),
    ensures
        forall|k: int| at <= k < at + 32 ==> #[trigger] a[k] == b[k],
{
    wire::lemma_le_u64_determines_bytes(a, b, at);
    wire::lemma_le_u32_determines_bytes(a, b, at + 8);
    wire::lemma_le_u32_determines_bytes(a, b, at + 12);
    wire::lemma_le_u64_determines_bytes(a, b, at + 16);
    wire::lemma_le_u32_determines_bytes(a, b, at + 24);
    wire::lemma_le_u32_determines_bytes(a, b, at + 28);
}

/// The fields of a merge slot determine its bytes.
proof fn lemma_merge_slot_bytes(a: Seq<u8>, b: Seq<u8>, at: int, p: PendingMerge)
    requires
        merge_packed_at(a, at, p),
        merge_packed_at(b, at, p),
    ensures
        forall|k: int| at <= k < at + 24 ==> #[trigger] a[k] == b[k],
{
    wire::lemma_le_u64_determines_bytes(a, b, at);
    wire::lemma_le_u32_determines_bytes(a, b, at + 8);
    wire::lemma_le_u32_determines_bytes(a, b, at + 12);
    wire::lemma_le_u64_determines_bytes(a, b, at + 16);
}

/// The fields of the header determine its bytes.
proof fn lemma_header_bytes(a: Seq<u8>, b: Seq<u8>, s: SummaryState)
    requires
        header_packed(a, s),
        header_packed(b, s),
    ensures
        forall|k: int| 0 <= k < 64 ==> #[trigger] a[k] == b[k],
{
    wire::lemma_le_u32_determines_bytes(a, b, 0);
    wire::lemma_le_u32_determines_bytes(a, b, 4);
    wire::lemma_le_u64_determines_bytes(a, b, 8);
    wire::lemma_le_u32_determines_bytes(a, b, 16);
    wire::lemma_le_u32_determines_bytes(a, b, 20);
    wire::lemma_le_u64_determines_bytes(a, b, 24);
    wire::lemma_le_u64_determines_bytes(a, b, 32);
    wire::lemma_le_u64_determines_bytes(a, b, 40);
    wire::lemma_le_u32_determines_bytes(a, b, 48);
    wire::lemma_le_u32_determines_bytes(a, b, 52);
    wire::lemma_le_u32_determines_bytes(a, b, 56);
    wire::lemma_le_u32_determines_bytes(a, b, 60);
}

/// A summary has one packed form, down to the last byte.
pub proof fn law_packed_form_is_unique(a: Seq<u8>, b: Seq<u8>, s: SummaryState)
    requires
        is_packed_form(a, s),
        is_packed_form(b, s),
    ensures
        a == b,
{
    let (trees, splits) = (s.per_tree.len() as int, s.pending_splits.len() as int);
    assert forall|k: int| 0 <= k < a.len() implies a[k] == b[k] by {
        lemma_header_bytes(a, b, s);
        if tree_offset(0) <= k < tree_offset(trees) {
            let i = (k - 64) / 64;
            assert(tree_packed_at(a, tree_offset(i), s.per_tree[i]));
            lemma_tree_slot_bytes(a, b, tree_offset(i), s.per_tree[i]);
        } else if tree_offset(trees) <= k < split_offset(trees, splits) {
            let i = (k - split_offset(trees, 0)) / 32;
            assert(split_packed_at(a, split_offset(trees, i), s.pending_splits[i]));
            lemma_split_slot_bytes(a, b, split_offset(trees, i), s.pending_splits[i]);
        } else if split_offset(trees, splits) <= k {
            let i = (k - merge_offset(trees, splits, 0)) / 24;
            assert(merge_packed_at(a, merge_offset(trees, splits, i), s.pending_merges[i]));
            lemma_merge_slot_bytes(a, b, merge_offset(trees, splits, i), s.pending_merges[i]);
        }
    }
    assert(a =~= b);
}

// --- Bytes of a packed summary -----------------------------------------------

/// What stands at each offset of the header of an encoded summary.
pub proof fn law_header_byte_layout(b: Seq<u8>, s: SummaryState)
    requires
        is_packed_form(b, s),
    ensures
        b.len() == 64 + 64 * s.per_tree.len() + 32 * s.pending_splits.len() + 24
            * s.pending_merges.len(),
        b[0] == 0x4F && b[1] == 0x52 && b[2] == 0x4F && b[3] == 0x53,
        b[4] == 3 && b[5] == 0 && b[6] == 0 && b[7] == 0,
        wire::le_u64_at(b, 8) == s.next_oxid,
        wire::le_u32_at(b, 16) == s.last_pg_xid_seen,
        b[20] == 0 && b[21] == 0 && b[22] == 0 && b[23] == 0,
        wire::le_u64_at(b, 24) == s.last_ingested_lsn_raw,
        wire::le_u64_at(b, 32) == s.ingested_count,
        wire::le_u64_at(b, 40) == s.next_csn,
        wire::le_u32_at(b, 48) == s.per_tree.len() % 0x1_0000_0000,
        wire::le_u32_at(b, 52) == s.pending_splits.len() % 0x1_0000_0000,
        wire::le_u32_at(b, 56) == s.pending_merges.len() % 0x1_0000_0000,
        b[60] == 0 && b[61] == 0 && b[62] == 0 && b[63] == 0,
{
    wire::law_little_endian(b, 0);
    wire::law_little_endian(b, 4);
    wire::law_little_endian(b, 20);
    wire::law_little_endian(b, 60);
}

/// What stands at each offset of tree slot `i` of an encoded summary.
pub proof fn law_tree_slot_layout(b: Seq<u8>, s: SummaryState, i: int)
    requires
        is_packed_form(b, s),
        0 <= i < s.per_tree.len(),
    ensures
        wire::le_u64_at(b, 64 + 64 * i) == s.per_tree[i].tree_id,
        wire::le_u64_at(b, 72 + 64 * i) == s.per_tree[i].ctid,
        wire::le_u64_at(b, 80 + 64 * i) == s.per_tree[i].bridge_ctid,
        wire::le_u64_at(b, 88 + 64 * i) == s.per_tree[i].num_free_blocks,
        wire::le_u64_at(b, 96 + 64 * i) == s.per_tree[i].leaf_pages_num,
        wire::le_u64_at(b, 104 + 64 * i) == s.per_tree[i].datafile_length[0],
        wire::le_u64_at(b, 112 + 64 * i) == s.per_tree[i].datafile_length[1],
        wire::le_u64_at(b, 120 + 64 * i) == s.per_tree[i].undo_location,
{
    assert(tree_packed_at(b, tree_offset(i), s.per_tree[i]));
}

/// What stands at each offset of split slot `i` of an encoded summary.
pub proof fn law_split_slot_layout(b: Seq<u8>, s: SummaryState, i: int)
    requires
        is_packed_form(b, s),
        0 <= i < s.pending_splits.len(),
    ensures
        ({
            let at = 64 + 64 * s.per_tree.len() + 32 * i;
            &&& wire::le_u64_at(b, at) == s.pending_splits[i].tree_id
            &&& wire::le_u32_at(b, at + 8) == s.pending_splits[i].left_blkno
            &&& wire::le_u32_at(b, at + 12) == s.pending_splits[i].right_blkno
            &&& wire::le_u64_at(b, at + 16) == s.pending_splits[i].child_hikey_lsn
            &&& wire::le_u32_at(b, at + 24) == s.pending_splits[i].child_hikey_offset
            &&& wire::le_u32_at(b, at + 28) == s.pending_splits[i]._reserved
        }),
{
    let at = split_offset(s.per_tree.len() as int, i);
    assert(split_packed_at(b, at, s.pending_splits[i]));
}

/// What stands at each offset of merge slot `i` of an encoded summary.
pub proof fn law_merge_slot_layout(b: Seq<u8>, s: SummaryState, i: int)
    requires
        is_packed_form(b, s),
        0 <= i < s.pending_merges.len(),
    ensures
        ({
            let at = 64 + 64 * s.per_tree.len() + 32 * s.pending_splits.len() + 24 * i;
            &&& wire::le_u64_at(b, at) == s.pending_merges[i].tree_id
            &&& wire::le_u32_at(b, at + 8) == s.pending_merges[i].left_blkno
            &&& wire::le_u32_at(b, at + 12) == s.pending_merges[i].parent_blkno
            &&& wire::le_u64_at(b, at + 16) == s.pending_merges[i].merge_lsn
        }),
{
    let at = merge_offset(s.per_tree.len() as int, s.pending_splits.len() as int, i);
    assert(merge_packed_at(b, at, s.pending_merges[i]));
}

/// The scalars of a decoded summary stand at the same offsets in either
/// version. Version 2 has no sections; in version 3 they are as long as the
/// counts say.
pub proof fn law_decoded_header_fields(b: Seq<u8>, s: SummaryState)
    requires
        decode_error(b) is None,
        reads_as(b, s),
    ensures
        s.next_oxid == wire::le_u64_at(b, 8),
        s.last_pg_xid_seen == wire::le_u32_at(b, 16),
        s.last_ingested_lsn_raw == wire::le_u64_at(b, 24),
        s.ingested_count == wire::le_u64_at(b, 32),
        s.next_csn == wire::le_u64_at(b, 40),
        b[4] == 2 || b[4] == 3,
        b[4] == 2 ==> s.per_tree.len() == 0 && s.pending_splits.len() == 0
            && s.pending_merges.len() == 0,
        b[4] == 3 ==> {
            &&& s.per_tree.len() == wire::le_u32_at(b, 48)
            &&& s.pending_splits.len() == wire::le_u32_at(b, 52)
            &&& s.pending_merges.len() == wire::le_u32_at(b, 56)
        },
{
    wire::law_little_endian(b, 4);
}

/// The slots of a decoded summary of version 3 are read in order, each from its
/// own bytes.
pub proof fn law_decoded_slots(b: Seq<u8>, s: SummaryState, i: int)
    requires
        decode_error(b) is None,
        reads_as(b, s),
    ensures
        0 <= i < s.per_tree.len() ==> {
            let t = s.per_tree[i];
            &&& t.tree_id == wire::le_u64_at(b, 64 + 64 * i)
            &&& t.ctid == wire::le_u64_at(b, 72 + 64 * i)
            &&& t.bridge_ctid == wire::le_u64_at(b, 80 + 64 * i)
            &&& t.num_free_blocks == wire::le_u64_at(b, 88 + 64 * i)
            &&& t.leaf_pages_num == wire::le_u64_at(b, 96 + 64 * i)
            &&& t.datafile_length[0] == wire::le_u64_at(b, 104 + 64 * i)
            &&& t.datafile_length[1] == wire::le_u64_at(b, 112 + 64 * i)
            &&& t.undo_location == wire::le_u64_at(b, 120 + 64 * i)
        },
        0 <= i < s.pending_splits.len() ==> {
            let p = s.pending_splits[i];
            let at = 64 + 64 * s.per_tree.len() + 32 * i;
            &&& p.tree_id == wire::le_u64_at(b, at)
            &&& p.left_blkno == wire::le_u32_at(b, at + 8)
            &&& p.right_blkno == wire::le_u32_at(b, at + 12)
            &&& p.child_hikey_lsn == wire::le_u64_at(b, at + 16)
            &&& p.child_hikey_offset == wire::le_u32_at(b, at + 24)
            &&& p._reserved == wire::le_u32_at(b, at + 28)
        },
        0 <= i < s.pending_merges.len() ==> {
            let p = s.pending_merges[i];
            let at = 64 + 64 * s.per_tree.len() + 32 * s.pending_splits.len() + 24 * i;
            &&& p.tree_id == wire::le_u64_at(b, at)
            &&& p.left_blkno == wire::le_u32_at(b, at + 8)
            &&& p.parent_blkno == wire::le_u32_at(b, at + 12)
            &&& p.merge_lsn == wire::le_u64_at(b, at + 16)
        },
{
    let (trees, splits) = (s.per_tree.len() as int, s.pending_splits.len() as int);
    if 0 <= i < s.per_tree.len() {
        assert(tree_packed_at(b, tree_offset(i), s.per_tree[i]));
    }
    if 0 <= i < s.pending_splits.len() {
        assert(split_packed_at(b, split_offset(trees, i), s.pending_splits[i]));
    }
    if 0 <= i < s.pending_merges.len() {
        assert(merge_packed_at(b, merge_offset(trees, splits, i), s.pending_merges[i]));
    }
}

/// Bytes decode exactly where they are long enough, start with the magic number
/// and have a known version, and, in version 3, declare sections that are within
/// the limit and there.
pub proof fn law_decodes_exactly_if(b: Seq<u8>)
    ensures
        decode_error(b) is None <==> {
            &&& b.len() >= 48
            &&& b[0] == 0x4F && b[1] == 0x52 && b[2] == 0x4F && b[3] == 0x53
            &&& b[5] == 0 && b[6] == 0 && b[7] == 0
            &&& b[4] == 2 || b[4] == 3 && {
                let (trees, splits, merges) = (
                    wire::le_u32_at(b, 48),
                    wire::le_u32_at(b, 52),
                    wire::le_u32_at(b, 56),
                );
                &&& trees <= 0x10_0000 && splits <= 0x10_0000 && merges <= 0x10_0000
                &&& b.len() >= 64 + 64 * trees + 32 * splits + 24 * merges
            }
        },
{
    wire::law_little_endian(b, 0);
    wire::law_little_endian(b, 4);
    wire::law_little_endian(b, 48);
    wire::law_little_endian(b, 52);
    wire::law_little_endian(b, 56);
}

/// Which error bytes give that do not decode: the first of these that applies.
pub proof fn law_each_error_has_its_inputs(b: Seq<u8>)
    ensures
        b.len() < 48 ==> decode_error(b) == Some(DecodeError::TooShort),
        b.len() >= 48 ==> {
            let (magic, version) = (wire::le_u32_at(b, 0), wire::le_u32_at(b, 4));
            &&& magic != 0x534F_524F ==> decode_error(b) == Some(
                DecodeError::BadMagic(magic as u32),
            )
            &&& magic == 0x534F_524F && version != 2 && version != 3 ==> decode_error(b) == Some(
                DecodeError::UnsupportedVersion(version as u32),
            )
            &&& magic == 0x534F_524F && version == 3 && b.len() < 64 ==> decode_error(b) == Some(
                DecodeError::TooShort,
            )
            &&& magic == 0x534F_524F && version == 3 && b.len() >= 64 ==> {
                let (trees, splits, merges) = (
                    wire::le_u32_at(b, 48),
                    wire::le_u32_at(b, 52),
                    wire::le_u32_at(b, 56),
                );
                &&& trees > 0x10_0000 ==> decode_error(b) == Some(
                    DecodeError::TooManyElements(trees as u32),
                )
                &&& trees <= 0x10_0000 && splits > 0x10_0000 ==> decode_error(b) == Some(
                    DecodeError::TooManyElements(splits as u32),
                )
                &&& trees <= 0x10_0000 && splits <= 0x10_0000 && merges > 0x10_0000
                    ==> decode_error(b) == Some(DecodeError::TooManyElements(merges as u32))
                &&& trees <= 0x10_0000 && splits <= 0x10_0000 && merges <= 0x10_0000 && b.len() < 64
                    + 64 * trees + 32 * splits + 24 * merges ==> decode_error(b) == Some(
                    DecodeError::TooShort,
                )
            }
        },
{
}

} // verus!
