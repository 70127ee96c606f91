//! Batches of one decoded log record, one for each shard.
//!
//! A shard stores the blocks whose keys are local to it. Shard 0 observes the
//! others too, since it tracks the sizes of relations. A block is stored as an
//! image where the record carries one that can be taken out, and as the record
//! itself where it does not. A record of OrioleDB is stored whole besides, under
//! a key of its own.
use bytes::Bytes;
use bytes::BytesMut;
use vstd::prelude::*;
use vstd::slice::slice_subrange;
use crate::buffers;
use crate::key::rel_block_to_key;
use crate::key::Key;
use crate::key::RelTag;
use crate::key;
use crate::lsn::Lsn;
use crate::postgres::bkpimage_is_compressed;
use crate::postgres::page_is_new;
use crate::postgres::page_set_lsn;
use crate::postgres::DecodedBkpBlock;
use crate::postgres::DecodedWALRecord;
use crate::postgres::PgMajorVersion;
use crate::postgres::RecordState;
use crate::postgres::BLCKSZ;
use crate::postgres::RM_ORIOLEDB_ID;
use crate::postgres::RM_XLOG_ID;
use crate::postgres::XLOG_FPI;
use crate::postgres::XLOG_FPI_FOR_HINT;
use crate::postgres;
use crate::serialized_batch::BatchState;
use crate::serialized_batch::ObservedValueMeta;
use crate::serialized_batch::SerializedValueBatch;
use crate::serialized_batch::ValueMeta;
use crate::value::NeonWalRecord;
use crate::value::Value;
use crate::value::ValueState;

verus! {

/// What a shard gets of a record.
#[derive(Clone, Debug, PartialEq, Eq)]
pub struct ShardRecord {
    pub is_shard_zero: bool,
    /// For each block of the record, whether its key is local to the shard.
    pub key_is_local: Vec<bool>,
    pub batch: SerializedValueBatch,
}

/// The record refers to a block whose key cannot be stored.
#[derive(Clone, Copy, Debug, PartialEq, Eq)]
pub struct UnsupportedKey {
    pub lsn: Lsn,
    pub key: Key,
}

// --- Model -------------------------------------------------------------------

/// The relation fork of a block.
pub open spec fn rel_of_block(blk: DecodedBkpBlock) -> RelTag {
    RelTag {
        forknum: blk.forknum,
        spcnode: blk.rnode_spcnode,
        dbnode: blk.rnode_dbnode,
        relnode: blk.rnode_relnode,
    }
}

/// The key of a block.
pub open spec fn key_of_block(blk: DecodedBkpBlock) -> Key {
    key::block_key(rel_of_block(blk), blk.blkno)
}

/// The block is stored as an image: the record carries one to be restored, it
/// is a record made for images or one of OrioleDB, and the image is neither
/// compressed nor empty.
pub open spec fn is_image(r: RecordState, blk: DecodedBkpBlock, version: PgMajorVersion) -> bool {
    &&& blk.apply_image
    &&& blk.has_image
    &&& (r.xl_rmid == RM_XLOG_ID && (r.xl_info == XLOG_FPI || r.xl_info == XLOG_FPI_FOR_HINT))
        || r.xl_rmid == RM_ORIOLEDB_ID
    &&& !postgres::is_compressed(blk.bimg_info, version)
    &&& blk.bimg_len != 0
}

/// The image as it stands in the record.
pub open spec fn raw_image(r: RecordState, blk: DecodedBkpBlock) -> Seq<u8> {
    r.record.subrange(blk.bimg_offset as int, blk.bimg_offset + blk.bimg_len)
}

/// Where the hole is put back: at its offset, or at the end of a shorter image.
pub open spec fn hole_at(blk: DecodedBkpBlock) -> int {
    if blk.hole_offset <= blk.bimg_len {
        blk.hole_offset as int
    } else {
        blk.bimg_len as int
    }
}

/// The image with its hole filled with zeroes.
pub open spec fn whole_image(r: RecordState, blk: DecodedBkpBlock) -> Seq<u8> {
    let image = raw_image(r, blk);
    if blk.hole_length == 0 {
        image
    } else {
        image.take(hole_at(blk)) + Seq::new(blk.hole_length as nat, |i: int| 0u8) + image.skip(
            hole_at(blk),
        )
    }
}

/// The page that is stored. Its header gets the position of the record, unless
/// the page is uninitialized or has the header of OrioleDB.
pub open spec fn stored_page(r: RecordState, blk: DecodedBkpBlock, lsn: Lsn) -> Seq<u8> {
    let page = whole_image(r, blk);
    if r.xl_rmid != RM_ORIOLEDB_ID && !postgres::is_new_page(page) {
        postgres::page_with_lsn(page, lsn)
    } else {
        page
    }
}

/// The image lies within the record and makes up a page.
pub open spec fn image_fits(r: RecordState, blk: DecodedBkpBlock) -> bool {
    &&& blk.bimg_offset + blk.bimg_len <= r.record.len()
    &&& blk.bimg_len + blk.hole_length == BLCKSZ
    &&& blk.hole_length != 0 ==> blk.hole_offset <= BLCKSZ
}

/// What is stored of a block.
pub open spec fn block_value(
    r: RecordState,
    blk: DecodedBkpBlock,
    lsn: Lsn,
    version: PgMajorVersion,
) -> ValueState {
    if is_image(r, blk, version) {
        ValueState::Image { image: stored_page(r, blk, lsn) }
    } else {
        ValueState::Postgres { will_init: blk.will_init || blk.apply_image, rec: r.record }
    }
}

/// The number of blocks before the first whose key cannot be stored.
pub open spec fn supported_blocks(blocks: Seq<DecodedBkpBlock>) -> int
    decreases blocks.len(),
{
    if blocks.len() == 0 {
        0
    } else {
        let n = supported_blocks(blocks.drop_last());
        if n < blocks.len() - 1 || !key_of_block(blocks.last()).representable() {
            n
        } else {
            n + 1
        }
    }
}

/// A shard's batch after the first `n` blocks.
pub open spec fn after_blocks(
    start: BatchState,
    r: RecordState,
    shard: ShardRecord,
    lsn: Lsn,
    version: PgMajorVersion,
    n: int,
) -> BatchState
    decreases n,
{
    if n <= 0 {
        start
    } else {
        let b = after_blocks(start, r, shard, lsn, version, n - 1);
        let blk = r.blocks[n - 1];
        let key = key_of_block(blk).compact();
        if shard.key_is_local@[n - 1] {
            b.with_value(key, lsn, block_value(r, blk, lsn, version))
        } else if shard.is_shard_zero {
            b.with_observed(key, lsn)
        } else {
            b
        }
    }
}

/// A record of OrioleDB, stored whole.
pub open spec fn stream_value(r: RecordState) -> ValueState {
    ValueState::Postgres { will_init: true, rec: r.record }
}

/// The first shard that is shard 0, or the number of shards.
pub open spec fn first_shard_zero(shards: Seq<ShardRecord>) -> int
    decreases shards.len(),
{
    if shards.len() == 0 {
        0
    } else {
        let n = first_shard_zero(shards.drop_last());
        if n < shards.len() - 1 || shards.last().is_shard_zero {
            n
        } else {
            n + 1
        }
    }
}

/// The one shard that stores a record of OrioleDB whole: shard 0 where it is
/// among the shards, and the first of them where it is not.
pub open spec fn stream_shard(shards: Seq<ShardRecord>) -> int {
    if first_shard_zero(shards) < shards.len() {
        first_shard_zero(shards)
    } else {
        0
    }
}

/// The batch that shard `i` gets of the whole record.
pub open spec fn shard_batch(
    r: RecordState,
    shards: Seq<ShardRecord>,
    i: int,
    lsn: Lsn,
    version: PgMajorVersion,
    wal_key: Key,
) -> BatchState {
    let b = after_blocks(shards[i].batch@, r, shards[i], lsn, version, r.blocks.len() as int);
    if r.xl_rmid == RM_ORIOLEDB_ID && i == stream_shard(shards) {
        b.with_value(wal_key.compact(), lsn, stream_value(r))
    } else {
        b
    }
}

/// The buffer that the first `n` blocks need, as far as they are local.
pub open spec fn blocks_estimate(
    r: RecordState,
    key_is_local: Seq<bool>,
    version: PgMajorVersion,
    n: int,
) -> int
    decreases n,
{
    if n <= 0 {
        0
    } else {
        blocks_estimate(r, key_is_local, version, n - 1) + (if !key_is_local[n - 1] {
            0
        } else if is_image(r, r.blocks[n - 1], version) {
            4 + 8 + BLCKSZ
        } else {
            8 + 1 + 8 + r.record.len() as int
        })
    }
}

/// The buffer that a shard needs, roughly.
pub open spec fn estimate(
    r: RecordState,
    key_is_local: Seq<bool>,
    version: PgMajorVersion,
) -> int {
    blocks_estimate(r, key_is_local, version, r.blocks.len() as int) + (if r.blocks.len() == 0
        && r.xl_rmid == RM_ORIOLEDB_ID {
        8 + 1 + 8 + r.record.len() as int
    } else {
        0
    })
}

/// Some shard stores block `n`.
pub open spec fn is_stored(shards: Seq<ShardRecord>, n: int) -> bool {
    exists|i: int| 0 <= i < shards.len() && (#[trigger] shards[i]).key_is_local@[n]
}

/// A shard is ready for the record: nothing is in its batch yet, and the
/// buffer it needs can be had.
pub open spec fn ready(r: RecordState, shard: ShardRecord, version: PgMajorVersion) -> bool {
    &&& shard.key_is_local@.len() == r.blocks.len()
    &&& shard.batch@.raw.len() == 0
    &&& shard.batch@.metadata.len() == 0
    &&& shard.batch@.len + r.blocks.len() < usize::MAX
    &&& estimate(r, shard.key_is_local@, version) <= isize::MAX
}

/// The images that are taken out of the record fit.
pub open spec fn images_fit(
    r: RecordState,
    shards: Seq<ShardRecord>,
    version: PgMajorVersion,
) -> bool {
    forall|n: int|
        0 <= n < supported_blocks(r.blocks) && is_stored(shards, n) && is_image(
            r,
            #[trigger] r.blocks[n],
            version,
        ) ==> image_fits(r, r.blocks[n])
}

/// The shards are the same, whatever their batches hold.
pub open spec fn same_shards(before: Seq<ShardRecord>, after: Seq<ShardRecord>) -> bool {
    &&& after.len() == before.len()
    &&& forall|i: int|
        0 <= i < after.len() ==> {
            &&& (#[trigger] after[i]).is_shard_zero == before[i].is_shard_zero
            &&& after[i].key_is_local == before[i].key_is_local
        }
}

/// The batches of all shards hold the first `n` blocks.
pub open spec fn hold_blocks(
    before: Seq<ShardRecord>,
    after: Seq<ShardRecord>,
    r: RecordState,
    lsn: Lsn,
    version: PgMajorVersion,
    n: int,
) -> bool {
    forall|i: int|
        0 <= i < after.len() ==> (#[trigger] after[i]).batch@ == after_blocks(
            before[i].batch@,
            r,
            before[i],
            lsn,
            version,
            n,
        )
}

/// The batches of all shards hold the whole record.
pub open spec fn hold_record(
    before: Seq<ShardRecord>,
    after: Seq<ShardRecord>,
    r: RecordState,
    lsn: Lsn,
    version: PgMajorVersion,
    wal_key: Key,
) -> bool {
    forall|i: int|
        0 <= i < after.len() ==> (#[trigger] after[i]).batch@ == shard_batch(
            r,
            before,
            i,
            lsn,
            version,
            wal_key,
        )
}

// --- Blocks ------------------------------------------------------------------

impl SerializedValueBatch {
    /// Whether the block is stored as an image.
    pub fn block_is_image(
        decoded: &DecodedWALRecord,
        blk: &DecodedBkpBlock,
        version: PgMajorVersion,
    ) -> (r: bool)
        ensures
            r == is_image(decoded@, *blk, version),
    {
        let made_for_images = decoded.xl_rmid == RM_XLOG_ID && (decoded.xl_info == XLOG_FPI
            || decoded.xl_info == XLOG_FPI_FOR_HINT);
        blk.apply_image && blk.has_image && (made_for_images || decoded.xl_rmid == RM_ORIOLEDB_ID)
            && !bkpimage_is_compressed(blk.bimg_info, version) && blk.bimg_len != 0
    }
}

/// The key of a block.
fn block_to_key(blk: &DecodedBkpBlock) -> (r: Key)
    ensures
        r == key_of_block(*blk),
{
    let rel = RelTag {
        forknum: blk.forknum,
        spcnode: blk.rnode_spcnode,
        dbnode: blk.rnode_dbnode,
        relnode: blk.rnode_relnode,
    };
    rel_block_to_key(rel, blk.blkno)
}

/// Takes the page image of a block out of the record.
fn extract_page(decoded: &DecodedWALRecord, blk: &DecodedBkpBlock, lsn: Lsn) -> (r: Bytes)
    requires
        image_fits(decoded@, *blk),
    ensures
        buffers::bytes_contents(r) == stored_page(decoded@, *blk, lsn),
{
    let record = buffers::as_slice(&decoded.record);
    assert(record@.len() == record.len());
    let img_len: usize = blk.bimg_len as usize;
    let img_offs: usize = blk.bimg_offset as usize;
    let mut image: BytesMut = buffers::with_capacity(BLCKSZ as usize);
    buffers::extend_from_slice(&mut image, slice_subrange(record, img_offs, img_offs + img_len));
    assert(buffers::bytes_mut_contents(image) =~= raw_image(decoded@, *blk));
    if blk.hole_length != 0 {
        let hole_offset: usize = if blk.hole_offset <= blk.bimg_len {
            blk.hole_offset as usize
        } else {
            img_len
        };
        let tail: BytesMut = buffers::split_off(&mut image, hole_offset);
        buffers::resize(&mut image, hole_offset + blk.hole_length as usize, 0);
        buffers::unsplit(&mut image, tail);
    }
    assert(buffers::bytes_mut_contents(image) =~= whole_image(decoded@, *blk));
    if decoded.xl_rmid != RM_ORIOLEDB_ID && !page_is_new(buffers::as_slice_of_mut(&image)) {
        page_set_lsn(buffers::as_mut_slice(&mut image), lsn);
    }
    buffers::freeze(image)
}

/// What is stored of a block.
pub fn value_of_block(
    decoded: &DecodedWALRecord,
    blk: &DecodedBkpBlock,
    lsn: Lsn,
    version: PgMajorVersion,
) -> (r: Value)
    requires
        is_image(decoded@, *blk, version) ==> image_fits(decoded@, *blk),
    ensures
        r@ == block_value(decoded@, *blk, lsn, version),
{
    if SerializedValueBatch::block_is_image(decoded, blk, version) {
        Value::Image(extract_page(decoded, blk, lsn))
    } else {
        Value::WalRecord(
            NeonWalRecord::Postgres {
                will_init: blk.will_init || blk.apply_image,
                rec: decoded.record.clone(),
            },
        )
    }
}

// --- Shards ------------------------------------------------------------------

/// The estimate of the first blocks is not more than that of all of them.
proof fn lemma_blocks_estimate_grows(
    r: RecordState,
    key_is_local: Seq<bool>,
    version: PgMajorVersion,
    m: int,
    n: int,
)
    requires
        0 <= m <= n,
    ensures
        0 <= blocks_estimate(r, key_is_local, version, m) <= blocks_estimate(
            r,
            key_is_local,
            version,
            n,
        ),
    decreases n,
{
    if n > 0 {
        if m < n {
            lemma_blocks_estimate_grows(r, key_is_local, version, m, n - 1);
        } else {
            lemma_blocks_estimate_grows(r, key_is_local, version, m - 1, n - 1);
        }
    }
}

impl SerializedValueBatch {
    /// Roughly how large the buffer for a shard's values needs to be.
    pub fn estimate_buffer_size(
        decoded: &DecodedWALRecord,
        key_is_local: &Vec<bool>,
        version: PgMajorVersion,
    ) -> (r: usize)
        requires
            key_is_local@.len() == decoded@.blocks.len(),
            estimate(decoded@, key_is_local@, version) <= usize::MAX,
        ensures
            r == estimate(decoded@, key_is_local@, version),
    {
        let record_len: usize = buffers::as_slice(&decoded.record).len();
        let mut size: usize = 0;
        let mut i: usize = 0;
        while i < decoded.blocks.len()
            invariant
                i <= decoded@.blocks.len(),
                key_is_local@.len() == decoded@.blocks.len(),
                record_len == decoded@.record.len(),
                estimate(decoded@, key_is_local@, version) <= usize::MAX,
                size == blocks_estimate(decoded@, key_is_local@, version, i as int),
            decreases decoded@.blocks.len() - i,
        {
            proof {
                lemma_blocks_estimate_grows(
                    decoded@,
                    key_is_local@,
                    version,
                    i + 1,
                    decoded@.blocks.len() as int,
                );
            }
            if key_is_local[i] {
                if Self::block_is_image(decoded, &decoded.blocks[i], version) {
                    size = size + 4 + 8 + BLCKSZ as usize;
                } else {
                    size = size + 8 + 1 + 8 + record_len;
                }
            }
            i = i + 1;
        }
        if decoded.blocks.len() == 0 && decoded.xl_rmid == RM_ORIOLEDB_ID {
            size = size + 8 + 1 + 8 + record_len;
        }
        size
    }
}

/// Adds block `n` of the record to a shard's batch.
fn add_block(
    shard: &mut ShardRecord,
    decoded: &DecodedWALRecord,
    n: usize,
    key: Key,
    lsn: Lsn,
    version: PgMajorVersion,
)
    requires
        n < decoded@.blocks.len(),
        n < old(shard).key_is_local@.len(),
        key == key_of_block(decoded@.blocks[n as int]),
        key.representable(),
        old(shard).key_is_local@[n as int] && is_image(
            decoded@,
            decoded@.blocks[n as int],
            version,
        ) ==> image_fits(decoded@, decoded@.blocks[n as int]),
        old(shard).batch.len < usize::MAX,
    ensures
        final(shard).is_shard_zero == old(shard).is_shard_zero,
        final(shard).key_is_local == old(shard).key_is_local,
        final(shard).batch@ == (if old(shard).key_is_local@[n as int] {
            old(shard).batch@.with_value(
                key.compact(),
                lsn,
                block_value(decoded@, decoded@.blocks[n as int], lsn, version),
            )
        } else if old(shard).is_shard_zero {
            old(shard).batch@.with_observed(key.compact(), lsn)
        } else {
            old(shard).batch@
        }),
{
    if !shard.key_is_local[n] {
        if shard.is_shard_zero {
            shard.batch.metadata.push(
                ValueMeta::Observed(ObservedValueMeta { key: key.to_compact(), lsn }),
            );
        }
        return ;
    }
    let value: Value = value_of_block(decoded, &decoded.blocks[n], lsn, version);
    shard.batch.store(key.to_compact(), &value, lsn);
}

/// The shard that stores a record of OrioleDB whole.
fn find_stream_shard(shards: &Vec<ShardRecord>) -> (r: usize)
    ensures
        r == stream_shard(shards@),
{
    let mut i: usize = 0;
    while i < shards.len()
        invariant
            i <= shards@.len(),
            first_shard_zero(shards@.take(i as int)) == i,
        decreases shards@.len() - i,
    {
        assert(shards@.take(i + 1).drop_last() =~= shards@.take(i as int));
        if shards[i].is_shard_zero {
            proof {
                lemma_first_shard_zero_stays(shards@, i + 1);
            }
            return i;
        }
        i = i + 1;
    }
    assert(shards@.take(i as int) =~= shards@);
    0
}

/// A shard 0 among the first shards is the first of all.
proof fn lemma_first_shard_zero_stays(shards: Seq<ShardRecord>, n: int)
    requires
        0 <= n <= shards.len(),
        first_shard_zero(shards.take(n)) < n,
    ensures
        first_shard_zero(shards) == first_shard_zero(shards.take(n)),
    decreases shards.len() - n,
{
    if n == shards.len() {
        assert(shards.take(n) =~= shards);
    } else {
        assert(shards.take(n + 1).drop_last() =~= shards.take(n));
        lemma_first_shard_zero_stays(shards, n + 1);
    }
}

/// A block without a storable key among the first blocks is the first of all.
proof fn lemma_supported_blocks_stay(blocks: Seq<DecodedBkpBlock>, n: int)
    requires
        0 <= n <= blocks.len(),
    ensures
        supported_blocks(blocks.take(n)) < n ==> supported_blocks(blocks) == supported_blocks(
            blocks.take(n),
        ),
        supported_blocks(blocks.take(n)) == n ==> supported_blocks(blocks) >= n,
        0 <= supported_blocks(blocks.take(n)) <= n,
    decreases blocks.len() - n,
{
    lemma_supported_blocks_range(blocks.take(n));
    if n == blocks.len() {
        assert(blocks.take(n) =~= blocks);
    } else {
        assert(blocks.take(n + 1).drop_last() =~= blocks.take(n));
        lemma_supported_blocks_stay(blocks, n + 1);
    }
}

proof fn lemma_supported_blocks_range(blocks: Seq<DecodedBkpBlock>)
    ensures
        0 <= supported_blocks(blocks) <= blocks.len(),
    decreases blocks.len(),
{
    if blocks.len() > 0 {
        lemma_supported_blocks_range(blocks.drop_last());
    }
}

/// A block adds at most one value.
proof fn lemma_after_blocks_len(
    start: BatchState,
    r: RecordState,
    shard: ShardRecord,
    lsn: Lsn,
    version: PgMajorVersion,
    n: int,
)
    requires
        0 <= n,
    ensures
        after_blocks(start, r, shard, lsn, version, n).len <= start.len + n,
    decreases n,
{
    if n > 0 {
        lemma_after_blocks_len(start, r, shard, lsn, version, n - 1);
    }
}

/// The shards after so many blocks: those before `s` have one block more.
spec fn shards_after(
    before: Seq<ShardRecord>,
    now: Seq<ShardRecord>,
    r: RecordState,
    lsn: Lsn,
    version: PgMajorVersion,
    n: int,
    s: int,
) -> bool {
    &&& same_shards(before, now)
    &&& forall|i: int|
        0 <= i < now.len() ==> (#[trigger] now[i]).batch@ == after_blocks(
            before[i].batch@,
            r,
            before[i],
            lsn,
            version,
            if i < s {
                n + 1
            } else {
                n
            },
        )
}

impl SerializedValueBatch {
    /// Fills the batches of the shards with the values of a record.
    ///
    /// `wal_key` is the key under which a record of OrioleDB is stored whole; it
    /// plays no part in other records. Where the record refers to a block whose
    /// key cannot be stored, the batches hold the blocks before it.
    pub fn from_decoded_filtered(
        decoded: DecodedWALRecord,
        shard_records: &mut Vec<ShardRecord>,
        next_record_lsn: Lsn,
        pg_version: PgMajorVersion,
        wal_key: Key,
    ) -> (r: Result<(), UnsupportedKey>)
        requires
            forall|i: int|
                0 <= i < old(shard_records)@.len() ==> ready(
                    decoded@,
                    #[trigger] old(shard_records)@[i],
                    pg_version,
                ),
            images_fit(decoded@, old(shard_records)@, pg_version),
            decoded@.xl_rmid == RM_ORIOLEDB_ID && old(shard_records)@.len() > 0
                && supported_blocks(decoded@.blocks) == decoded@.blocks.len()
                ==> wal_key.representable(),
        ensures
            same_shards(old(shard_records)@, final(shard_records)@),
            match r {
                Ok(()) => {
                    &&& supported_blocks(decoded@.blocks) == decoded@.blocks.len()
                    &&& hold_record(
                        old(shard_records)@,
                        final(shard_records)@,
                        decoded@,
                        next_record_lsn,
                        pg_version,
                        wal_key,
                    )
                },
                Err(e) => {
                    let n = supported_blocks(decoded@.blocks);
                    &&& n < decoded@.blocks.len()
                    &&& e.lsn == next_record_lsn
                    &&& e.key == key_of_block(decoded@.blocks[n])
                    &&& hold_blocks(
                        old(shard_records)@,
                        final(shard_records)@,
                        decoded@,
                        next_record_lsn,
                        pg_version,
                        n,
                    )
                },
            },
    {
        let ghost before = shard_records@;
        let mut s: usize = 0;
        while s < shard_records.len()
            invariant
                s <= shard_records@.len(),
                before == old(shard_records)@,
                forall|i: int|
                    0 <= i < before.len() ==> ready(decoded@, #[trigger] before[i], pg_version),
                shards_after(before, shard_records@, decoded@, next_record_lsn, pg_version, 0, 0),
            decreases shard_records@.len() - s,
        {
            assert(ready(decoded@, before[s as int], pg_version));
            let record = &mut shard_records[s];
            let size: usize = Self::estimate_buffer_size(
                &decoded,
                &record.key_is_local,
                pg_version,
            );
            record.batch.raw = Vec::with_capacity(size);
            assert(record.batch@ =~= before[s as int].batch@);
            s = s + 1;
        }
        let mut n: usize = 0;
        while n < decoded.blocks.len()
            invariant
                n <= decoded@.blocks.len(),
                before == old(shard_records)@,
                forall|i: int|
                    0 <= i < before.len() ==> ready(decoded@, #[trigger] before[i], pg_version),
                images_fit(decoded@, before, pg_version),
                supported_blocks(decoded@.blocks.take(n as int)) == n,
                shards_after(
                    before,
                    shard_records@,
                    decoded@,
                    next_record_lsn,
                    pg_version,
                    n as int,
                    0,
                ),
            decreases decoded@.blocks.len() - n,
        {
            let key: Key = block_to_key(&decoded.blocks[n]);
            proof {
                let blocks = decoded@.blocks;
                assert(blocks.take(n + 1).drop_last() =~= blocks.take(n as int));
                lemma_supported_blocks_stay(blocks, n + 1);
            }
            if !key.is_valid_key_on_write_path() {
                return Err(UnsupportedKey { lsn: next_record_lsn, key });
            }
            s = 0;
            while s < shard_records.len()
                invariant
                    n < decoded@.blocks.len(),
                    s <= shard_records@.len(),
                    before == old(shard_records)@,
                    forall|i: int|
                        0 <= i < before.len() ==> ready(decoded@, #[trigger] before[i], pg_version),
                    images_fit(decoded@, before, pg_version),
                    n < supported_blocks(decoded@.blocks),
                    key == key_of_block(decoded@.blocks[n as int]),
                    key.representable(),
                    shards_after(
                        before,
                        shard_records@,
                        decoded@,
                        next_record_lsn,
                        pg_version,
                        n as int,
                        s as int,
                    ),
                decreases shard_records@.len() - s,
            {
                proof {
                    let shard = before[s as int];
                    assert(ready(decoded@, shard, pg_version));
                    assert(shard_records@[s as int].is_shard_zero == shard.is_shard_zero);
                    lemma_after_blocks_len(
                        shard.batch@,
                        decoded@,
                        shard,
                        next_record_lsn,
                        pg_version,
                        n as int,
                    );
                    if shard.key_is_local@[n as int] {
                        assert(is_stored(before, n as int));
                    }
                }
                add_block(
                    &mut shard_records[s],
                    &decoded,
                    n,
                    key,
                    next_record_lsn,
                    pg_version,
                );
                s = s + 1;
            }
            n = n + 1;
        }
        assert(decoded@.blocks.take(n as int) =~= decoded@.blocks);
        if decoded.xl_rmid == RM_ORIOLEDB_ID && shard_records.len() > 0 {
            let value = Value::WalRecord(
                NeonWalRecord::Postgres { will_init: true, rec: decoded.record.clone() },
            );
            let at: usize = find_stream_shard(shard_records);
            proof {
                lemma_same_stream_shard(before, shard_records@);
                let shard = before[at as int];
                assert(ready(decoded@, shard, pg_version));
                assert(shard_records@[at as int].is_shard_zero == shard.is_shard_zero);
                lemma_after_blocks_len(
                    shard.batch@,
                    decoded@,
                    shard,
                    next_record_lsn,
                    pg_version,
                    n as int,
                );
            }
            let record = &mut shard_records[at];
            record.batch.store(wal_key.to_compact(), &value, next_record_lsn);
        }
        Ok(())
    }
}

/// Which shard stores a record of OrioleDB whole depends on which is shard 0.
proof fn lemma_same_stream_shard(a: Seq<ShardRecord>, b: Seq<ShardRecord>)
    requires
        a.len() == b.len(),
        forall|i: int| 0 <= i < a.len() ==> (#[trigger] b[i]).is_shard_zero == a[i].is_shard_zero,
    ensures
        first_shard_zero(a) == first_shard_zero(b),
        0 <= first_shard_zero(a) <= a.len(),
    decreases a.len(),
{
    if a.len() > 0 {
        let (x, y) = (a.drop_last(), b.drop_last());
        assert forall|i: int| 0 <= i < x.len() implies (#[trigger] y[i]).is_shard_zero
            == x[i].is_shard_zero by {
            assert(b[i].is_shard_zero == a[i].is_shard_zero);
        }
        lemma_same_stream_shard(x, y);
        assert(b[a.len() - 1].is_shard_zero == a[a.len() - 1].is_shard_zero);
    }
}

} // verus!
