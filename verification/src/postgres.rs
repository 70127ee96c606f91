//! Pages and decoded log records of PostgreSQL, as far as they matter here.
use bytes::Bytes;
use vstd::prelude::*;
use crate::buffers;
use crate::lsn::Lsn;
use crate::wire;

verus! {

/// Size of a page.
pub const BLCKSZ: u16 = 8192;

/// Resource manager of the log itself.
pub const RM_XLOG_ID: u8 = 0;

/// Full-page image.
pub const XLOG_FPI: u8 = 0xb0;

/// Full-page image taken for a hint-bit update.
pub const XLOG_FPI_FOR_HINT: u8 = 0xa0;

/// Resource manager of OrioleDB.
pub const RM_ORIOLEDB_ID: u8 = 129;

/// Image flag of version 14: the image is compressed.
pub const BKPIMAGE_IS_COMPRESSED_V14: u8 = 0x02;

/// Image flags since version 15: the image is compressed, by one of three
/// methods.
pub const BKPIMAGE_COMPRESS_PGLZ: u8 = 0x04;

pub const BKPIMAGE_COMPRESS_LZ4: u8 = 0x08;

pub const BKPIMAGE_COMPRESS_ZSTD: u8 = 0x10;

#[derive(Clone, Copy, Debug, PartialEq, Eq, Structural)]
pub enum PgMajorVersion {
    PG14,
    PG15,
    PG16,
    PG17,
}

/// A block that a record refers to.
#[derive(Clone, Copy, Debug, PartialEq, Eq)]
pub struct DecodedBkpBlock {
    pub rnode_spcnode: u32,
    pub rnode_dbnode: u32,
    pub rnode_relnode: u32,
    pub forknum: u8,
    pub blkno: u32,
    /// The record carries an image of the block.
    pub has_image: bool,
    /// The image is to be restored.
    pub apply_image: bool,
    /// Replay of the record rebuilds the block from nothing.
    pub will_init: bool,
    /// The image leaves out so many zero bytes at this offset.
    pub hole_offset: u16,
    pub hole_length: u16,
    /// Where the image stands in the record, and how long it is.
    pub bimg_len: u16,
    pub bimg_offset: u32,
    pub bimg_info: u8,
}

impl DecodedBkpBlock {
    /// A block with nothing set.
    pub fn new() -> (r: DecodedBkpBlock)
        ensures
            r == (DecodedBkpBlock {
                rnode_spcnode: 0,
                rnode_dbnode: 0,
                rnode_relnode: 0,
                forknum: 0,
                blkno: 0,
                has_image: false,
                apply_image: false,
                will_init: false,
                hole_offset: 0,
                hole_length: 0,
                bimg_len: 0,
                bimg_offset: 0,
                bimg_info: 0,
            }),
    {
        DecodedBkpBlock {
            rnode_spcnode: 0,
            rnode_dbnode: 0,
            rnode_relnode: 0,
            forknum: 0,
            blkno: 0,
            has_image: false,
            apply_image: false,
            will_init: false,
            hole_offset: 0,
            hole_length: 0,
            bimg_len: 0,
            bimg_offset: 0,
            bimg_info: 0,
        }
    }
}

/// A record of the log, with the block references found in it.
#[derive(Clone, Debug, PartialEq, Eq)]
pub struct DecodedWALRecord {
    pub xl_xid: u32,
    pub xl_info: u8,
    pub xl_rmid: u8,
    /// The whole record.
    pub record: Bytes,
    pub blocks: Vec<DecodedBkpBlock>,
    pub main_data_offset: usize,
    pub origin_id: u16,
}

// --- Model -------------------------------------------------------------------

/// What is stored of a decoded record, and what decides how.
#[verifier::ext_equal]
pub struct RecordState {
    pub xl_info: u8,
    pub xl_rmid: u8,
    pub record: Seq<u8>,
    pub blocks: Seq<DecodedBkpBlock>,
}

impl View for DecodedWALRecord {
    type V = RecordState;

    open spec fn view(&self) -> RecordState {
        RecordState {
            xl_info: self.xl_info,
            xl_rmid: self.xl_rmid,
            record: buffers::bytes_contents(self.record),
            blocks: self.blocks@,
        }
    }
}

/// The image flags say that the image is compressed.
pub open spec fn is_compressed(bimg_info: u8, version: PgMajorVersion) -> bool {
    match version {
        PgMajorVersion::PG14 => bimg_info & BKPIMAGE_IS_COMPRESSED_V14 != 0,
        _ => bimg_info & BKPIMAGE_COMPRESS_PGLZ != 0 || bimg_info & BKPIMAGE_COMPRESS_LZ4 != 0
            || bimg_info & BKPIMAGE_COMPRESS_ZSTD != 0,
    }
}

/// The page was never initialized: its upper bound of free space is 0.
pub open spec fn is_new_page(page: Seq<u8>) -> bool {
    page[14] == 0 && page[15] == 0
}

/// The page with a position in its header: the high half, then the low half,
/// each little-endian.
pub open spec fn page_with_lsn(page: Seq<u8>, lsn: Lsn) -> Seq<u8> {
    wire::le_u32_bytes(lsn.0 as int / 0x1_0000_0000) + wire::le_u32_bytes(
        lsn.0 as int % 0x1_0000_0000,
    ) + page.skip(8)
}

// --- Operations --------------------------------------------------------------

/// Whether the image flags say that the image is compressed.
pub fn bkpimage_is_compressed(bimg_info: u8, version: PgMajorVersion) -> (r: bool)
    ensures
        r == is_compressed(bimg_info, version),
{
    match version {
        PgMajorVersion::PG14 => bimg_info & BKPIMAGE_IS_COMPRESSED_V14 != 0,
        _ => bimg_info & BKPIMAGE_COMPRESS_PGLZ != 0 || bimg_info & BKPIMAGE_COMPRESS_LZ4 != 0
            || bimg_info & BKPIMAGE_COMPRESS_ZSTD != 0,
    }
}

/// Whether the page was never initialized.
pub fn page_is_new(page: &[u8]) -> (r: bool)
    requires
        page@.len() >= 16,
    ensures
        r == is_new_page(page@),
{
    page[14] == 0 && page[15] == 0
}

/// Writes `x` at `at`, low byte first.
fn write_le_u32(s: &mut [u8], at: usize, x: u32)
    requires
        at + 4 <= old(s)@.len(),
    ensures
        final(s)@ == old(s)@.take(at as int) + wire::le_u32_bytes(x as int) + old(s)@.skip(at + 4),
{
    s[at] = (x % 0x100) as u8;
    s[at + 1] = (x / 0x100 % 0x100) as u8;
    s[at + 2] = (x / 0x1_0000 % 0x100) as u8;
    s[at + 3] = (x / 0x100_0000) as u8;
}

/// Writes a position into the header of a page.
pub fn page_set_lsn(page: &mut [u8], lsn: Lsn)
    requires
        old(page)@.len() >= 8,
    ensures
        final(page)@ == page_with_lsn(old(page)@, lsn),
{
    write_le_u32(page, 0, (lsn.0 / 0x1_0000_0000) as u32);
    write_le_u32(page, 4, (lsn.0 % 0x1_0000_0000) as u32);
}

// --- Laws --------------------------------------------------------------------

/// An image of version 14 is compressed where bit 1 of its flags is set, one of
/// a later version where bit 2, 3 or 4 is.
pub proof fn law_compression_bits(bimg_info: u8)
    ensures
        is_compressed(bimg_info, PgMajorVersion::PG14) <==> bimg_info / 2 % 2 == 1,
        is_compressed(bimg_info, PgMajorVersion::PG15) <==> bimg_info / 4 % 8 != 0,
        is_compressed(bimg_info, PgMajorVersion::PG16) <==> bimg_info / 4 % 8 != 0,
        is_compressed(bimg_info, PgMajorVersion::PG17) <==> bimg_info / 4 % 8 != 0,
{
    assert((bimg_info & 2 != 0) == (bimg_info / 2 % 2 == 1)) by (bit_vector);
    assert((bimg_info & 4 != 0 || bimg_info & 8 != 0 || bimg_info & 16 != 0) == (bimg_info / 4 % 8
        != 0)) by (bit_vector);
}

/// A page is new where the number at offset 14 is 0.
pub proof fn law_new_page_has_no_upper_bound(page: Seq<u8>)
    ensures
        is_new_page(page) <==> wire::le_u16_at(page, 14) == 0,
{
}

/// Setting the position of a page writes its high half at offset 0 and its low
/// half at offset 4, and leaves every other byte.
pub proof fn law_page_lsn_is_written(page: Seq<u8>, lsn: Lsn)
    requires
        page.len() >= 8,
    ensures
        page_with_lsn(page, lsn).len() == page.len(),
        0x1_0000_0000 * wire::le_u32_at(page_with_lsn(page, lsn), 0) + wire::le_u32_at(
            page_with_lsn(page, lsn),
            4,
        ) == lsn.0,
        forall|i: int|
            8 <= i < page.len() ==> #[trigger] page_with_lsn(page, lsn)[i] == page[i],
{
    let (high, low) = (lsn.0 as int / 0x1_0000_0000, lsn.0 as int % 0x1_0000_0000);
    let after = page_with_lsn(page, lsn);
    let empty = Seq::<u8>::empty();
    wire::law_bytes_spell_the_number(empty, wire::le_u32_bytes(low) + page.skip(8), high);
    assert(after =~= empty + wire::le_u32_bytes(high) + (wire::le_u32_bytes(low) + page.skip(8)));
    wire::law_bytes_spell_the_number(wire::le_u32_bytes(high), page.skip(8), low);
    assert(after =~= wire::le_u32_bytes(high) + wire::le_u32_bytes(low) + page.skip(8));
}

/// The state that a contract speaks of is what the fields hold.
pub proof fn law_record_state_is_its_fields(decoded: DecodedWALRecord)
    ensures
        decoded@.xl_info == decoded.xl_info,
        decoded@.xl_rmid == decoded.xl_rmid,
        decoded@.record == buffers::bytes_contents(decoded.record),
        decoded@.blocks == decoded.blocks@,
{
}

} // verus!
