//! Container records: the row-level log of the OrioleDB engine.
//!
//! A container payload is a short header followed by a body, a run of
//! sub-records. The part of it that a cold-start summary needs is its
//! [`OrioleDbRecordDelta`]: the transaction id of the header, and the largest
//! OXid and commit sequence number among the sub-records.
//!
//! ```text
//! uint16 wal_version           (little endian)
//! uint8  flags
//! if (flags & HAS_XACT_INFO)   xact info   (12 bytes: xact time 8, xid 4)
//! if (flags & HAS_ORIGIN_INFO) origin info (10 bytes: origin id 2, origin lsn 8)
//! body ...
//! ```
use vstd::prelude::*;
use vstd::slice::slice_subrange;
use crate::orioledb_state::wal_rec_type;
use crate::wire;
use crate::wire::read_le_u16;
use crate::wire::read_le_u32;
use crate::wire::read_le_u64;

verus! {

/// Header flag: transaction info follows the flags.
pub const WAL_CONTAINER_HAS_XACT_INFO: u8 = 1;

/// Header flag: origin info follows the flags and the transaction info.
pub const WAL_CONTAINER_HAS_ORIGIN_INFO: u8 = 2;

/// Size of the header part that is always there: version (2) and flags (1).
pub const CONTAINER_HEADER_MIN_LEN: usize = 3;

/// Size of the transaction info: xact time (8) and xid (4).
pub const WAL_REC_XACT_INFO_LEN: usize = 12;

/// Size of the origin info: origin id (2) and origin lsn (8).
pub const WAL_REC_ORIGIN_INFO_LEN: usize = 10;

/// Size of an XID sub-record: type (1), oxid (8), logical xid (4), heap xid (4).
pub const WAL_REC_XID_LEN: usize = 17;

/// Size of a COMMIT or ROLLBACK sub-record: type (1), xmin (8), csn (8).
pub const WAL_REC_FINISH_LEN: usize = 17;

/// Size of a JOINT_COMMIT sub-record: type (1), xid (4), xmin (8), csn (8).
pub const WAL_REC_JOINT_COMMIT_LEN: usize = 21;

/// Where the oxid stands in an XID sub-record.
pub const WAL_REC_XID_OXID_OFFSET: usize = 1;

/// Where the csn stands in a COMMIT sub-record.
pub const WAL_REC_FINISH_CSN_OFFSET: usize = 9;

/// Where the csn stands in a JOINT_COMMIT sub-record.
pub const WAL_REC_JOINT_COMMIT_CSN_OFFSET: usize = 13;

/// Parsed header of a container record.
#[derive(Clone, Copy, Debug, PartialEq, Eq)]
pub struct ContainerHeader {
    pub wal_version: u16,
    pub flags: u8,
    /// Transaction id of the transaction info, if the header has one.
    pub pg_xid: Option<u32>,
    /// Where in the payload the body begins.
    pub body_offset: usize,
}

#[derive(Clone, Copy, Debug, PartialEq, Eq)]
pub enum ContainerParseError {
    TooShort,
}

/// What one record contributes to a cold-start summary. A field that is
/// `None` leaves the summary's field as it is.
#[derive(Clone, Copy, Debug, PartialEq, Eq)]
pub struct OrioleDbRecordDelta {
    /// Transaction id of the container header.
    pub pg_xid: Option<u32>,
    /// Largest OXid among the XID sub-records.
    pub max_oxid_in_body: Option<u64>,
    /// Largest commit sequence number among the COMMIT and JOINT_COMMIT
    /// sub-records. A ROLLBACK does not count.
    pub max_csn_in_body: Option<u64>,
}

impl Default for OrioleDbRecordDelta {
    /// The delta that changes nothing but the record count and position.
    fn default() -> (r: Self)
        ensures
            r == no_delta(),
    {
        OrioleDbRecordDelta { pg_xid: None, max_oxid_in_body: None, max_csn_in_body: None }
    }
}

// --- Model -------------------------------------------------------------------

/// The delta that carries nothing.
pub open spec fn no_delta() -> OrioleDbRecordDelta {
    OrioleDbRecordDelta { pg_xid: None, max_oxid_in_body: None, max_csn_in_body: None }
}

/// Bit 0 of the flags.
pub open spec fn has_xact_info(flags: u8) -> bool {
    flags % 2 == 1
}

/// Bit 1 of the flags.
pub open spec fn has_origin_info(flags: u8) -> bool {
    (flags / 2) % 2 == 1
}

/// Size of a header with these flags.
pub open spec fn header_len(flags: u8) -> int {
    CONTAINER_HEADER_MIN_LEN + (if has_xact_info(flags) {
        WAL_REC_XACT_INFO_LEN as int
    } else {
        0
    }) + (if has_origin_info(flags) {
        WAL_REC_ORIGIN_INFO_LEN as int
    } else {
        0
    })
}

/// The payload holds a whole header.
pub open spec fn header_fits(payload: Seq<u8>) -> bool {
    CONTAINER_HEADER_MIN_LEN <= payload.len() && header_len(payload[2]) <= payload.len()
}

/// The header that a payload starts with, where it holds a whole one.
pub open spec fn header_of(payload: Seq<u8>) -> ContainerHeader {
    ContainerHeader {
        wal_version: wire::le_u16_at(payload, 0) as u16,
        flags: payload[2],
        pg_xid: if has_xact_info(payload[2]) {
            Some(wire::le_u32_at(payload, 11) as u32)
        } else {
            None
        },
        body_offset: header_len(payload[2]) as usize,
    }
}

/// The body of a payload that holds a whole header.
pub open spec fn body_of(payload: Seq<u8>) -> Seq<u8> {
    payload.skip(header_len(payload[2]))
}

/// A sub-record, as far as a summary is concerned.
pub enum SubRecord {
    Xid { oxid: u64 },
    Commit { csn: u64 },
    Rollback,
    JointCommit { csn: u64 },
}

impl SubRecord {
    /// Size of the sub-record in a body.
    pub open spec fn size(self) -> int {
        match self {
            SubRecord::Xid { .. } => WAL_REC_XID_LEN as int,
            SubRecord::Commit { .. } => WAL_REC_FINISH_LEN as int,
            SubRecord::Rollback => WAL_REC_FINISH_LEN as int,
            SubRecord::JointCommit { .. } => WAL_REC_JOINT_COMMIT_LEN as int,
        }
    }

    /// The OXid that the sub-record names.
    pub open spec fn oxid(self) -> Option<u64> {
        match self {
            SubRecord::Xid { oxid } => Some(oxid),
            _ => None,
        }
    }

    /// The commit sequence number that the sub-record hands out.
    pub open spec fn csn(self) -> Option<u64> {
        match self {
            SubRecord::Commit { csn } => Some(csn),
            SubRecord::JointCommit { csn } => Some(csn),
            _ => None,
        }
    }
}

/// The sub-record that a body starts with: `None` where the body is empty, its
/// first byte is no type that is decoded here, or it is cut off.
pub open spec fn first_sub_record(body: Seq<u8>) -> Option<SubRecord> {
    if body.len() == 0 {
        None
    } else if body[0] == wal_rec_type::XID && body.len() >= WAL_REC_XID_LEN {
        Some(SubRecord::Xid { oxid: wire::le_u64_at(body, 1) as u64 })
    } else if body[0] == wal_rec_type::COMMIT && body.len() >= WAL_REC_FINISH_LEN {
        Some(SubRecord::Commit { csn: wire::le_u64_at(body, 9) as u64 })
    } else if body[0] == wal_rec_type::ROLLBACK && body.len() >= WAL_REC_FINISH_LEN {
        Some(SubRecord::Rollback)
    } else if body[0] == wal_rec_type::JOINT_COMMIT && body.len() >= WAL_REC_JOINT_COMMIT_LEN {
        Some(SubRecord::JointCommit { csn: wire::le_u64_at(body, 13) as u64 })
    } else {
        None
    }
}

/// The sub-records of a body, up to the first that cannot be decoded.
pub open spec fn sub_records(body: Seq<u8>) -> Seq<SubRecord>
    decreases body.len(),
{
    match first_sub_record(body) {
        Some(r) => seq![r] + sub_records(body.skip(r.size())),
        None => Seq::empty(),
    }
}

/// The larger of two optional numbers.
pub open spec fn larger(a: Option<u64>, b: Option<u64>) -> Option<u64> {
    match (a, b) {
        (Some(x), Some(y)) => Some(if x >= y {
            x
        } else {
            y
        }),
        (Some(x), None) => Some(x),
        (None, _) => b,
    }
}

/// The largest OXid that the sub-records name.
pub open spec fn max_oxid(records: Seq<SubRecord>) -> Option<u64>
    decreases records.len(),
{
    if records.len() == 0 {
        None
    } else {
        larger(max_oxid(records.drop_last()), records.last().oxid())
    }
}

/// The largest commit sequence number that the sub-records hand out.
pub open spec fn max_csn(records: Seq<SubRecord>) -> Option<u64>
    decreases records.len(),
{
    if records.len() == 0 {
        None
    } else {
        larger(max_csn(records.drop_last()), records.last().csn())
    }
}

/// What a payload contributes to a summary. A payload without a whole header
/// contributes nothing.
pub open spec fn delta_of(payload: Seq<u8>) -> OrioleDbRecordDelta {
    if header_fits(payload) {
        OrioleDbRecordDelta {
            pg_xid: header_of(payload).pg_xid,
            max_oxid_in_body: max_oxid(sub_records(body_of(payload))),
            max_csn_in_body: max_csn(sub_records(body_of(payload))),
        }
    } else {
        no_delta()
    }
}

// --- Header ------------------------------------------------------------------

/// Parses the header of a container payload.
pub fn parse_container_header(payload: &[u8]) -> (r: Result<ContainerHeader, ContainerParseError>)
    ensures
        match r {
            Ok(header) => header_fits(payload@) && header == header_of(payload@),
            Err(ContainerParseError::TooShort) => !header_fits(payload@),
        },
{
    if payload.len() < CONTAINER_HEADER_MIN_LEN {
        return Err(ContainerParseError::TooShort);
    }
    let wal_version: u16 = read_le_u16(payload, 0);
    let flags: u8 = payload[2];
    let mut cursor: usize = CONTAINER_HEADER_MIN_LEN;
    assert((flags & 1 != 0) == (flags % 2 == 1)) by (bit_vector);
    assert((flags & 2 != 0) == ((flags / 2) % 2 == 1)) by (bit_vector);

    let pg_xid: Option<u32> = if flags & WAL_CONTAINER_HAS_XACT_INFO != 0 {
        if payload.len() < cursor + WAL_REC_XACT_INFO_LEN {
            return Err(ContainerParseError::TooShort);
        }
        let xid: u32 = read_le_u32(payload, cursor + 8);
        cursor = cursor + WAL_REC_XACT_INFO_LEN;
        Some(xid)
    } else {
        None
    };

    if flags & WAL_CONTAINER_HAS_ORIGIN_INFO != 0 {
        if payload.len() < cursor + WAL_REC_ORIGIN_INFO_LEN {
            return Err(ContainerParseError::TooShort);
        }
        cursor = cursor + WAL_REC_ORIGIN_INFO_LEN;
    }
    Ok(ContainerHeader { wal_version, flags, pg_xid, body_offset: cursor })
}

// --- Body --------------------------------------------------------------------

fn larger_of(prev: Option<u64>, x: u64) -> (r: Option<u64>)
    ensures
        r == larger(prev, Some(x)),
{
    match prev {
        Some(p) => if p >= x {
            Some(p)
        } else {
            Some(x)
        },
        None => Some(x),
    }
}

/// Scans a container body: the largest OXid, and the largest commit sequence
/// number, among the sub-records up to the first that cannot be decoded.
pub fn scan_container_body(body: &[u8]) -> (r: (Option<u64>, Option<u64>))
    ensures
        r.0 == max_oxid(sub_records(body@)),
        r.1 == max_csn(sub_records(body@)),
{
    let mut cursor: usize = 0;
    let mut max_oxid_seen: Option<u64> = None;
    let mut max_csn_seen: Option<u64> = None;
    let ghost mut done: Seq<SubRecord> = Seq::empty();
    assert(body@.skip(0) == body@);
    assert(done + sub_records(body@) == sub_records(body@));
    while cursor < body.len()
        invariant_except_break
            cursor <= body@.len(),
            sub_records(body@) == done + sub_records(body@.skip(cursor as int)),
            max_oxid_seen == max_oxid(done),
            max_csn_seen == max_csn(done),
        ensures
            sub_records(body@) == done,
            max_oxid_seen == max_oxid(done),
            max_csn_seen == max_csn(done),
        decreases body@.len() - cursor,
    {
        let ghost rest = body@.skip(cursor as int);
        let left: usize = body.len() - cursor;
        let rec_type: u8 = body[cursor];
        let consumed: usize;
        let ghost read: SubRecord;
        if rec_type == wal_rec_type::XID && WAL_REC_XID_LEN <= left {
            let oxid: u64 = read_le_u64(body, cursor + WAL_REC_XID_OXID_OFFSET);
            proof {
                read = SubRecord::Xid { oxid };
            }
            max_oxid_seen = larger_of(max_oxid_seen, oxid);
            consumed = WAL_REC_XID_LEN;
        } else if rec_type == wal_rec_type::COMMIT && WAL_REC_FINISH_LEN <= left {
            let csn: u64 = read_le_u64(body, cursor + WAL_REC_FINISH_CSN_OFFSET);
            proof {
                read = SubRecord::Commit { csn };
            }
            max_csn_seen = larger_of(max_csn_seen, csn);
            consumed = WAL_REC_FINISH_LEN;
        } else if rec_type == wal_rec_type::ROLLBACK && WAL_REC_FINISH_LEN <= left {
            // The csn field of a rollback is no sequence number that was handed out.
            proof {
                read = SubRecord::Rollback;
            }
            consumed = WAL_REC_FINISH_LEN;
        } else if rec_type == wal_rec_type::JOINT_COMMIT && WAL_REC_JOINT_COMMIT_LEN <= left {
            let csn: u64 = read_le_u64(body, cursor + WAL_REC_JOINT_COMMIT_CSN_OFFSET);
            proof {
                read = SubRecord::JointCommit { csn };
            }
            max_csn_seen = larger_of(max_csn_seen, csn);
            consumed = WAL_REC_JOINT_COMMIT_LEN;
        } else {
            assert(first_sub_record(rest) is None);
            assert(done + sub_records(rest) == done);
            break;
        }
        proof {
            assert(first_sub_record(rest) == Some(read));
            assert(rest.skip(consumed as int) == body@.skip(cursor + consumed));
            assert(done.push(read) + sub_records(rest.skip(consumed as int)) == done + (seq![read]
                + sub_records(rest.skip(consumed as int))));
            assert(done.push(read).drop_last() == done);
            done = done.push(read);
        }
        cursor = cursor + consumed;
    }
    proof {
        assert(done + Seq::<SubRecord>::empty() == done);
    }
    (max_oxid_seen, max_csn_seen)
}

/// Decodes a container payload into what a summary needs of it.
///
/// A malformed payload gives the delta that carries nothing, so that decoding
/// never halts ingest.
pub fn decode_container_for_summary(payload: &[u8]) -> (r: OrioleDbRecordDelta)
    ensures
        r == delta_of(payload@),
{
    match parse_container_header(payload) {
        Ok(header) => {
            let body = slice_subrange(payload, header.body_offset, payload.len());
            assert(body@ == body_of(payload@));
            let (max_oxid_seen, max_csn_seen) = scan_container_body(body);
            OrioleDbRecordDelta {
                pg_xid: header.pg_xid,
                max_oxid_in_body: max_oxid_seen,
                max_csn_in_body: max_csn_seen,
            }
        },
        Err(_) => OrioleDbRecordDelta::default(),
    }
}

// --- Laws --------------------------------------------------------------------

/// Number of bytes that the decodable sub-records at the start of a body take.
pub open spec fn decoded_len(body: Seq<u8>) -> int
    decreases body.len(),
{
    match first_sub_record(body) {
        Some(r) => r.size() + decoded_len(body.skip(r.size())),
        None => 0,
    }
}

/// A body that is whole sub-records through and through is scanned to its end,
/// and what follows it is scanned as if it stood alone.
pub proof fn law_scan_is_sequential(body: Seq<u8>, rest: Seq<u8>)
    requires
        decoded_len(body) == body.len(),
    ensures
        sub_records(body + rest) == sub_records(body) + sub_records(rest),
    decreases body.len(),
{
    match first_sub_record(body) {
        Some(r) => {
            let n = r.size();
            assert(first_sub_record(body + rest) == Some(r));
            assert((body + rest).skip(n) == body.skip(n) + rest);
            law_scan_is_sequential(body.skip(n), rest);
            assert(sub_records(body + rest) == sub_records(body) + sub_records(rest));
        },
        None => {
            assert(body + rest == rest);
            assert(sub_records(body) + sub_records(rest) == sub_records(rest));
        },
    }
}

/// Bytes behind the first sub-record that cannot be decoded do not count.
pub proof fn law_scan_stops_at_unknown(body: Seq<u8>, rest: Seq<u8>)
    requires
        decoded_len(body) == body.len(),
        first_sub_record(rest) is None,
    ensures
        sub_records(body + rest) == sub_records(body),
{
    law_scan_is_sequential(body, rest);
    assert(sub_records(body) + sub_records(rest) == sub_records(body));
}

/// The scanned OXid is one that a sub-record names, and no sub-record names a
/// larger one; there is none exactly where no sub-record names any.
pub proof fn law_max_oxid(records: Seq<SubRecord>)
    ensures
        match max_oxid(records) {
            Some(m) => {
                &&& exists|i: int| 0 <= i < records.len() && #[trigger] records[i].oxid() == Some(m)
                &&& forall|i: int|
                    0 <= i < records.len() ==> ((#[trigger] records[i].oxid()) matches Some(x) ==> x
                        <= m)
            },
            None => forall|i: int| 0 <= i < records.len() ==> #[trigger] records[i].oxid() is None,
        },
    decreases records.len(),
{
    if records.len() > 0 {
        let init = records.drop_last();
        law_max_oxid(init);
        assert(forall|i: int| 0 <= i < init.len() ==> init[i] == records[i]);
        if max_oxid(records) == max_oxid(init) && max_oxid(init) is Some {
            let m = max_oxid(init).unwrap();
            let i = choose|i: int| 0 <= i < init.len() && #[trigger] init[i].oxid() == Some(m);
            assert(records[i].oxid() == Some(m));
        } else {
            assert(records[records.len() - 1].oxid() == max_oxid(records));
        }
    }
}

/// The scanned sequence number is one that a COMMIT or JOINT_COMMIT hands out,
/// and none hands out a larger one; there is none exactly where no sub-record
/// hands out any. A ROLLBACK hands out none.
pub proof fn law_max_csn(records: Seq<SubRecord>)
    ensures
        match max_csn(records) {
            Some(m) => {
                &&& exists|i: int| 0 <= i < records.len() && #[trigger] records[i].csn() == Some(m)
                &&& forall|i: int|
                    0 <= i < records.len() ==> ((#[trigger] records[i].csn()) matches Some(x) ==> x
                        <= m)
            },
            None => forall|i: int| 0 <= i < records.len() ==> #[trigger] records[i].csn() is None,
        },
        forall|i: int|
            0 <= i < records.len() && records[i] is Rollback ==> (
            #[trigger] records[i].csn()) is None,
    decreases records.len(),
{
    if records.len() > 0 {
        let init = records.drop_last();
        law_max_csn(init);
        assert(forall|i: int| 0 <= i < init.len() ==> init[i] == records[i]);
        if max_csn(records) == max_csn(init) && max_csn(init) is Some {
            let m = max_csn(init).unwrap();
            let i = choose|i: int| 0 <= i < init.len() && #[trigger] init[i].csn() == Some(m);
            assert(records[i].csn() == Some(m));
        } else {
            assert(records[records.len() - 1].csn() == max_csn(records));
        }
    }
}

/// A rollback in a body leaves both maxima as they are without it.
pub proof fn law_rollback_contributes_nothing(before: Seq<SubRecord>, after: Seq<SubRecord>)
    ensures
        max_oxid(before.push(SubRecord::Rollback) + after) == max_oxid(before + after),
        max_csn(before.push(SubRecord::Rollback) + after) == max_csn(before + after),
    decreases after.len(),
{
    let with = before.push(SubRecord::Rollback) + after;
    let without = before + after;
    if after.len() == 0 {
        assert(with.drop_last() == before);
        assert(without == before);
    } else {
        law_rollback_contributes_nothing(before, after.drop_last());
        assert(with.drop_last() == before.push(SubRecord::Rollback) + after.drop_last());
        assert(without.drop_last() == before + after.drop_last());
    }
}

// --- Written records ---------------------------------------------------------

/// A sub-record as the engine writes it, with all its fields.
pub enum WrittenRecord {
    Xid { oxid: u64, logical_xid: u32, heap_xid: u32 },
    Commit { xmin: u64, csn: u64 },
    Rollback { xmin: u64, csn: u64 },
    JointCommit { xid: u32, xmin: u64, csn: u64 },
}

impl WrittenRecord {
    /// The bytes that are written.
    pub open spec fn bytes(self) -> Seq<u8> {
        match self {
            WrittenRecord::Xid { oxid, logical_xid, heap_xid } => seq![1u8] + wire::le_u64_bytes(
                oxid as int,
            ) + wire::le_u32_bytes(logical_xid as int) + wire::le_u32_bytes(heap_xid as int),
            WrittenRecord::Commit { xmin, csn } => seq![2u8] + wire::le_u64_bytes(xmin as int)
                + wire::le_u64_bytes(csn as int),
            WrittenRecord::Rollback { xmin, csn } => seq![3u8] + wire::le_u64_bytes(xmin as int)
                + wire::le_u64_bytes(csn as int),
            WrittenRecord::JointCommit { xid, xmin, csn } => seq![12u8] + wire::le_u32_bytes(
                xid as int,
            ) + wire::le_u64_bytes(xmin as int) + wire::le_u64_bytes(csn as int),
        }
    }
}

/// The bytes of some sub-records, one behind the other.
pub open spec fn written(records: Seq<WrittenRecord>) -> Seq<u8>
    decreases records.len(),
{
    if records.len() == 0 {
        Seq::empty()
    } else {
        records[0].bytes() + written(records.skip(1))
    }
}

/// Bytes that do not start with a whole sub-record of a type that is decoded.
pub open spec fn unreadable(tail: Seq<u8>) -> bool {
    ||| tail.len() == 0
    ||| tail[0] != 1 && tail[0] != 2 && tail[0] != 3 && tail[0] != 12
    ||| tail[0] == 12 && tail.len() < 21
    ||| tail.len() < 17
}

/// A sub-record that was written reads back, whatever its other fields and the
/// bytes behind it hold.
pub proof fn law_written_sub_record_reads_back(r: WrittenRecord, rest: Seq<u8>)
    ensures
        ({
            let read = match r {
                WrittenRecord::Xid { oxid, .. } => SubRecord::Xid { oxid },
                WrittenRecord::Commit { csn, .. } => SubRecord::Commit { csn },
                WrittenRecord::Rollback { .. } => SubRecord::Rollback,
                WrittenRecord::JointCommit { csn, .. } => SubRecord::JointCommit { csn },
            };
            sub_records(r.bytes() + rest) == seq![read] + sub_records(rest)
        }),
        r.bytes().len() == (if r is JointCommit {
            21
        } else {
            17int
        }),
{
    let body = r.bytes() + rest;
    let n = r.bytes().len() as int;
    match r {
        WrittenRecord::Xid { oxid, logical_xid, heap_xid } => {
            let tail = wire::le_u32_bytes(logical_xid as int) + wire::le_u32_bytes(heap_xid as int)
                + rest;
            wire::law_bytes_spell_the_number(seq![1u8], tail, oxid as int);
            assert(body =~= seq![1u8] + wire::le_u64_bytes(oxid as int) + tail);
        },
        WrittenRecord::Commit { xmin, csn } => {
            let head = seq![2u8] + wire::le_u64_bytes(xmin as int);
            wire::law_bytes_spell_the_number(head, rest, csn as int);
            assert(body =~= head + wire::le_u64_bytes(csn as int) + rest);
        },
        WrittenRecord::Rollback { .. } => {},
        WrittenRecord::JointCommit { xid, xmin, csn } => {
            let head = seq![12u8] + wire::le_u32_bytes(xid as int) + wire::le_u64_bytes(
                xmin as int,
            );
            wire::law_bytes_spell_the_number(head, rest, csn as int);
            assert(body =~= head + wire::le_u64_bytes(csn as int) + rest);
        },
    }
    assert(body.skip(n) =~= rest);
}

/// Nothing is read of bytes that do not start with a whole known sub-record.
pub proof fn law_unreadable_bytes_give_nothing(tail: Seq<u8>)
    requires
        unreadable(tail),
    ensures
        sub_records(tail).len() == 0,
{
}

/// What the scan reads of written sub-records is what was written, one for one.
proof fn lemma_scan_of_written(records: Seq<WrittenRecord>, tail: Seq<u8>)
    requires
        unreadable(tail),
    ensures
        sub_records(written(records) + tail).len() == records.len(),
        forall|i: int|
            0 <= i < records.len() ==> (#[trigger] sub_records(written(records) + tail)[i]).oxid()
                == (match records[i] {
                WrittenRecord::Xid { oxid, .. } => Some(oxid),
                _ => None,
            }) && sub_records(written(records) + tail)[i].csn() == (match records[i] {
                WrittenRecord::Commit { csn, .. } => Some(csn),
                WrittenRecord::JointCommit { csn, .. } => Some(csn),
                _ => None,
            }),
    decreases records.len(),
{
    let body = written(records) + tail;
    if records.len() == 0 {
        assert(body =~= tail);
        law_unreadable_bytes_give_nothing(tail);
    } else {
        let rest = records.skip(1);
        let after = written(rest) + tail;
        assert(body =~= records[0].bytes() + after);
        law_written_sub_record_reads_back(records[0], after);
        lemma_scan_of_written(rest, tail);
        assert forall|i: int| 0 <= i < records.len() implies (#[trigger] sub_records(
            body,
        )[i]).oxid() == (match records[i] {
            WrittenRecord::Xid { oxid, .. } => Some(oxid),
            _ => None,
        }) && sub_records(body)[i].csn() == (match records[i] {
            WrittenRecord::Commit { csn, .. } => Some(csn),
            WrittenRecord::JointCommit { csn, .. } => Some(csn),
            _ => None,
        }) by {
            if i > 0 {
                assert(sub_records(body)[i] == sub_records(after)[i - 1]);
                assert(rest[i - 1] == records[i]);
            }
        }
    }
}

/// The OXid that is scanned of a body is the largest that was written in an XID
/// sub-record, whatever follows that cannot be read; there is one exactly where
/// an XID sub-record was written.
pub proof fn law_scan_finds_largest_oxid(records: Seq<WrittenRecord>, tail: Seq<u8>)
    requires
        unreadable(tail),
    ensures
        match max_oxid(sub_records(written(records) + tail)) {
            Some(m) => {
                &&& exists|i: int|
                    0 <= i < records.len() && ((#[trigger] records[i]) matches WrittenRecord::Xid {
                        oxid,
                        ..
                    } && oxid == m)
                &&& forall|i: int|
                    0 <= i < records.len() ==> ((#[trigger] records[i]) matches WrittenRecord::Xid {
                        oxid,
                        ..
                    } ==> oxid <= m)
            },
            None => forall|i: int| 0 <= i < records.len() ==> !(#[trigger] records[i] is Xid),
        },
{
    let subs = sub_records(written(records) + tail);
    lemma_scan_of_written(records, tail);
    law_max_oxid(subs);
    match max_oxid(subs) {
        Some(m) => {
            let i = choose|i: int| 0 <= i < subs.len() && #[trigger] subs[i].oxid() == Some(m);
            assert(records[i] matches WrittenRecord::Xid { oxid, .. } && oxid == m);
            assert forall|i: int| 0 <= i < records.len() implies ((#[trigger] records[i]) matches
            WrittenRecord::Xid { oxid, .. } ==> oxid <= m) by {
                assert(subs[i].oxid() matches Some(x) ==> x <= m);
            }
        },
        None => {
            assert forall|i: int| 0 <= i < records.len() implies !(
            #[trigger] records[i] is Xid) by {
                assert(subs[i].oxid() is None);
            }
        },
    }
}

/// The commit sequence number that is scanned of a body is the largest that was
/// written in a COMMIT or JOINT_COMMIT sub-record; there is one exactly where
/// one of these was written.
pub proof fn law_scan_finds_largest_csn(records: Seq<WrittenRecord>, tail: Seq<u8>)
    requires
        unreadable(tail),
    ensures
        match max_csn(sub_records(written(records) + tail)) {
            Some(m) => {
                &&& exists|i: int|
                    0 <= i < records.len() && (((#[trigger] records[i]) matches
                    WrittenRecord::Commit { csn, .. } && csn == m) || (records[i] matches
                    WrittenRecord::JointCommit { csn, .. } && csn == m))
                &&& forall|i: int|
                    0 <= i < records.len() ==> ((#[trigger] records[i]) matches
                    WrittenRecord::Commit { csn, .. } ==> csn <= m) && (records[i] matches
                    WrittenRecord::JointCommit { csn, .. } ==> csn <= m)
            },
            None => forall|i: int|
                0 <= i < records.len() ==> !(#[trigger] records[i] is Commit) && !(
                records[i] is JointCommit),
        },
{
    let subs = sub_records(written(records) + tail);
    lemma_scan_of_written(records, tail);
    law_max_csn(subs);
    match max_csn(subs) {
        Some(m) => {
            let i = choose|i: int| 0 <= i < subs.len() && #[trigger] subs[i].csn() == Some(m);
            assert((records[i] matches WrittenRecord::Commit { csn, .. } && csn == m) || (
            records[i] matches WrittenRecord::JointCommit { csn, .. } && csn == m));
            assert forall|i: int| 0 <= i < records.len() implies ((#[trigger] records[i]) matches
            WrittenRecord::Commit { csn, .. } ==> csn <= m) && (records[i] matches
            WrittenRecord::JointCommit { csn, .. } ==> csn <= m) by {
                assert(subs[i].csn() matches Some(x) ==> x <= m);
            }
        },
        None => {
            assert forall|i: int| 0 <= i < records.len() implies !(#[trigger] records[i] is Commit)
                && !(records[i] is JointCommit) by {
                assert(subs[i].csn() is None);
            }
        },
    }
}

/// The header that is written for these fields.
pub open spec fn written_header(
    wal_version: u16,
    flags: u8,
    xact_time: u64,
    xid: u32,
    origin_id: u16,
    origin_lsn: u64,
) -> Seq<u8> {
    wire::le_u16_bytes(wal_version as int) + seq![flags] + (if flags % 2 == 1 {
        wire::le_u64_bytes(xact_time as int) + wire::le_u32_bytes(xid as int)
    } else {
        Seq::empty()
    }) + (if (flags / 2) % 2 == 1 {
        wire::le_u16_bytes(origin_id as int) + wire::le_u64_bytes(origin_lsn as int)
    } else {
        Seq::empty()
    })
}

/// A header that was written reads back, and what stands behind it is the body.
/// The delta of such a payload has the transaction id of the header and the
/// maxima of the body.
pub proof fn law_written_header_reads_back(
    wal_version: u16,
    flags: u8,
    xact_time: u64,
    xid: u32,
    origin_id: u16,
    origin_lsn: u64,
    body: Seq<u8>,
)
    ensures
        ({
            let header = written_header(wal_version, flags, xact_time, xid, origin_id, origin_lsn);
            let payload = header + body;
            let pg_xid = if flags % 2 == 1 {
                Some(xid)
            } else {
                None
            };
            &&& header_fits(payload)
            &&& header_of(payload).wal_version == wal_version
            &&& header_of(payload).flags == flags
            &&& header_of(payload).pg_xid == pg_xid
            &&& header_of(payload).body_offset == header.len()
            &&& body_of(payload) == body
            &&& delta_of(payload).pg_xid == pg_xid
            &&& delta_of(payload).max_oxid_in_body == max_oxid(sub_records(body))
            &&& delta_of(payload).max_csn_in_body == max_csn(sub_records(body))
        }),
{
    let header = written_header(wal_version, flags, xact_time, xid, origin_id, origin_lsn);
    let payload = header + body;
    let v = wire::le_u16_bytes(wal_version as int);
    let x = wire::le_u64_bytes(xact_time as int) + wire::le_u32_bytes(xid as int);
    let o = wire::le_u16_bytes(origin_id as int) + wire::le_u64_bytes(origin_lsn as int);
    wire::law_bytes_spell_the_number(Seq::empty(), payload.skip(2), wal_version as int);
    assert(payload =~= Seq::<u8>::empty() + v + payload.skip(2));
    assert(payload[2] == flags);
    if flags % 2 == 1 {
        let head = v + seq![flags] + wire::le_u64_bytes(xact_time as int);
        wire::law_bytes_spell_the_number(head, payload.skip(15), xid as int);
        assert(payload =~= head + wire::le_u32_bytes(xid as int) + payload.skip(15));
    }
    assert(header.len() == header_len(flags));
    assert(payload.skip(header.len() as int) =~= body);
}

/// A payload that ends within its header is refused, and contributes nothing.
pub proof fn law_cut_off_header_is_refused(
    wal_version: u16,
    flags: u8,
    xact_time: u64,
    xid: u32,
    origin_id: u16,
    origin_lsn: u64,
    n: int,
)
    requires
        0 <= n < written_header(
            wal_version,
            flags,
            xact_time,
            xid,
            origin_id,
            origin_lsn,
        ).len(),
    ensures
        ({
            let cut = written_header(
                wal_version,
                flags,
                xact_time,
                xid,
                origin_id,
                origin_lsn,
            ).take(n);
            &&& !header_fits(cut)
            &&& delta_of(cut).pg_xid is None
            &&& delta_of(cut).max_oxid_in_body is None
            &&& delta_of(cut).max_csn_in_body is None
        }),
{
    let header = written_header(wal_version, flags, xact_time, xid, origin_id, origin_lsn);
    assert(header[2] == flags);
    assert(header.len() == header_len(flags));
    if n > 2 {
        assert(header.take(n)[2] == flags);
    }
}

} // verus!
