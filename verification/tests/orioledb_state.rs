//! Reading container records, keeping the cold-start summary, and its packed
//! form.
use wal_decoder::orioledb_state::container::WAL_CONTAINER_HAS_ORIGIN_INFO;
use wal_decoder::orioledb_state::container::WAL_CONTAINER_HAS_XACT_INFO;
use wal_decoder::orioledb_state::container::WAL_REC_FINISH_LEN;
use wal_decoder::orioledb_state::container::WAL_REC_JOINT_COMMIT_LEN;
use wal_decoder::orioledb_state::container::WAL_REC_ORIGIN_INFO_LEN;
use wal_decoder::orioledb_state::container::WAL_REC_XACT_INFO_LEN;
use wal_decoder::orioledb_state::container::WAL_REC_XID_LEN;
use wal_decoder::orioledb_state::decode_container_for_summary;
use wal_decoder::orioledb_state::parse_container_header;
use wal_decoder::orioledb_state::scan_container_body;
use wal_decoder::orioledb_state::wal_rec_type;
use wal_decoder::orioledb_state::ContainerParseError;
use wal_decoder::orioledb_state::DecodeError;
use wal_decoder::orioledb_state::IngestError;
use wal_decoder::orioledb_state::OrioleDBColdStartSummary;
use wal_decoder::orioledb_state::OrioleDbRecordDelta;
use wal_decoder::orioledb_state::PendingMerge;
use wal_decoder::orioledb_state::PendingSplit;
use wal_decoder::orioledb_state::PerTreeCounters;
use wal_decoder::orioledb_state::ORIOLEDB_STATE_ENCODED_SIZE;
use wal_decoder::orioledb_state::ORIOLEDB_STATE_MAGIC;
use wal_decoder::orioledb_state::ORIOLEDB_STATE_V2_FIXED_SIZE;
use wal_decoder::orioledb_state::ORIOLEDB_STATE_V3_HEADER_SIZE;
use wal_decoder::orioledb_state::ORIOLEDB_STATE_V3_MAX_ELEMENTS;
use wal_decoder::orioledb_state::ORIOLEDB_STATE_VERSION;
use wal_decoder::orioledb_state::PENDING_MERGE_SIZE;
use wal_decoder::orioledb_state::PENDING_SPLIT_SIZE;
use wal_decoder::orioledb_state::PER_TREE_COUNTERS_SIZE;

fn build_container_payload(
    flags: u8,
    xact_xid: Option<u32>,
    origin: Option<(u16, u64)>,
    body: &[u8],
) -> Vec<u8> {
    let mut out = Vec::with_capacity(32 + body.len());
    out.extend_from_slice(&42u16.to_le_bytes());
    out.push(flags);
    if flags & WAL_CONTAINER_HAS_XACT_INFO != 0 {
        let xid = xact_xid.expect("flag set but no xid provided");
        out.extend_from_slice(&0x1122334455667788u64.to_le_bytes());
        out.extend_from_slice(&xid.to_le_bytes());
    }
    if flags & WAL_CONTAINER_HAS_ORIGIN_INFO != 0 {
        let (origin_id, origin_lsn) = origin.expect("flag set but no origin provided");
        out.extend_from_slice(&origin_id.to_le_bytes());
        out.extend_from_slice(&origin_lsn.to_le_bytes());
    }
    out.extend_from_slice(body);
    out
}

/// Build a `WAL_REC_XID` sub-record body: recType + OXid(8) +
/// logicalXid(4) + heapXid(4) = 17 bytes.
fn wal_rec_xid_bytes(oxid: u64) -> Vec<u8> {
    let mut v = Vec::with_capacity(WAL_REC_XID_LEN);
    v.push(wal_rec_type::XID);
    v.extend_from_slice(&oxid.to_le_bytes());
    v.extend_from_slice(&0u32.to_le_bytes()); // logicalXid
    v.extend_from_slice(&0u32.to_le_bytes()); // heapXid
    v
}

/// Build a `WALRecFinish` sub-record: recType + xmin(8) + csn(8)
/// = 17 bytes. `rec_type` is either COMMIT or ROLLBACK.
fn wal_rec_finish_bytes(rec_type: u8, xmin: u64, csn: u64) -> Vec<u8> {
    let mut v = Vec::with_capacity(WAL_REC_FINISH_LEN);
    v.push(rec_type);
    v.extend_from_slice(&xmin.to_le_bytes());
    v.extend_from_slice(&csn.to_le_bytes());
    v
}

/// Build a `WALRecJointCommit`: recType + xid(4) + xmin(8) +
/// csn(8) = 21 bytes.
fn wal_rec_joint_commit_bytes(xid: u32, xmin: u64, csn: u64) -> Vec<u8> {
    let mut v = Vec::with_capacity(WAL_REC_JOINT_COMMIT_LEN);
    v.push(wal_rec_type::JOINT_COMMIT);
    v.extend_from_slice(&xid.to_le_bytes());
    v.extend_from_slice(&xmin.to_le_bytes());
    v.extend_from_slice(&csn.to_le_bytes());
    v
}

// --- header parser tests ------------------------------------------------

#[test]
fn parse_bare_header() {
    let payload = build_container_payload(0, None, None, &[]);
    let header = parse_container_header(&payload).unwrap();
    assert_eq!(header.wal_version, 42);
    assert_eq!(header.flags, 0);
    assert_eq!(header.pg_xid, None);
    assert_eq!(header.body_offset, 3);
}

#[test]
fn parse_header_with_xact_info_extracts_xid() {
    let payload = build_container_payload(
        WAL_CONTAINER_HAS_XACT_INFO,
        Some(0xDEADBEEF),
        None,
        b"body-bytes",
    );
    let header = parse_container_header(&payload).unwrap();
    assert_eq!(header.pg_xid, Some(0xDEADBEEF));
    assert_eq!(header.body_offset, 3 + WAL_REC_XACT_INFO_LEN);
}

#[test]
fn parse_header_with_xact_and_origin_info() {
    let payload = build_container_payload(
        WAL_CONTAINER_HAS_XACT_INFO | WAL_CONTAINER_HAS_ORIGIN_INFO,
        Some(7),
        Some((3, 0xCAFEBABE_0001_u64)),
        b"body",
    );
    let header = parse_container_header(&payload).unwrap();
    assert_eq!(header.pg_xid, Some(7));
    assert_eq!(
        header.body_offset,
        3 + WAL_REC_XACT_INFO_LEN + WAL_REC_ORIGIN_INFO_LEN
    );
}

#[test]
fn parse_header_truncated_returns_too_short() {
    assert!(matches!(
        parse_container_header(&[0u8, 0u8]),
        Err(ContainerParseError::TooShort)
    ));
    let mut truncated = vec![1u8, 0, WAL_CONTAINER_HAS_XACT_INFO];
    truncated.extend_from_slice(&[0u8; 4]);
    assert!(matches!(
        parse_container_header(&truncated),
        Err(ContainerParseError::TooShort)
    ));
}

// --- body scanner tests -------------------------------------------------

#[test]
fn scan_body_single_xid() {
    let body = wal_rec_xid_bytes(0x1234);
    let (oxid, csn) = scan_container_body(&body);
    assert_eq!(oxid, Some(0x1234));
    assert_eq!(csn, None);
}

#[test]
fn scan_body_commit_extracts_csn() {
    let body = wal_rec_finish_bytes(wal_rec_type::COMMIT, /* xmin */ 1, /* csn */ 0xCC);
    let (oxid, csn) = scan_container_body(&body);
    assert_eq!(oxid, None);
    assert_eq!(csn, Some(0xCC));
}

#[test]
fn scan_body_rollback_does_not_bump_csn() {
    // ROLLBACK carries COMMITSEQNO_ABORTED — must not advance
    // next_csn. Scanner still consumes the record and continues.
    let mut body = wal_rec_finish_bytes(wal_rec_type::ROLLBACK, 1, 0xFFFF_FFFF_FFFF_FFFF);
    body.extend_from_slice(&wal_rec_xid_bytes(7));
    let (oxid, csn) = scan_container_body(&body);
    assert_eq!(csn, None, "ROLLBACK must not contribute to next_csn");
    assert_eq!(oxid, Some(7), "scan continues past ROLLBACK to XID");
}

#[test]
fn scan_body_joint_commit_extracts_csn() {
    let body = wal_rec_joint_commit_bytes(/* xid */ 5, /* xmin */ 2, /* csn */ 0xABCD);
    let (oxid, csn) = scan_container_body(&body);
    assert_eq!(oxid, None);
    assert_eq!(csn, Some(0xABCD));
}

#[test]
fn scan_body_mixed_xid_then_commit() {
    let mut body = wal_rec_xid_bytes(100);
    body.extend_from_slice(&wal_rec_finish_bytes(wal_rec_type::COMMIT, 100, 555));
    let (oxid, csn) = scan_container_body(&body);
    assert_eq!(oxid, Some(100));
    assert_eq!(csn, Some(555));
}

#[test]
fn scan_body_tracks_max_across_multiple_records() {
    let mut body = wal_rec_xid_bytes(10);
    body.extend_from_slice(&wal_rec_finish_bytes(wal_rec_type::COMMIT, 10, 100));
    body.extend_from_slice(&wal_rec_xid_bytes(50));
    body.extend_from_slice(&wal_rec_finish_bytes(wal_rec_type::COMMIT, 50, 500));
    body.extend_from_slice(&wal_rec_xid_bytes(30));
    body.extend_from_slice(&wal_rec_finish_bytes(wal_rec_type::COMMIT, 30, 300));
    let (oxid, csn) = scan_container_body(&body);
    assert_eq!(oxid, Some(50));
    assert_eq!(csn, Some(500));
}

#[test]
fn scan_body_stops_at_unknown_record() {
    // INSERT (type 5) is not decoded yet — scan stops and returns
    // whatever was extracted up to that point.
    let mut body = wal_rec_xid_bytes(42);
    body.push(wal_rec_type::INSERT);
    body.extend_from_slice(&[0u8; 20]); // garbage — should not be read
    let (oxid, csn) = scan_container_body(&body);
    assert_eq!(oxid, Some(42));
    assert_eq!(csn, None);
}

#[test]
fn scan_body_stops_at_truncation() {
    // XID needs 17 bytes but body gives only recType + 4.
    let body = vec![wal_rec_type::XID, 1, 2, 3, 4];
    let (oxid, csn) = scan_container_body(&body);
    assert_eq!(oxid, None);
    assert_eq!(csn, None);
}

// --- decode_container_for_summary ---------------------------------------

#[test]
fn decode_extracts_pg_xid_oxid_and_csn() {
    let mut body = wal_rec_xid_bytes(0x5555_6666);
    body.extend_from_slice(&wal_rec_finish_bytes(
        wal_rec_type::COMMIT,
        0x5555_6666,
        0xAAAA_BBBB,
    ));
    let payload = build_container_payload(
        WAL_CONTAINER_HAS_XACT_INFO,
        Some(0xABCD),
        None,
        &body,
    );
    let delta = decode_container_for_summary(&payload);
    assert_eq!(delta.pg_xid, Some(0xABCD));
    assert_eq!(delta.max_oxid_in_body, Some(0x5555_6666));
    assert_eq!(delta.max_csn_in_body, Some(0xAAAA_BBBB));
}

#[test]
fn decode_malformed_payload_yields_empty_delta() {
    let delta = decode_container_for_summary(&[0u8]);
    assert_eq!(delta, OrioleDbRecordDelta::default());
}

// --- summary ingest tests -----------------------------------------------

#[test]
fn ingest_delta_updates_next_oxid_monotonically() {
    let mut sum = OrioleDBColdStartSummary::default();
    sum.ingest_delta(
        &OrioleDbRecordDelta {
            pg_xid: None,
            max_oxid_in_body: Some(10),
            max_csn_in_body: None,
        },
        100,
    )
    .unwrap();
    assert_eq!(sum.next_oxid, 11);

    sum.ingest_delta(
        &OrioleDbRecordDelta {
            pg_xid: None,
            max_oxid_in_body: Some(25),
            max_csn_in_body: None,
        },
        200,
    )
    .unwrap();
    assert_eq!(sum.next_oxid, 26);

    // Smaller OXid does NOT regress next_oxid.
    sum.ingest_delta(
        &OrioleDbRecordDelta {
            pg_xid: None,
            max_oxid_in_body: Some(15),
            max_csn_in_body: None,
        },
        300,
    )
    .unwrap();
    assert_eq!(sum.next_oxid, 26);
}

#[test]
fn ingest_delta_updates_next_csn_monotonically() {
    let mut sum = OrioleDBColdStartSummary::default();
    sum.ingest_delta(
        &OrioleDbRecordDelta {
            pg_xid: None,
            max_oxid_in_body: None,
            max_csn_in_body: Some(1000),
        },
        100,
    )
    .unwrap();
    assert_eq!(sum.next_csn, 1001);

    // Larger CSN bumps.
    sum.ingest_delta(
        &OrioleDbRecordDelta {
            pg_xid: None,
            max_oxid_in_body: None,
            max_csn_in_body: Some(5000),
        },
        200,
    )
    .unwrap();
    assert_eq!(sum.next_csn, 5001);

    // Smaller does not regress.
    sum.ingest_delta(
        &OrioleDbRecordDelta {
            pg_xid: None,
            max_oxid_in_body: None,
            max_csn_in_body: Some(2500),
        },
        300,
    )
    .unwrap();
    assert_eq!(sum.next_csn, 5001);
}

#[test]
fn ingest_delta_without_oxid_leaves_next_oxid_unchanged() {
    let mut sum = OrioleDBColdStartSummary::default();
    sum.ingest_delta(
        &OrioleDbRecordDelta {
            pg_xid: Some(77),
            max_oxid_in_body: None,
            max_csn_in_body: None,
        },
        500,
    )
    .unwrap();
    assert_eq!(sum.next_oxid, 0);
    assert_eq!(sum.next_csn, 0);
    assert_eq!(sum.last_pg_xid_seen, 77);
    assert_eq!(sum.ingested_count, 1);
}

#[test]
fn ingest_container_record_round_trip() {
    let mut sum = OrioleDBColdStartSummary::default();
    let mut body = wal_rec_xid_bytes(99);
    body.extend_from_slice(&wal_rec_finish_bytes(wal_rec_type::COMMIT, 99, 7777));
    let payload = build_container_payload(
        WAL_CONTAINER_HAS_XACT_INFO,
        Some(0x1111),
        None,
        &body,
    );
    sum.ingest_container_record(&payload, 1000).unwrap();
    assert_eq!(sum.ingested_count, 1);
    assert_eq!(sum.last_ingested_lsn_raw, 1000);
    assert_eq!(sum.last_pg_xid_seen, 0x1111);
    assert_eq!(sum.next_oxid, 100);
    assert_eq!(sum.next_csn, 7778);
}

#[test]
fn ingest_rejects_non_monotonic_lsn() {
    let mut sum = OrioleDBColdStartSummary::default();
    let payload = build_container_payload(0, None, None, b"");
    sum.ingest_container_record(&payload, 100).unwrap();
    let err = sum
        .ingest_container_record(&payload, 100)
        .expect_err("equal LSN must be rejected");
    assert!(matches!(err, IngestError::NonMonotonicLsn { .. }));
    let err = sum
        .ingest_container_record(&payload, 50)
        .expect_err("earlier LSN must be rejected");
    assert!(matches!(err, IngestError::NonMonotonicLsn { .. }));
    assert_eq!(sum.ingested_count, 1);
    assert_eq!(sum.last_ingested_lsn_raw, 100);
}

#[test]
fn ingest_surfaces_parse_error() {
    let mut sum = OrioleDBColdStartSummary::default();
    let err = sum
        .ingest_container_record(&[0u8], 10)
        .expect_err("too-short payload must error");
    assert!(matches!(err, IngestError::Parse(ContainerParseError::TooShort)));
}

// --- packed wire format -------------------------------------------------

#[test]
fn packed_default_matches_expected_bytes() {
    let sum = OrioleDBColdStartSummary::default();
    let bytes = sum.encode_packed();
    // Default summary has empty dynamic section, so total size is
    // exactly the v3 fixed header.
    assert_eq!(bytes.len(), ORIOLEDB_STATE_V3_HEADER_SIZE);
    assert_eq!(
        u32::from_le_bytes(bytes[0..4].try_into().unwrap()),
        ORIOLEDB_STATE_MAGIC
    );
    assert_eq!(
        u32::from_le_bytes(bytes[4..8].try_into().unwrap()),
        ORIOLEDB_STATE_VERSION
    );
    // All data fields are zero in a default summary.
    assert_eq!(&bytes[8..40], &[0u8; 32]);
    // v3 counts header — all zero since dynamic section is empty.
    assert_eq!(&bytes[48..64], &[0u8; 16]);
}

#[test]
fn packed_roundtrip_preserves_fields() {
    let mut sum = OrioleDBColdStartSummary::default();
    sum.next_oxid = 0x0102_0304_0506_0708;
    sum.last_pg_xid_seen = 0xDEADBEEF;
    sum.last_ingested_lsn_raw = 0x1122_3344_5566_7788;
    sum.ingested_count = 42;
    sum.next_csn = 0x9999_AAAA_BBBB_CCCC;

    let encoded = sum.encode_packed();
    assert_eq!(encoded.len(), ORIOLEDB_STATE_V3_HEADER_SIZE);
    let decoded = OrioleDBColdStartSummary::decode_packed(&encoded).unwrap();
    assert_eq!(decoded, sum);
}

#[test]
fn packed_v3_has_next_csn_at_offset_40() {
    let mut sum = OrioleDBColdStartSummary::default();
    sum.next_csn = 0x0123_4567_89AB_CDEF;
    let bytes = sum.encode_packed();
    assert_eq!(
        u64::from_le_bytes(bytes[40..48].try_into().unwrap()),
        0x0123_4567_89AB_CDEF
    );
}

#[test]
fn packed_decode_rejects_bad_magic() {
    let mut bytes = [0u8; ORIOLEDB_STATE_V3_HEADER_SIZE];
    bytes[0..4].copy_from_slice(&0xBAD0_BAD0_u32.to_le_bytes());
    assert!(matches!(
        OrioleDBColdStartSummary::decode_packed(&bytes),
        Err(DecodeError::BadMagic(_))
    ));
}

#[test]
fn packed_decode_rejects_unsupported_version() {
    let mut sum = OrioleDBColdStartSummary::default();
    sum.next_oxid = 7;
    let mut bytes = sum.encode_packed();
    // Write a future version.
    bytes[4..8].copy_from_slice(&99u32.to_le_bytes());
    assert!(matches!(
        OrioleDBColdStartSummary::decode_packed(&bytes),
        Err(DecodeError::UnsupportedVersion(99))
    ));
}

#[test]
fn packed_decode_rejects_truncated_input() {
    assert!(matches!(
        OrioleDBColdStartSummary::decode_packed(&[]),
        Err(DecodeError::TooShort)
    ));
    assert!(matches!(
        OrioleDBColdStartSummary::decode_packed(&[0u8; 10]),
        Err(DecodeError::TooShort)
    ));
}

// --- v3 dynamic-section round-trip --------------------------------------

#[test]
fn packed_v3_with_per_tree_round_trips() {
    let mut sum = OrioleDBColdStartSummary::default();
    sum.next_oxid = 100;
    sum.next_csn = 200;
    sum.per_tree.push(PerTreeCounters {
        tree_id: 0xAAAA_BBBB_CCCC_DDDD,
        ctid: 0x1111_2222_3333_4444,
        bridge_ctid: 0x0000_0000_0001_0001,
        num_free_blocks: 500,
        leaf_pages_num: 7,
        datafile_length: [4096, 8192],
        undo_location: 0x9999_8888_7777_6666,
    });
    sum.per_tree.push(PerTreeCounters {
        tree_id: 0xFFFF_EEEE_DDDD_CCCC,
        ctid: 9999,
        ..Default::default()
    });

    let encoded = sum.encode_packed();
    let expected_size =
        ORIOLEDB_STATE_V3_HEADER_SIZE + 2 * PER_TREE_COUNTERS_SIZE;
    assert_eq!(encoded.len(), expected_size);

    let decoded = OrioleDBColdStartSummary::decode_packed(&encoded).unwrap();
    assert_eq!(decoded, sum);
}

#[test]
fn packed_v3_with_pending_splits_round_trips() {
    let mut sum = OrioleDBColdStartSummary::default();
    sum.pending_splits.push(PendingSplit {
        tree_id: 0x1234_5678_9ABC_DEF0,
        left_blkno: 100,
        right_blkno: 101,
        child_hikey_lsn: 0xDEAD_BEEF_CAFE_BABE,
        child_hikey_offset: 42,
        _reserved: 0,
    });
    sum.pending_splits.push(PendingSplit {
        tree_id: 0x1234_5678_9ABC_DEF0,
        left_blkno: 102,
        right_blkno: 103,
        child_hikey_lsn: 0xDEAD_BEEF_CAFE_BABF,
        child_hikey_offset: 0,
        _reserved: 0,
    });

    let encoded = sum.encode_packed();
    let expected_size =
        ORIOLEDB_STATE_V3_HEADER_SIZE + 2 * PENDING_SPLIT_SIZE;
    assert_eq!(encoded.len(), expected_size);

    let decoded = OrioleDBColdStartSummary::decode_packed(&encoded).unwrap();
    assert_eq!(decoded, sum);
}

#[test]
fn packed_v3_with_pending_merges_round_trips() {
    let mut sum = OrioleDBColdStartSummary::default();
    sum.pending_merges.push(PendingMerge {
        tree_id: 0xCAFE_BABE_DEAD_BEEF,
        left_blkno: 50,
        parent_blkno: 1,
        merge_lsn: 0x1234_5678_9ABC_DEF0,
    });

    let encoded = sum.encode_packed();
    let expected_size = ORIOLEDB_STATE_V3_HEADER_SIZE + PENDING_MERGE_SIZE;
    assert_eq!(encoded.len(), expected_size);

    let decoded = OrioleDBColdStartSummary::decode_packed(&encoded).unwrap();
    assert_eq!(decoded, sum);
}

#[test]
fn packed_v3_with_all_sections_round_trips() {
    let mut sum = OrioleDBColdStartSummary::default();
    sum.next_oxid = 1_000_000;
    sum.next_csn = 2_000_000;
    sum.last_pg_xid_seen = 0x12345;
    sum.last_ingested_lsn_raw = 0xABCD_EF01_2345_6789;
    sum.ingested_count = 1024;

    for i in 0..3 {
        sum.per_tree.push(PerTreeCounters {
            tree_id: 0x1000 + i as u64,
            ctid: 100 * (i + 1) as u64,
            bridge_ctid: 50 * (i + 1) as u64,
            num_free_blocks: 200,
            leaf_pages_num: 5 * (i + 1) as u64,
            datafile_length: [1024 * (i + 1) as u64, 2048 * (i + 1) as u64],
            undo_location: 0xFFFF + i as u64,
        });
    }
    sum.pending_splits.push(PendingSplit {
        tree_id: 0x1000,
        left_blkno: 1,
        right_blkno: 2,
        child_hikey_lsn: 100,
        child_hikey_offset: 0,
        _reserved: 0,
    });
    sum.pending_merges.push(PendingMerge {
        tree_id: 0x1001,
        left_blkno: 3,
        parent_blkno: 4,
        merge_lsn: 200,
    });

    let encoded = sum.encode_packed();
    let expected_size = ORIOLEDB_STATE_V3_HEADER_SIZE
        + 3 * PER_TREE_COUNTERS_SIZE
        + PENDING_SPLIT_SIZE
        + PENDING_MERGE_SIZE;
    assert_eq!(encoded.len(), expected_size);

    let decoded = OrioleDBColdStartSummary::decode_packed(&encoded).unwrap();
    assert_eq!(decoded, sum);
}

#[test]
fn packed_v3_decodes_legacy_v2_blob() {
    // Hand-craft a v2 blob (48 bytes, version=2) and decode it with v3
    // reader. Result should be a v3 summary with empty dynamic sections.
    let mut bytes = vec![0u8; ORIOLEDB_STATE_V2_FIXED_SIZE];
    bytes[0..4].copy_from_slice(&ORIOLEDB_STATE_MAGIC.to_le_bytes());
    bytes[4..8].copy_from_slice(&2u32.to_le_bytes());
    bytes[8..16].copy_from_slice(&0xAAAA_u64.to_le_bytes());
    bytes[16..20].copy_from_slice(&0xBBBB_u32.to_le_bytes());
    bytes[24..32].copy_from_slice(&0xCCCC_u64.to_le_bytes());
    bytes[32..40].copy_from_slice(&0xDDDD_u64.to_le_bytes());
    bytes[40..48].copy_from_slice(&0xEEEE_u64.to_le_bytes());

    let decoded = OrioleDBColdStartSummary::decode_packed(&bytes).unwrap();
    assert_eq!(decoded.next_oxid, 0xAAAA);
    assert_eq!(decoded.last_pg_xid_seen, 0xBBBB);
    assert_eq!(decoded.last_ingested_lsn_raw, 0xCCCC);
    assert_eq!(decoded.ingested_count, 0xDDDD);
    assert_eq!(decoded.next_csn, 0xEEEE);
    assert!(decoded.per_tree.is_empty());
    assert!(decoded.pending_splits.is_empty());
    assert!(decoded.pending_merges.is_empty());
}

#[test]
fn packed_v3_rejects_too_many_elements() {
    let mut bytes = vec![0u8; ORIOLEDB_STATE_V3_HEADER_SIZE];
    bytes[0..4].copy_from_slice(&ORIOLEDB_STATE_MAGIC.to_le_bytes());
    bytes[4..8].copy_from_slice(&3u32.to_le_bytes());
    // Set tree_count past the safety bound.
    let huge = ORIOLEDB_STATE_V3_MAX_ELEMENTS + 1;
    bytes[48..52].copy_from_slice(&huge.to_le_bytes());
    assert!(matches!(
        OrioleDBColdStartSummary::decode_packed(&bytes),
        Err(DecodeError::TooManyElements(_))
    ));
}

#[test]
fn packed_v3_rejects_truncated_dynamic_section() {
    // Header claims 5 trees but body is too short to contain them.
    let mut bytes = vec![0u8; ORIOLEDB_STATE_V3_HEADER_SIZE];
    bytes[0..4].copy_from_slice(&ORIOLEDB_STATE_MAGIC.to_le_bytes());
    bytes[4..8].copy_from_slice(&3u32.to_le_bytes());
    bytes[48..52].copy_from_slice(&5u32.to_le_bytes());
    assert!(matches!(
        OrioleDBColdStartSummary::decode_packed(&bytes),
        Err(DecodeError::TooShort)
    ));
}

// --- more of the same ---------------------------------------------------------

fn delta(pg_xid: Option<u32>, oxid: Option<u64>, csn: Option<u64>) -> OrioleDbRecordDelta {
    OrioleDbRecordDelta {
        pg_xid,
        max_oxid_in_body: oxid,
        max_csn_in_body: csn,
    }
}

fn sample_summary() -> OrioleDBColdStartSummary {
    let mut sum = OrioleDBColdStartSummary::default();
    sum.next_oxid = 0x0102_0304_0506_0708;
    sum.last_pg_xid_seen = 0x1122_3344;
    sum.last_ingested_lsn_raw = 0xA1A2_A3A4_A5A6_A7A8;
    sum.ingested_count = 9;
    sum.next_csn = 77;
    sum.per_tree.push(PerTreeCounters {
        tree_id: 1,
        ctid: 2,
        bridge_ctid: 3,
        num_free_blocks: 4,
        leaf_pages_num: 5,
        datafile_length: [6, 7],
        undo_location: 8,
    });
    sum.pending_splits.push(PendingSplit {
        tree_id: 11,
        left_blkno: 12,
        right_blkno: 13,
        child_hikey_lsn: 14,
        child_hikey_offset: 15,
        _reserved: 16,
    });
    sum.pending_merges.push(PendingMerge {
        tree_id: 21,
        left_blkno: 22,
        parent_blkno: 23,
        merge_lsn: 24,
    });
    sum
}

#[test]
fn header_with_origin_only_has_no_xid() {
    let payload = build_container_payload(WAL_CONTAINER_HAS_ORIGIN_INFO, None, Some((1, 2)), b"");
    let header = parse_container_header(&payload).unwrap();
    assert_eq!(header.wal_version, 42);
    assert_eq!(header.flags, WAL_CONTAINER_HAS_ORIGIN_INFO);
    assert_eq!(header.pg_xid, None);
    assert_eq!(header.body_offset, 13);
    assert_eq!(
        parse_container_header(&payload[..12]),
        Err(ContainerParseError::TooShort)
    );
}

#[test]
fn header_reads_version_and_xid_little_endian() {
    let mut payload = vec![0x34u8, 0x12, WAL_CONTAINER_HAS_XACT_INFO];
    payload.extend_from_slice(&[0xFF; 8]);
    payload.extend_from_slice(&[0x78, 0x56, 0x34, 0x12]);
    let header = parse_container_header(&payload).unwrap();
    assert_eq!(header.wal_version, 0x1234);
    assert_eq!(header.pg_xid, Some(0x1234_5678));
    assert_eq!(header.body_offset, 15);
}

#[test]
fn scan_of_nothing_finds_nothing() {
    assert_eq!(scan_container_body(&[]), (None, None));
}

#[test]
fn scan_is_sequential() {
    let first = wal_rec_xid_bytes(10);
    let second = wal_rec_finish_bytes(wal_rec_type::COMMIT, 0, 20);
    let mut both = first.clone();
    both.extend_from_slice(&second);
    assert_eq!(scan_container_body(&first), (Some(10), None));
    assert_eq!(scan_container_body(&second), (None, Some(20)));
    assert_eq!(scan_container_body(&both), (Some(10), Some(20)));
}

#[test]
fn scan_ignores_what_follows_an_unknown_record() {
    let mut body = vec![wal_rec_type::INSERT];
    body.extend_from_slice(&wal_rec_xid_bytes(5));
    assert_eq!(scan_container_body(&body), (None, None));
}

#[test]
fn scan_keeps_zero_as_a_number_seen() {
    assert_eq!(scan_container_body(&wal_rec_xid_bytes(0)), (Some(0), None));
}

#[test]
fn counters_saturate() {
    let mut sum = OrioleDBColdStartSummary::default();
    sum.ingest_delta(&delta(None, Some(u64::MAX), Some(u64::MAX)), 1)
        .unwrap();
    assert_eq!(sum.next_oxid, u64::MAX);
    assert_eq!(sum.next_csn, u64::MAX);
}

#[test]
fn first_record_may_stand_at_position_zero() {
    let mut sum = OrioleDBColdStartSummary::default();
    sum.ingest_delta(&delta(None, None, None), 0).unwrap();
    assert_eq!(sum.ingested_count, 1);
    assert_eq!(
        sum.ingest_delta(&delta(None, None, None), 0),
        Err(IngestError::NonMonotonicLsn {
            previous: 0,
            attempted: 0
        })
    );
}

#[test]
fn refused_records_change_nothing() {
    let mut sum = OrioleDBColdStartSummary::default();
    sum.ingest_delta(&delta(Some(1), Some(2), Some(3)), 100)
        .unwrap();
    let before = sum.clone();
    assert_eq!(
        sum.ingest_delta(&delta(Some(9), Some(9), Some(9)), 100),
        Err(IngestError::NonMonotonicLsn {
            previous: 100,
            attempted: 100
        })
    );
    assert_eq!(sum, before);
    assert_eq!(
        sum.ingest_container_record(&[0u8], 200),
        Err(IngestError::Parse(ContainerParseError::TooShort))
    );
    assert_eq!(sum, before);
}

#[test]
fn order_is_checked_before_the_payload() {
    let mut sum = OrioleDBColdStartSummary::default();
    sum.ingest_delta(&delta(None, None, None), 100).unwrap();
    assert_eq!(
        sum.ingest_container_record(&[0u8], 99),
        Err(IngestError::NonMonotonicLsn {
            previous: 100,
            attempted: 99
        })
    );
}

#[test]
fn parse_error_converts_to_ingest_error() {
    assert_eq!(
        IngestError::from(ContainerParseError::TooShort),
        IngestError::Parse(ContainerParseError::TooShort)
    );
}

#[test]
fn ingest_leaves_the_tree_sections_alone() {
    let mut sum = sample_summary();
    let before = sum.clone();
    sum.ingest_delta(&delta(Some(5), Some(6), Some(7)), u64::MAX)
        .unwrap();
    assert_eq!(sum.per_tree, before.per_tree);
    assert_eq!(sum.pending_splits, before.pending_splits);
    assert_eq!(sum.pending_merges, before.pending_merges);
    assert_eq!(sum.ingested_count, 10);
    assert_eq!(sum.next_oxid, before.next_oxid);
    assert_eq!(sum.next_csn, 77);
}

#[test]
fn summary_is_derived_from_the_records() {
    let mut sum = OrioleDBColdStartSummary::default();
    sum.ingest_delta(&delta(Some(3), Some(40), None), 10).unwrap();
    sum.ingest_delta(&delta(None, Some(20), Some(8)), 20).unwrap();
    sum.ingest_delta(&delta(Some(4), None, Some(6)), 30).unwrap();
    assert_eq!(sum.ingested_count, 3);
    assert_eq!(sum.last_ingested_lsn_raw, 30);
    assert_eq!(sum.last_pg_xid_seen, 4);
    assert_eq!(sum.next_oxid, 41);
    assert_eq!(sum.next_csn, 9);
}

#[test]
fn packed_form_byte_by_byte() {
    let bytes = sample_summary().encode_packed();
    let mut expected: Vec<u8> = Vec::new();
    expected.extend_from_slice(b"OROS");
    expected.extend_from_slice(&[3, 0, 0, 0]);
    expected.extend_from_slice(&[8, 7, 6, 5, 4, 3, 2, 1]);
    expected.extend_from_slice(&[0x44, 0x33, 0x22, 0x11]);
    expected.extend_from_slice(&[0; 4]);
    expected.extend_from_slice(&[0xA8, 0xA7, 0xA6, 0xA5, 0xA4, 0xA3, 0xA2, 0xA1]);
    expected.extend_from_slice(&9u64.to_le_bytes());
    expected.extend_from_slice(&77u64.to_le_bytes());
    expected.extend_from_slice(&[1, 0, 0, 0, 1, 0, 0, 0, 1, 0, 0, 0, 0, 0, 0, 0]);
    for x in 1..9u64 {
        expected.extend_from_slice(&x.to_le_bytes());
    }
    expected.extend_from_slice(&11u64.to_le_bytes());
    expected.extend_from_slice(&12u32.to_le_bytes());
    expected.extend_from_slice(&13u32.to_le_bytes());
    expected.extend_from_slice(&14u64.to_le_bytes());
    expected.extend_from_slice(&15u32.to_le_bytes());
    expected.extend_from_slice(&16u32.to_le_bytes());
    expected.extend_from_slice(&21u64.to_le_bytes());
    expected.extend_from_slice(&22u32.to_le_bytes());
    expected.extend_from_slice(&23u32.to_le_bytes());
    expected.extend_from_slice(&24u64.to_le_bytes());
    assert_eq!(bytes, expected);
}

#[test]
fn packed_prefix_reads_as_version_2() {
    let sum = sample_summary();
    let mut prefix = sum.encode_packed()[..ORIOLEDB_STATE_V2_FIXED_SIZE].to_vec();
    prefix[4] = 2;
    let decoded = OrioleDBColdStartSummary::decode_packed(&prefix).unwrap();
    let expected = OrioleDBColdStartSummary {
        per_tree: Vec::new(),
        pending_splits: Vec::new(),
        pending_merges: Vec::new(),
        ..sum
    };
    assert_eq!(decoded, expected);
}

#[test]
fn packed_ignores_trailing_bytes() {
    let sum = sample_summary();
    let mut bytes = sum.encode_packed();
    bytes.extend_from_slice(&[0xEE; 100]);
    assert_eq!(OrioleDBColdStartSummary::decode_packed(&bytes), Ok(sum));
}

#[test]
fn packed_errors_say_what_was_found() {
    let mut bytes = sample_summary().encode_packed();
    bytes[0] = 0;
    assert_eq!(
        OrioleDBColdStartSummary::decode_packed(&bytes),
        Err(DecodeError::BadMagic(0x534F_5200))
    );
    let mut bytes = sample_summary().encode_packed();
    bytes[4] = 1;
    assert_eq!(
        OrioleDBColdStartSummary::decode_packed(&bytes),
        Err(DecodeError::UnsupportedVersion(1))
    );
}

#[test]
fn packed_counts_are_limited_in_order() {
    let limit = ORIOLEDB_STATE_V3_MAX_ELEMENTS;
    assert_eq!(limit, 1 << 20);
    let mut bytes = OrioleDBColdStartSummary::default().encode_packed();
    bytes[52..56].copy_from_slice(&(limit + 2).to_le_bytes());
    bytes[56..60].copy_from_slice(&(limit + 3).to_le_bytes());
    assert_eq!(
        OrioleDBColdStartSummary::decode_packed(&bytes),
        Err(DecodeError::TooManyElements(limit + 2))
    );
    bytes[48..52].copy_from_slice(&(limit + 1).to_le_bytes());
    assert_eq!(
        OrioleDBColdStartSummary::decode_packed(&bytes),
        Err(DecodeError::TooManyElements(limit + 1))
    );
    bytes[48..52].copy_from_slice(&limit.to_le_bytes());
    bytes[52..56].copy_from_slice(&limit.to_le_bytes());
    bytes[56..60].copy_from_slice(&limit.to_le_bytes());
    assert_eq!(
        OrioleDBColdStartSummary::decode_packed(&bytes),
        Err(DecodeError::TooShort)
    );
}

#[test]
fn packed_version_3_needs_its_header() {
    let bytes = OrioleDBColdStartSummary::default().encode_packed();
    assert_eq!(
        OrioleDBColdStartSummary::decode_packed(&bytes[..ORIOLEDB_STATE_ENCODED_SIZE]),
        Err(DecodeError::TooShort)
    );
    assert_eq!(
        OrioleDBColdStartSummary::decode_packed(&bytes[..63]),
        Err(DecodeError::TooShort)
    );
}

#[test]
fn long_sections_do_not_read_back() {
    let mut sum = OrioleDBColdStartSummary::default();
    sum.pending_merges = vec![PendingMerge::default(); ORIOLEDB_STATE_V3_MAX_ELEMENTS as usize + 1];
    assert_eq!(
        OrioleDBColdStartSummary::decode_packed(&sum.encode_packed()),
        Err(DecodeError::TooManyElements(
            ORIOLEDB_STATE_V3_MAX_ELEMENTS + 1
        ))
    );
}

#[test]
fn ingest_resumes_from_a_packed_summary() {
    let records = [
        (delta(Some(3), Some(40), None), 10),
        (delta(None, Some(20), Some(8)), 20),
        (delta(Some(4), None, Some(6)), 30),
    ];
    let mut at_once = OrioleDBColdStartSummary::default();
    let mut in_parts = OrioleDBColdStartSummary::default();
    for (delta, lsn) in &records {
        at_once.ingest_delta(delta, *lsn).unwrap();
        in_parts.ingest_delta(delta, *lsn).unwrap();
        in_parts = OrioleDBColdStartSummary::decode_packed(&in_parts.encode_packed()).unwrap();
    }
    assert_eq!(at_once, in_parts);
}

#[test]
fn reserved_bytes_do_not_count() {
    let sum = sample_summary();
    let mut bytes = sum.encode_packed();
    bytes[20..24].copy_from_slice(&[0xEE; 4]);
    bytes[60..64].copy_from_slice(&[0xDD; 4]);
    bytes.push(0xCC);
    assert_eq!(
        OrioleDBColdStartSummary::decode_packed(&bytes),
        Ok(sum.clone())
    );
    let mut prefix = bytes[..ORIOLEDB_STATE_V2_FIXED_SIZE].to_vec();
    prefix[4] = 2;
    let decoded = OrioleDBColdStartSummary::decode_packed(&prefix).unwrap();
    assert_eq!(decoded.last_pg_xid_seen, sum.last_pg_xid_seen);
    assert_eq!(decoded.last_ingested_lsn_raw, sum.last_ingested_lsn_raw);
}
