//! Batches of serialized values.
use bytes::Bytes;
use wal_decoder::key::rel_block_to_key;
use wal_decoder::key::CompactKey;
use wal_decoder::key::Key;
use wal_decoder::key::KeySpace;
use wal_decoder::key::RelTag;
use wal_decoder::lsn::Lsn;
use wal_decoder::postgres::DecodedBkpBlock;
use wal_decoder::postgres::DecodedWALRecord;
use wal_decoder::postgres::PgMajorVersion;
use wal_decoder::postgres::BLCKSZ;
use wal_decoder::serialized_batch::decoded::ShardRecord;
use wal_decoder::serialized_batch::decoded::UnsupportedKey;
use wal_decoder::serialized_batch::LsnOrderViolation;
use wal_decoder::serialized_batch::ObservedValueMeta;
use wal_decoder::serialized_batch::SerializedValueBatch;
use wal_decoder::serialized_batch::SerializedValueMeta;
use wal_decoder::serialized_batch::ValueMeta;
use wal_decoder::value::NeonWalRecord;
use wal_decoder::value::Value;

/// A key written as 36 hexadecimal digits.
fn key_from_hex(s: &str) -> Key {
    assert_eq!(s.len(), 36);
    let field = |from: usize, to: usize| u32::from_str_radix(&s[from..to], 16).unwrap();
    Key {
        field1: field(0, 2) as u8,
        field2: field(2, 10),
        field3: field(10, 18),
        field4: field(18, 26),
        field5: field(26, 28) as u8,
        field6: field(28, 36),
    }
}

/// A log record that appends a string to a page, in its serialized form.
fn wal_append(s: &str) -> NeonWalRecord {
    let mut encoding: Vec<u8> = Vec::new();
    encoding.extend_from_slice(&9u32.to_be_bytes());
    encoding.extend_from_slice(&(s.len() as u64).to_be_bytes());
    encoding.extend_from_slice(s.as_bytes());
    encoding.extend_from_slice(&[0, 0]);
    NeonWalRecord::Encoded {
        will_init: false,
        encoding: Bytes::from(encoding),
    }
}

/// A page of zeroes.
fn zero_page() -> Value {
    Value::Image(Bytes::from(vec![0u8; BLCKSZ as usize]))
}

/// The key under which a record of OrioleDB is stored whole.
fn orioledb_wal_key(lsn: u64) -> Key {
    Key {
        field1: 0x70,
        field2: 0,
        field3: 0,
        field4: (lsn >> 32) as u32,
        field5: 0,
        field6: lsn as u32,
    }
}

/// The one shard of an unsharded tenant: it is shard 0, and all keys are local.
fn unsharded(blocks: usize) -> Vec<ShardRecord> {
    vec![ShardRecord {
        is_shard_zero: true,
        key_is_local: vec![true; blocks],
        batch: SerializedValueBatch::default(),
    }]
}

fn validate_batch(
    batch: &SerializedValueBatch,
    values: &[(CompactKey, Lsn, usize, Value)],
    gaps: Option<&Vec<(KeySpace, Lsn)>>,
) {
    // Invariant 1: The metadata for a given entry in the batch
    // is correct and can be used to deserialize back to the original value.
    for (key, lsn, size, value) in values.iter() {
        let meta = batch
            .metadata
            .iter()
            .find(|meta| (meta.key(), meta.lsn()) == (*key, *lsn))
            .unwrap();
        let meta = match meta {
            ValueMeta::Serialized(ser) => ser,
            ValueMeta::Observed(_) => unreachable!(),
        };

        assert_eq!(meta.len, *size);
        assert_eq!(meta.will_init, value.will_init());

        let start = meta.batch_offset as usize;
        let end = meta.batch_offset as usize + meta.len;
        let value_from_batch = Value::des(&batch.raw[start..end], meta.will_init).unwrap();
        assert_eq!(&value_from_batch, value);
    }

    let mut expected_buffer_size: usize = values.iter().map(|(_, _, size, _)| size).sum();
    let mut gap_pages_count: usize = 0;

    // Invariant 2: Zero pages were added for identified gaps and their metadata
    // is correct.
    if let Some(gaps) = gaps {
        for (gap_keyspace, lsn) in gaps {
            for gap_range in &gap_keyspace.ranges {
                let mut gap_key = gap_range.start;
                while gap_key != gap_range.end {
                    let meta = batch
                        .metadata
                        .iter()
                        .find(|meta| (meta.key(), meta.lsn()) == (gap_key.to_compact(), *lsn))
                        .unwrap();
                    let meta = match meta {
                        ValueMeta::Serialized(ser) => ser,
                        ValueMeta::Observed(_) => unreachable!(),
                    };

                    let zero_value = zero_page();
                    let zero_value_size = zero_value.serialized_size().unwrap() as usize;

                    assert_eq!(meta.len, zero_value_size);
                    assert_eq!(meta.will_init, zero_value.will_init());

                    let start = meta.batch_offset as usize;
                    let end = meta.batch_offset as usize + meta.len;
                    let value_from_batch =
                        Value::des(&batch.raw[start..end], meta.will_init).unwrap();
                    assert_eq!(value_from_batch, zero_value);

                    gap_pages_count += 1;
                    expected_buffer_size += zero_value_size;
                    gap_key = gap_key.next();
                }
            }
        }
    }

    // Invariant 3: The length of the batch is equal to the number
    // of values inserted, plus the number of gap pages. This extends
    // to the raw buffer size.
    assert_eq!(batch.len(), values.len() + gap_pages_count);
    assert_eq!(expected_buffer_size, batch.buffer_size());

    // Invariant 4: Metadata entries for any given key are sorted in LSN order.
    batch.validate_lsn_order().unwrap();
}

#[test]
fn test_creation_from_values() {
    const LSN: Lsn = Lsn(0x10);
    let key = key_from_hex("110000000033333333444444445500000001");

    let values = vec![
        (
            key.to_compact(),
            LSN,
            Value::WalRecord(wal_append("foo")),
        ),
        (
            key.next().to_compact(),
            LSN,
            Value::WalRecord(wal_append("bar")),
        ),
        (
            key.to_compact(),
            Lsn(LSN.0 + 0x10),
            Value::WalRecord(wal_append("baz")),
        ),
        (
            key.next().next().to_compact(),
            LSN,
            Value::WalRecord(wal_append("taz")),
        ),
    ];

    let values = values
        .into_iter()
        .map(|(key, lsn, value)| (key, lsn, value.serialized_size().unwrap() as usize, value))
        .collect::<Vec<_>>();
    let batch = SerializedValueBatch::from_values(values.clone());

    validate_batch(&batch, &values, None);

    assert!(!batch.is_empty());
}

#[test]
fn test_put() {
    const LSN: Lsn = Lsn(0x10);
    let key = key_from_hex("110000000033333333444444445500000001");

    let values = vec![
        (
            key.to_compact(),
            LSN,
            Value::WalRecord(wal_append("foo")),
        ),
        (
            key.next().to_compact(),
            LSN,
            Value::WalRecord(wal_append("bar")),
        ),
    ];

    let mut values = values
        .into_iter()
        .map(|(key, lsn, value)| (key, lsn, value.serialized_size().unwrap() as usize, value))
        .collect::<Vec<_>>();
    let mut batch = SerializedValueBatch::from_values(values.clone());

    validate_batch(&batch, &values, None);

    let value = (
        key.to_compact(),
        Lsn(LSN.0 + 0x10),
        Value::WalRecord(wal_append("baz")),
    );
    let serialized_size = value.2.serialized_size().unwrap() as usize;
    let value = (value.0, value.1, serialized_size, value.2);
    values.push(value.clone());
    batch.put(value.0, value.3, value.1);

    validate_batch(&batch, &values, None);

    let value = (
        key.next().next().to_compact(),
        LSN,
        Value::WalRecord(wal_append("taz")),
    );
    let serialized_size = value.2.serialized_size().unwrap() as usize;
    let value = (value.0, value.1, serialized_size, value.2);
    values.push(value.clone());
    batch.put(value.0, value.3, value.1);

    validate_batch(&batch, &values, None);
}

#[test]
fn test_extension() {
    const LSN: Lsn = Lsn(0x10);
    let key = key_from_hex("110000000033333333444444445500000001");

    let values = vec![
        (
            key.to_compact(),
            LSN,
            Value::WalRecord(wal_append("foo")),
        ),
        (
            key.next().to_compact(),
            LSN,
            Value::WalRecord(wal_append("bar")),
        ),
        (
            key.next().next().to_compact(),
            LSN,
            Value::WalRecord(wal_append("taz")),
        ),
    ];

    let mut values = values
        .into_iter()
        .map(|(key, lsn, value)| (key, lsn, value.serialized_size().unwrap() as usize, value))
        .collect::<Vec<_>>();
    let mut batch = SerializedValueBatch::from_values(values.clone());

    let other_values = vec![
        (
            key.to_compact(),
            Lsn(LSN.0 + 0x10),
            Value::WalRecord(wal_append("foo")),
        ),
        (
            key.next().to_compact(),
            Lsn(LSN.0 + 0x10),
            Value::WalRecord(wal_append("bar")),
        ),
        (
            key.next().next().to_compact(),
            Lsn(LSN.0 + 0x10),
            Value::WalRecord(wal_append("taz")),
        ),
    ];

    let other_values = other_values
        .into_iter()
        .map(|(key, lsn, value)| (key, lsn, value.serialized_size().unwrap() as usize, value))
        .collect::<Vec<_>>();
    let other_batch = SerializedValueBatch::from_values(other_values.clone());

    values.extend(other_values);
    batch.extend(other_batch);

    validate_batch(&batch, &values, None);
}

#[test]
fn test_gap_zeroing() {
    const LSN: Lsn = Lsn(0x10);
    let rel_foo_base_key = key_from_hex("110000000033333333444444445500000001");

    let rel_bar_base_key = {
        let mut key = rel_foo_base_key;
        key.field4 += 1;
        key
    };

    let values = vec![
        (
            rel_foo_base_key.to_compact(),
            LSN,
            Value::WalRecord(wal_append("foo1")),
        ),
        (
            rel_foo_base_key.add(1).to_compact(),
            LSN,
            Value::WalRecord(wal_append("foo2")),
        ),
        (
            rel_foo_base_key.add(5).to_compact(),
            LSN,
            Value::WalRecord(wal_append("foo3")),
        ),
        (
            rel_foo_base_key.add(1).to_compact(),
            Lsn(LSN.0 + 0x10),
            Value::WalRecord(wal_append("foo4")),
        ),
        (
            rel_foo_base_key.add(10).to_compact(),
            Lsn(LSN.0 + 0x10),
            Value::WalRecord(wal_append("foo5")),
        ),
        (
            rel_foo_base_key.add(11).to_compact(),
            Lsn(LSN.0 + 0x10),
            Value::WalRecord(wal_append("foo6")),
        ),
        (
            rel_foo_base_key.add(12).to_compact(),
            Lsn(LSN.0 + 0x10),
            Value::WalRecord(wal_append("foo7")),
        ),
        (
            rel_bar_base_key.to_compact(),
            LSN,
            Value::WalRecord(wal_append("bar1")),
        ),
        (
            rel_bar_base_key.add(4).to_compact(),
            LSN,
            Value::WalRecord(wal_append("bar2")),
        ),
    ];

    let values = values
        .into_iter()
        .map(|(key, lsn, value)| (key, lsn, value.serialized_size().unwrap() as usize, value))
        .collect::<Vec<_>>();

    let mut batch = SerializedValueBatch::from_values(values.clone());

    let gaps = vec![
        (
            KeySpace {
                ranges: vec![
                    rel_foo_base_key.add(2)..rel_foo_base_key.add(5),
                    rel_bar_base_key.add(1)..rel_bar_base_key.add(4),
                ],
            },
            LSN,
        ),
        (
            KeySpace {
                ranges: vec![rel_foo_base_key.add(6)..rel_foo_base_key.add(10)],
            },
            Lsn(LSN.0 + 0x10),
        ),
    ];

    batch.zero_gaps(gaps.clone());
    validate_batch(&batch, &values, Some(&gaps));
}

/// OrioleDB FPI (ORIOLEDB_RMGR_ID = 129) round-trip: feed a
/// hand-built DecodedWALRecord into from_decoded_filtered and
/// verify that
///   1. the block produces a Value::Image under rel_block_to_key,
///   2. the full record is mirrored as a Value::WalRecord at
///      orioledb_wal_key(lsn),
///   3. page_set_lsn is NOT applied — OrioleDB pages carry an
///      OrioleDBPageHeader at offset 0, so overwriting the first
///      8 bytes with a PG LSN would corrupt the state field.
#[test]
fn test_orioledb_fpi_round_trip() {
        const LSN: Lsn = Lsn(0x1000);
    const SPC: u32 = 1663;
    const DB: u32 = 24577;
    const REL: u32 = 24578;
    const BLKNO: u32 = 7;

    // Build an 8KB OrioleDB page. The first 8 bytes double as the
    // OrioleDBPageHeader state/pageChangeCount/checkpointNum prefix
    // and MUST remain byte-identical after the decode round-trip.
    let mut page = vec![0u8; BLCKSZ as usize];
    page[0..8].copy_from_slice(&[0xDE, 0xAD, 0xBE, 0xEF, 0xCA, 0xFE, 0xBA, 0xBE]);
    page[2048] = 0x42;
    page[BLCKSZ as usize - 1] = 0xFF;
    let record_bytes = Bytes::from(page.clone());

    let mut block = DecodedBkpBlock::new();
    block.rnode_spcnode = SPC;
    block.rnode_dbnode = DB;
    block.rnode_relnode = REL;
    block.forknum = 0;
    block.blkno = BLKNO;
    block.has_image = true;
    block.apply_image = true;
    block.will_init = true;
    block.bimg_offset = 0;
    block.bimg_len = BLCKSZ;

    let decoded = DecodedWALRecord {
        xl_xid: 42,
        xl_info: 0x10,
        xl_rmid: 129,
        record: record_bytes.clone(),
        blocks: vec![block],
        main_data_offset: 0,
        origin_id: 0,
    };

    let mut shard_records = unsharded(decoded.blocks.len());

    SerializedValueBatch::from_decoded_filtered(
        decoded,
        &mut shard_records,
        LSN,
        PgMajorVersion::PG17,
        orioledb_wal_key(LSN.0),
    )
    .unwrap();

    let batch = shard_records.remove(0).batch;
    assert_eq!(batch.len, 2, "expected FPI image + WAL-stream entry");
    assert_eq!(batch.max_lsn, LSN);

    let rel = RelTag {
        spcnode: SPC,
        dbnode: DB,
        relnode: REL,
        forknum: 0,
    };
    let block_key = rel_block_to_key(rel, BLKNO).to_compact();
    let wal_key = orioledb_wal_key(LSN.0).to_compact();

    let mut saw_image = false;
    let mut saw_wal_record = false;
    for meta in &batch.metadata {
        let ser = match meta {
            ValueMeta::Serialized(s) => s,
            ValueMeta::Observed(_) => panic!("did not expect observed entries"),
        };
        let start = ser.batch_offset as usize;
        let val = Value::des(&batch.raw[start..start + ser.len], ser.will_init).unwrap();

        if ser.key == block_key {
            let img = match val {
                Value::Image(b) => b,
                other => panic!("expected Value::Image at block key, got {other:?}"),
            };
            assert_eq!(img.len(), BLCKSZ as usize);
            assert_eq!(
                &img[0..8],
                &page[0..8],
                "page_set_lsn leaked into rmid=129 path — would corrupt OrioleDBPageHeader"
            );
            assert_eq!(img[2048], 0x42);
            assert_eq!(img[BLCKSZ as usize - 1], 0xFF);
            saw_image = true;
        } else if ser.key == wal_key {
            match val {
                Value::WalRecord(NeonWalRecord::Postgres { will_init, rec }) => {
                    assert!(will_init, "OrioleDB WAL-stream entries must init");
                    assert_eq!(rec.as_ref(), record_bytes.as_ref());
                    saw_wal_record = true;
                }
                other => {
                    panic!("expected Postgres WalRecord at WAL key, got {other:?}")
                }
            }
        } else {
            panic!("unexpected key in batch: {:?}", ser.key);
        }
    }
    assert!(saw_image, "FPI page image missing from batch");
    assert!(saw_wal_record, "OrioleDB WAL-stream record missing from batch");
}

/// OrioleDB delta / container records carry no block refs. They
/// must still land in the WAL-stream key space unconditionally so
/// wal-redo can replay the tree-level log on GetPage.
#[test]
fn test_orioledb_record_without_blocks() {
        const LSN: Lsn = Lsn(0x2000);
    let record_bytes = Bytes::from_static(b"\x01\x02\x03opaque oriole payload");

    let decoded = DecodedWALRecord {
        xl_xid: 99,
        xl_info: 0x00,
        xl_rmid: 129,
        record: record_bytes.clone(),
        blocks: vec![],
        main_data_offset: 0,
        origin_id: 0,
    };

    let mut shard_records = unsharded(decoded.blocks.len());

    SerializedValueBatch::from_decoded_filtered(
        decoded,
        &mut shard_records,
        LSN,
        PgMajorVersion::PG17,
        orioledb_wal_key(LSN.0),
    )
    .unwrap();

    let batch = shard_records.remove(0).batch;
    assert_eq!(batch.len, 1);
    assert_eq!(batch.max_lsn, LSN);

    let meta = match &batch.metadata[0] {
        ValueMeta::Serialized(s) => s,
        _ => panic!("serialized expected"),
    };
    assert_eq!(meta.key, orioledb_wal_key(LSN.0).to_compact());
    assert!(meta.will_init);

    let val =
        Value::des(&batch.raw[meta.batch_offset as usize..][..meta.len], meta.will_init).unwrap();
    match val {
        Value::WalRecord(NeonWalRecord::Postgres { will_init, rec }) => {
            assert!(will_init);
            assert_eq!(rec.as_ref(), record_bytes.as_ref());
        }
        other => panic!("expected WalRecord(Postgres), got {other:?}"),
    }
}

/// LSN externality invariant.
///
/// PageServer addresses OrioleDB pages by (key, LSN) tuples held
/// in batch metadata, *not* by LSN bytes embedded inside the page.
/// This test locks in that invariant by emitting the same logical
/// page at two different LSNs and verifying:
///
///   1. The two emissions produce two independently addressable
///      metadata entries that share the block key but carry the
///      distinct LSNs that were supplied.
///   2. The serialized `Value::Image` bytes are byte-identical
///      across the two LSNs — no `page_set_lsn` ever overwrites
///      any part of the page.
///   3. The `OrioleDBPageHeader` prefix (bytes 0..8: state,
///      pageChangeCount, checkpointNum) survives both emissions
///      without mutation.
///
/// If this assertion ever regresses, Neon's timeline machinery
/// (branching, PITR) has started relying on in-page LSNs for
/// OrioleDB pages — which is incompatible with OrioleDB's page
/// header layout and will silently corrupt the state prefix.
///
/// There is no conflict between Neon's LSN and OrioleDB's CSN
/// (`checkpointNum`): LSN is a per-byte WAL offset tracked
/// externally by PageServer, CSN is an in-page epoch counter
/// used by OrioleDB for MVCC snapshots. The two coexist because
/// the LSN never enters the page body.
#[test]
fn test_orioledb_page_lsn_externality() {
        const SPC: u32 = 1663;
    const DB: u32 = 24577;
    const REL: u32 = 24578;
    const BLKNO: u32 = 42;
    const LSN_A: Lsn = Lsn(0x1000);
    const LSN_B: Lsn = Lsn(0x8000);

    // Build a page whose first 8 bytes are a distinctive
    // OrioleDBPageHeader prefix: if any LSN write leaked into
    // the page, the lower 8 bytes would be clobbered.
    let mut page = vec![0u8; BLCKSZ as usize];
    page[0..8].copy_from_slice(&[0x11, 0x22, 0x33, 0x44, 0x55, 0x66, 0x77, 0x88]);
    page[4096] = 0xAB;
    page[BLCKSZ as usize - 1] = 0xCD;
    let page_bytes = Bytes::from(page.clone());

    let emit = |lsn: Lsn| -> SerializedValueBatch {
        let mut block = DecodedBkpBlock::new();
        block.rnode_spcnode = SPC;
        block.rnode_dbnode = DB;
        block.rnode_relnode = REL;
        block.forknum = 0;
        block.blkno = BLKNO;
        block.has_image = true;
        block.apply_image = true;
        block.will_init = true;
        block.bimg_offset = 0;
        block.bimg_len = BLCKSZ;

        let decoded = DecodedWALRecord {
            xl_xid: 7,
            xl_info: 0x10,
            xl_rmid: 129,
            record: page_bytes.clone(),
            blocks: vec![block],
            main_data_offset: 0,
            origin_id: 0,
        };

        let mut shard_records = unsharded(decoded.blocks.len());

        SerializedValueBatch::from_decoded_filtered(
            decoded,
            &mut shard_records,
            lsn,
            PgMajorVersion::PG17,
            orioledb_wal_key(lsn.0),
        )
        .unwrap();

        shard_records.remove(0).batch
    };

    let batch_a = emit(LSN_A);
    let batch_b = emit(LSN_B);

    let rel = RelTag {
        spcnode: SPC,
        dbnode: DB,
        relnode: REL,
        forknum: 0,
    };
    let block_key = rel_block_to_key(rel, BLKNO).to_compact();

    // Extract the FPI image entry from each batch and capture
    // its metadata LSN.
    let extract_image = |batch: &SerializedValueBatch| -> (Lsn, Bytes) {
        let mut found: Option<(Lsn, Bytes)> = None;
        for meta in &batch.metadata {
            let ser = match meta {
                ValueMeta::Serialized(s) => s,
                ValueMeta::Observed(_) => continue,
            };
            if ser.key != block_key {
                continue;
            }
            let val = Value::des(&batch.raw[ser.batch_offset as usize..][..ser.len], ser.will_init)
                .unwrap();
            let img = match val {
                Value::Image(b) => b,
                other => panic!("expected Value::Image at block key, got {other:?}"),
            };
            assert!(found.is_none(), "more than one image entry per batch");
            found = Some((ser.lsn, img));
        }
        found.expect("no FPI image entry found at block_key")
    };

    let (lsn_a_meta, image_a) = extract_image(&batch_a);
    let (lsn_b_meta, image_b) = extract_image(&batch_b);

    // Invariant 1: the metadata carries the LSN we emitted.
    assert_eq!(lsn_a_meta, LSN_A);
    assert_eq!(lsn_b_meta, LSN_B);
    assert_ne!(
        lsn_a_meta, lsn_b_meta,
        "two emissions at distinct LSNs should produce distinct metadata LSNs"
    );

    // Invariant 2: the page body is byte-identical across the
    // two LSNs — no LSN write ever touched the image.
    assert_eq!(
        image_a.len(),
        BLCKSZ as usize,
        "image A length must equal BLCKSZ"
    );
    assert_eq!(
        image_b.len(),
        BLCKSZ as usize,
        "image B length must equal BLCKSZ"
    );
    assert_eq!(
        image_a, image_b,
        "OrioleDB page body must be byte-identical across LSN emissions; \
         a diff implies page_set_lsn leaked into the rmid=129 path"
    );

    // Invariant 3: the OrioleDBPageHeader prefix survived both
    // emissions. We already checked image_a == image_b, so one
    // assertion on image_a covers both.
    assert_eq!(
        &image_a[0..8],
        &[0x11, 0x22, 0x33, 0x44, 0x55, 0x66, 0x77, 0x88],
        "OrioleDBPageHeader prefix was mutated — LSN or some other \
         header byte leaked into the page body"
    );
    assert_eq!(image_a[4096], 0xAB);
    assert_eq!(image_a[BLCKSZ as usize - 1], 0xCD);
}

// --- values -------------------------------------------------------------------

fn image(bytes: &[u8]) -> Value {
    Value::Image(Bytes::copy_from_slice(bytes))
}

fn postgres(will_init: bool, bytes: &[u8]) -> Value {
    Value::WalRecord(NeonWalRecord::Postgres {
        will_init,
        rec: Bytes::copy_from_slice(bytes),
    })
}

fn serialized(value: &Value) -> Vec<u8> {
    let mut buf = Vec::new();
    value.ser_into(&mut buf);
    buf
}

#[test]
fn values_are_serialized_big_endian() {
    assert_eq!(
        serialized(&image(&[7, 8, 9])),
        vec![0, 0, 0, 0, 0, 0, 0, 0, 0, 0, 0, 3, 7, 8, 9]
    );
    assert_eq!(
        serialized(&postgres(true, &[5])),
        vec![0, 0, 0, 1, 0, 0, 0, 0, 1, 0, 0, 0, 0, 0, 0, 0, 1, 5]
    );
    assert_eq!(
        serialized(&Value::WalRecord(NeonWalRecord::Encoded {
            will_init: true,
            encoding: Bytes::from_static(&[0, 0, 0, 2, 6]),
        })),
        vec![0, 0, 0, 1, 0, 0, 0, 2, 6]
    );
}

#[test]
fn values_read_back() {
    for value in [
        image(&[]),
        image(&[1; 300]),
        postgres(false, &[]),
        postgres(true, &[2; 70000]),
        Value::WalRecord(wal_append("x")),
    ] {
        let bytes = serialized(&value);
        assert_eq!(value.serialized_size(), Some(bytes.len() as u64));
        assert_eq!(Value::des(&bytes, value.will_init()), Some(value));
    }
}

#[test]
fn will_init_of_values() {
    assert!(image(&[]).will_init());
    assert!(postgres(true, &[]).will_init());
    assert!(!postgres(false, &[]).will_init());
    assert!(!Value::WalRecord(wal_append("x")).will_init());
}

#[test]
fn malformed_values_are_refused() {
    let mut bytes = serialized(&image(&[1, 2, 3]));
    assert_eq!(Value::des(&bytes[..3], true), None);
    assert_eq!(Value::des(&bytes[..11], true), None);
    assert_eq!(Value::des(&bytes[..14], true), None);
    bytes.push(0);
    assert_eq!(Value::des(&bytes, true), None);
    bytes.pop();
    bytes[3] = 2;
    assert_eq!(Value::des(&bytes, true), None);
    let mut bytes = serialized(&postgres(true, &[1, 2, 3]));
    assert_eq!(Value::des(&bytes[..7], true), None);
    assert_eq!(Value::des(&bytes[..16], true), None);
    bytes[8] = 2;
    assert_eq!(Value::des(&bytes, true), None);
}

// --- keys ---------------------------------------------------------------------

#[test]
fn compact_key_of_fields() {
    let key = key_from_hex("110000000033333333444444445500000001");
    assert_eq!(
        key.to_compact(),
        CompactKey(0x11_0000_33333333_44444444_55_00000001)
    );
    let marked = Key {
        field2: 0xFFFF_FFFF,
        ..key
    };
    assert_eq!(
        marked.to_compact(),
        CompactKey(0x11_FFFF_33333333_44444444_55_00000001)
    );
}

#[test]
fn keys_carry() {
    let key = key_from_hex("1100000000333333334444444455FFFFFFFF");
    assert_eq!(
        key.next(),
        key_from_hex("110000000033333333444444445600000000")
    );
    let key = key_from_hex("1100000000FFFFFFFFFFFFFFFFFFFFFFFFFE");
    assert_eq!(
        key.add(5),
        key_from_hex("110000000100000000000000000000000003")
    );
    let key = key_from_hex("11FFFFFFFFFFFFFFFFFFFFFFFFFFFFFFFFFF");
    assert_eq!(
        key.next(),
        key_from_hex("120000000000000000000000000000000000")
    );
}

#[test]
fn keys_on_the_write_path() {
    let key = |field2: u32| Key {
        field1: 0,
        field2,
        field3: 1,
        field4: 2,
        field5: 3,
        field6: 4,
    };
    assert!(key(1663).is_valid_key_on_write_path());
    assert!(key(0xFFFF).is_valid_key_on_write_path());
    assert!(!key(0x1_0000).is_valid_key_on_write_path());
    assert!(key(0x2222_2222).is_valid_key_on_write_path());
    assert!(key(0xFFFF_FFFF).is_valid_key_on_write_path());
    assert!(!key(0xFFFF_FFFE).is_valid_key_on_write_path());
}

// --- batches ------------------------------------------------------------------

#[test]
fn empty_batch() {
    let batch = SerializedValueBatch::default();
    assert!(batch.is_empty());
    assert!(!batch.is_observed());
    assert!(!batch.has_data());
    assert_eq!(batch.len(), 0);
    assert_eq!(batch.buffer_size(), 0);
    assert_eq!(batch.max_lsn, Lsn(0));
    assert_eq!(batch.validate_lsn_order(), Ok(()));
}

#[test]
fn entries_of_a_batch() {
    let mut batch = SerializedValueBatch::default();
    batch.put(CompactKey(1), image(&[9]), Lsn(20));
    batch.put(CompactKey(2), postgres(false, &[8, 8]), Lsn(10));
    assert_eq!(
        batch.metadata,
        vec![
            ValueMeta::Serialized(SerializedValueMeta {
                key: CompactKey(1),
                lsn: Lsn(20),
                batch_offset: 0,
                len: 13,
                will_init: true,
            }),
            ValueMeta::Serialized(SerializedValueMeta {
                key: CompactKey(2),
                lsn: Lsn(10),
                batch_offset: 13,
                len: 19,
                will_init: false,
            }),
        ]
    );
    assert_eq!(batch.buffer_size(), 32);
    assert_eq!(batch.max_lsn, Lsn(20));
    assert!(batch.has_data());
}

#[test]
fn from_values_takes_the_given_sizes() {
    let batch = SerializedValueBatch::from_values(vec![(CompactKey(1), Lsn(3), 99, image(&[9]))]);
    assert_eq!(
        batch.metadata,
        vec![ValueMeta::Serialized(SerializedValueMeta {
            key: CompactKey(1),
            lsn: Lsn(3),
            batch_offset: 0,
            len: 99,
            will_init: true,
        })]
    );
    assert_eq!(batch.buffer_size(), 13);
}

#[test]
fn extending_shifts_offsets() {
    let mut batch = SerializedValueBatch::default();
    batch.put(CompactKey(1), image(&[9]), Lsn(20));
    let mut other = SerializedValueBatch::default();
    other.put(CompactKey(2), image(&[7]), Lsn(30));
    other.metadata.push(ValueMeta::Observed(ObservedValueMeta {
        key: CompactKey(3),
        lsn: Lsn(30),
    }));
    batch.extend(other);
    assert_eq!(batch.len(), 2);
    assert_eq!(batch.max_lsn, Lsn(30));
    assert_eq!(
        batch.metadata[1..],
        [
            ValueMeta::Serialized(SerializedValueMeta {
                key: CompactKey(2),
                lsn: Lsn(30),
                batch_offset: 13,
                len: 13,
                will_init: true,
            }),
            ValueMeta::Observed(ObservedValueMeta {
                key: CompactKey(3),
                lsn: Lsn(30),
            }),
        ]
    );
    assert_eq!(batch.metadata[2].key(), CompactKey(3));
    assert_eq!(batch.metadata[2].lsn(), Lsn(30));
}

#[test]
fn batch_of_observed_values() {
    let mut batch = SerializedValueBatch::default();
    batch.metadata.push(ValueMeta::Observed(ObservedValueMeta {
        key: CompactKey(3),
        lsn: Lsn(30),
    }));
    assert!(!batch.is_empty());
    assert!(batch.is_observed());
    assert!(!batch.has_data());
}

#[test]
fn updated_keys_are_those_stored() {
    let key = key_from_hex("110000000033333333444444445500000001");
    let mut batch = SerializedValueBatch::default();
    batch.put(key.to_compact(), image(&[9]), Lsn(20));
    batch.metadata.push(ValueMeta::Observed(ObservedValueMeta {
        key: key.next().to_compact(),
        lsn: Lsn(20),
    }));
    assert!(batch.updates_key(&key));
    assert!(!batch.updates_key(&key.next()));
    assert!(!batch.updates_key(&key.add(2)));
}

#[test]
fn disorder_is_found() {
    let mut batch = SerializedValueBatch::default();
    batch.put(CompactKey(1), image(&[1]), Lsn(20));
    batch.put(CompactKey(2), image(&[1]), Lsn(10));
    batch.put(CompactKey(1), image(&[1]), Lsn(20));
    assert_eq!(batch.validate_lsn_order(), Ok(()));
    batch.put(CompactKey(1), image(&[1]), Lsn(15));
    batch.put(CompactKey(2), image(&[1]), Lsn(5));
    assert_eq!(
        batch.validate_lsn_order(),
        Err(LsnOrderViolation {
            key: CompactKey(1),
            lsn: Lsn(15),
            prev_lsn: Lsn(20),
        })
    );
}

#[test]
fn zeroing_no_gaps_sorts_the_entries() {
    let mut batch = SerializedValueBatch::default();
    batch.put(CompactKey(2), image(&[1]), Lsn(10));
    batch.put(CompactKey(1), image(&[2]), Lsn(20));
    batch.put(CompactKey(1), image(&[3]), Lsn(10));
    batch.zero_gaps(vec![(KeySpace { ranges: vec![] }, Lsn(90))]);
    let ids: Vec<(CompactKey, Lsn)> = batch
        .metadata
        .iter()
        .map(|meta| (meta.key(), meta.lsn()))
        .collect();
    assert_eq!(
        ids,
        vec![
            (CompactKey(1), Lsn(10)),
            (CompactKey(1), Lsn(20)),
            (CompactKey(2), Lsn(10)),
        ]
    );
    assert_eq!(batch.len(), 3);
    assert_eq!(batch.max_lsn, Lsn(20));
}

#[test]
fn gaps_without_pages_add_nothing() {
    let key = key_from_hex("110000000033333333444444445500000001");
    let mut batch = SerializedValueBatch::default();
    batch.zero_gaps(vec![(KeySpace { ranges: vec![] }, Lsn(0x20))]);
    assert_eq!(batch, SerializedValueBatch::default());
    batch.zero_gaps(vec![(
        KeySpace {
            ranges: vec![key..key],
        },
        Lsn(0x20),
    )]);
    assert_eq!(batch, SerializedValueBatch::default());
    batch.zero_gaps(vec![
        (
            KeySpace {
                ranges: vec![key..key, key..key.next()],
            },
            Lsn(0x10),
        ),
        (
            KeySpace {
                ranges: vec![key..key],
            },
            Lsn(0x20),
        ),
    ]);
    assert_eq!(batch.len(), 1);
    assert_eq!(batch.max_lsn, Lsn(0x10));
    assert_eq!(batch.metadata[0].lsn(), Lsn(0x10));
}

#[test]
fn highest_position_is_that_of_an_entry() {
    let mut batch = SerializedValueBatch::default();
    batch.put(CompactKey(1), image(&[1]), Lsn(30));
    batch.put(CompactKey(2), image(&[2]), Lsn(10));
    let mut other = SerializedValueBatch::default();
    other.put(CompactKey(3), image(&[3]), Lsn(20));
    batch.extend(other);
    assert_eq!(batch.max_lsn, Lsn(30));
    assert_eq!(
        batch.metadata.iter().map(|meta| meta.lsn()).max(),
        Some(batch.max_lsn)
    );
}

#[test]
fn zeroing_keeps_entries_that_are_there() {
    let key = key_from_hex("110000000033333333444444445500000001");
    let mut batch = SerializedValueBatch::default();
    batch.put(key.to_compact(), image(&[1]), Lsn(10));
    batch.put(key.to_compact(), image(&[2, 2]), Lsn(10));
    batch.zero_gaps(vec![(
        KeySpace {
            ranges: vec![key..key.add(2)],
        },
        Lsn(10),
    )]);
    assert_eq!(batch.len(), 4);
    assert_eq!(batch.buffer_size(), 13 + 14 + 2 * 8204);
    assert_eq!(
        batch.metadata,
        vec![
            ValueMeta::Serialized(SerializedValueMeta {
                key: key.to_compact(),
                lsn: Lsn(10),
                batch_offset: 13,
                len: 14,
                will_init: true,
            }),
            ValueMeta::Serialized(SerializedValueMeta {
                key: key.next().to_compact(),
                lsn: Lsn(10),
                batch_offset: 27 + 8204,
                len: 8204,
                will_init: true,
            }),
        ]
    );
}

// --- decoded records ----------------------------------------------------------

fn image_block(blkno: u32, offset: u32, len: u16) -> DecodedBkpBlock {
    let mut block = DecodedBkpBlock::new();
    block.rnode_spcnode = 1663;
    block.rnode_dbnode = 5;
    block.rnode_relnode = 6;
    block.blkno = blkno;
    block.has_image = true;
    block.apply_image = true;
    block.bimg_offset = offset;
    block.bimg_len = len;
    block
}

fn decoded_record(
    xl_rmid: u8,
    xl_info: u8,
    record: &[u8],
    blocks: Vec<DecodedBkpBlock>,
) -> DecodedWALRecord {
    DecodedWALRecord {
        xl_xid: 0,
        xl_info,
        xl_rmid,
        record: Bytes::copy_from_slice(record),
        blocks,
        main_data_offset: 0,
        origin_id: 0,
    }
}

fn stored_values(batch: &SerializedValueBatch) -> Vec<(CompactKey, Value)> {
    let mut values = Vec::new();
    for meta in &batch.metadata {
        if let ValueMeta::Serialized(ser) = meta {
            let bytes = &batch.raw[ser.batch_offset as usize..][..ser.len];
            values.push((ser.key, Value::des(bytes, ser.will_init).unwrap()));
        }
    }
    values
}

fn block_key(blkno: u32) -> CompactKey {
    let rel = RelTag {
        forknum: 0,
        spcnode: 1663,
        dbnode: 5,
        relnode: 6,
    };
    rel_block_to_key(rel, blkno).to_compact()
}

#[test]
fn page_image_gets_the_position() {
    let mut record = vec![0xAAu8; 10];
    record.extend_from_slice(&[0x55; 8192]);
    let decoded = decoded_record(0, 0xb0, &record, vec![image_block(3, 10, 8192)]);
    let mut shards = unsharded(1);
    SerializedValueBatch::from_decoded_filtered(
        decoded,
        &mut shards,
        Lsn(0x0102_0304_0506_0708),
        PgMajorVersion::PG16,
        orioledb_wal_key(0),
    )
    .unwrap();
    let mut page = vec![0x55u8; 8192];
    page[..8].copy_from_slice(&[4, 3, 2, 1, 8, 7, 6, 5]);
    assert_eq!(
        stored_values(&shards[0].batch),
        vec![(block_key(3), image(&page))]
    );
}

#[test]
fn hole_is_filled_with_zeroes() {
    let mut record = vec![0x11u8; 100];
    record.extend_from_slice(&[0x22; 50]);
    let mut block = image_block(3, 0, 150);
    block.hole_offset = 100;
    block.hole_length = 8192 - 150;
    let mut late = block;
    late.blkno = 4;
    late.hole_offset = 200;
    let decoded = decoded_record(129, 0x10, &record, vec![block, late]);
    let mut shards = unsharded(2);
    SerializedValueBatch::from_decoded_filtered(
        decoded,
        &mut shards,
        Lsn(0x77),
        PgMajorVersion::PG17,
        orioledb_wal_key(0x77),
    )
    .unwrap();
    let mut page = vec![0u8; 8192];
    page[..100].copy_from_slice(&[0x11; 100]);
    page[8142..].copy_from_slice(&[0x22; 50]);
    let mut late_page = record.clone();
    late_page.resize(8192, 0);
    assert_eq!(
        stored_values(&shards[0].batch),
        vec![
            (block_key(3), image(&page)),
            (block_key(4), image(&late_page)),
            (orioledb_wal_key(0x77).to_compact(), postgres(true, &record)),
        ]
    );
}

#[test]
fn uninitialized_page_is_left_alone() {
    let mut page = vec![0x55u8; 8192];
    page[14] = 0;
    page[15] = 0;
    let decoded = decoded_record(0, 0xa0, &page, vec![image_block(3, 0, 8192)]);
    let mut shards = unsharded(1);
    SerializedValueBatch::from_decoded_filtered(
        decoded,
        &mut shards,
        Lsn(0x77),
        PgMajorVersion::PG17,
        orioledb_wal_key(0),
    )
    .unwrap();
    assert_eq!(
        stored_values(&shards[0].batch),
        vec![(block_key(3), image(&page))]
    );
}

#[test]
fn blocks_that_are_no_images() {
    let image_of = |rmid: u8, info: u8, change: fn(&mut DecodedBkpBlock), version| {
        let mut block = image_block(0, 0, 8192);
        change(&mut block);
        let decoded = decoded_record(rmid, info, &[], vec![block]);
        SerializedValueBatch::block_is_image(&decoded, &block, version)
    };
    let keep: fn(&mut DecodedBkpBlock) = |_| {};
    assert!(image_of(0, 0xb0, keep, PgMajorVersion::PG14));
    assert!(image_of(0, 0xa0, keep, PgMajorVersion::PG14));
    assert!(image_of(129, 0x20, keep, PgMajorVersion::PG17));
    assert!(!image_of(0, 0x20, keep, PgMajorVersion::PG17));
    assert!(!image_of(10, 0xb0, keep, PgMajorVersion::PG17));
    assert!(!image_of(0, 0xb0, |b| b.apply_image = false, PgMajorVersion::PG17));
    assert!(!image_of(0, 0xb0, |b| b.has_image = false, PgMajorVersion::PG17));
    assert!(!image_of(0, 0xb0, |b| b.bimg_len = 0, PgMajorVersion::PG17));
    assert!(!image_of(0, 0xb0, |b| b.bimg_info = 0x02, PgMajorVersion::PG14));
    assert!(image_of(0, 0xb0, |b| b.bimg_info = 0x02, PgMajorVersion::PG15));
    assert!(image_of(0, 0xb0, |b| b.bimg_info = 0x04, PgMajorVersion::PG14));
    assert!(!image_of(0, 0xb0, |b| b.bimg_info = 0x04, PgMajorVersion::PG15));
    assert!(!image_of(0, 0xb0, |b| b.bimg_info = 0x08, PgMajorVersion::PG16));
    assert!(!image_of(0, 0xb0, |b| b.bimg_info = 0x10, PgMajorVersion::PG17));
}

#[test]
fn other_blocks_keep_the_record() {
    let mut init = DecodedBkpBlock::new();
    init.rnode_spcnode = 1663;
    init.rnode_dbnode = 5;
    init.rnode_relnode = 6;
    init.blkno = 1;
    init.will_init = true;
    let mut plain = init;
    plain.blkno = 2;
    plain.will_init = false;
    let mut applied = plain;
    applied.blkno = 3;
    applied.apply_image = true;
    let decoded = decoded_record(10, 0, &[1, 2, 3], vec![init, plain, applied]);
    assert_eq!(
        SerializedValueBatch::estimate_buffer_size(
            &decoded,
            &vec![true, false, true],
            PgMajorVersion::PG17
        ),
        40
    );
    let mut shards = unsharded(3);
    SerializedValueBatch::from_decoded_filtered(
        decoded,
        &mut shards,
        Lsn(0x77),
        PgMajorVersion::PG17,
        orioledb_wal_key(0),
    )
    .unwrap();
    assert_eq!(
        stored_values(&shards[0].batch),
        vec![
            (block_key(1), postgres(true, &[1, 2, 3])),
            (block_key(2), postgres(false, &[1, 2, 3])),
            (block_key(3), postgres(true, &[1, 2, 3])),
        ]
    );
    assert_eq!(shards[0].batch.len(), 3);
    assert_eq!(shards[0].batch.max_lsn, Lsn(0x77));
}

#[test]
fn shards_share_the_blocks() {
    let mut blocks = Vec::new();
    for blkno in 0..3 {
        let mut block = DecodedBkpBlock::new();
        block.rnode_spcnode = 1663;
        block.rnode_dbnode = 5;
        block.rnode_relnode = 6;
        block.blkno = blkno;
        blocks.push(block);
    }
    let decoded = decoded_record(129, 0x30, &[1], blocks);
    let shard = |is_shard_zero: bool, key_is_local: Vec<bool>| ShardRecord {
        is_shard_zero,
        key_is_local,
        batch: SerializedValueBatch::default(),
    };
    let mut shards = vec![
        shard(false, vec![false, true, false]),
        shard(true, vec![true, false, false]),
        shard(false, vec![false, false, false]),
    ];
    SerializedValueBatch::from_decoded_filtered(
        decoded,
        &mut shards,
        Lsn(9),
        PgMajorVersion::PG17,
        orioledb_wal_key(9),
    )
    .unwrap();
    let record = postgres(false, &[1]);
    assert_eq!(
        stored_values(&shards[0].batch),
        vec![(block_key(1), record.clone())]
    );
    assert_eq!(shards[0].batch.metadata.len(), 1);
    assert_eq!(
        stored_values(&shards[1].batch),
        vec![
            (block_key(0), record),
            (orioledb_wal_key(9).to_compact(), postgres(true, &[1])),
        ]
    );
    let observed = |blkno: u32| {
        ValueMeta::Observed(ObservedValueMeta {
            key: block_key(blkno),
            lsn: Lsn(9),
        })
    };
    assert_eq!(shards[1].batch.metadata[1..3], [observed(1), observed(2)]);
    assert!(shards[2].batch.is_empty());
}

#[test]
fn whole_record_goes_to_the_first_shard_without_shard_zero() {
    let shard = ShardRecord {
        is_shard_zero: false,
        key_is_local: vec![],
        batch: SerializedValueBatch::default(),
    };
    let mut shards = vec![shard.clone(), shard];
    SerializedValueBatch::from_decoded_filtered(
        decoded_record(129, 0, &[4, 5], vec![]),
        &mut shards,
        Lsn(9),
        PgMajorVersion::PG17,
        orioledb_wal_key(9),
    )
    .unwrap();
    assert_eq!(
        stored_values(&shards[0].batch),
        vec![(orioledb_wal_key(9).to_compact(), postgres(true, &[4, 5]))]
    );
    assert!(shards[1].batch.is_empty());
}

#[test]
fn record_without_blocks_stores_nothing() {
    let mut shards = unsharded(0);
    SerializedValueBatch::from_decoded_filtered(
        decoded_record(10, 0, &[4, 5], vec![]),
        &mut shards,
        Lsn(9),
        PgMajorVersion::PG17,
        orioledb_wal_key(9),
    )
    .unwrap();
    assert!(shards[0].batch.is_empty());
}

#[test]
fn unsupported_key_is_refused() {
    let mut good = DecodedBkpBlock::new();
    good.rnode_spcnode = 1663;
    good.rnode_dbnode = 5;
    good.rnode_relnode = 6;
    let mut bad = good;
    bad.rnode_spcnode = 0x1_0000;
    bad.blkno = 8;
    let mut shards = unsharded(3);
    let result = SerializedValueBatch::from_decoded_filtered(
        decoded_record(10, 0, &[1], vec![good, bad, good]),
        &mut shards,
        Lsn(9),
        PgMajorVersion::PG17,
        orioledb_wal_key(9),
    );
    assert_eq!(
        result,
        Err(UnsupportedKey {
            lsn: Lsn(9),
            key: Key {
                field1: 0,
                field2: 0x1_0000,
                field3: 5,
                field4: 6,
                field5: 0,
                field6: 8,
            },
        })
    );
    assert_eq!(
        stored_values(&shards[0].batch),
        vec![(block_key(0), postgres(false, &[1]))]
    );
}
