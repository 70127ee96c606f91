//! What holds of batches across operations.
use vstd::prelude::*;
use crate::key::CompactKey;
use crate::key::KeySpace;
use crate::key::Key;
use crate::lsn::Lsn;
use crate::postgres::DecodedBkpBlock;
use crate::postgres::PgMajorVersion;
use crate::postgres::RecordState;
use crate::postgres::BLCKSZ;
use crate::postgres::RM_ORIOLEDB_ID;
use crate::serialized_batch::decoded::ShardRecord;
use crate::serialized_batch::BatchState;
use crate::serialized_batch::ObservedValueMeta;
use crate::serialized_batch::ValueMeta;
use crate::serialized_batch::decoded;
use crate::serialized_batch::gaps;
use crate::serialized_batch;
use crate::value::Value;
use crate::value::ValueState;
use crate::value;

verus! {

// --- Stored values -----------------------------------------------------------

/// A stored value is read back: its entry says where its bytes are, and they
/// decode to the value and to nothing else.
pub proof fn law_stored_value_reads_back(
    b: BatchState,
    i: int,
    key: CompactKey,
    lsn: Lsn,
    v: ValueState,
)
    requires
        b.entry_holds(i, key, lsn, v),
        b.raw.len() <= usize::MAX,
        v.well_formed(),
    ensures
        b.metadata[i] matches ValueMeta::Serialized(ser) && value::deserialized(
            b.raw.subrange(ser.batch_offset as int, ser.batch_offset + ser.len),
            ser.will_init,
        ) == Some(v),
{
    value::law_value_round_trip(v);
}

/// A value that is put into a batch is stored in it.
pub proof fn law_put_stores(b: BatchState, key: CompactKey, lsn: Lsn, v: ValueState)
    requires
        b.with_value(key, lsn, v).raw.len() <= usize::MAX,
    ensures
        b.with_value(key, lsn, v).holds(key, lsn, v),
{
    let after = b.with_value(key, lsn, v);
    assert(after.raw.subrange(b.raw.len() as int, after.raw.len() as int) =~= v.serialized());
    assert(after.entry_holds(b.metadata.len() as int, key, lsn, v));
}

/// Values stay stored when another is put into the batch.
pub proof fn law_put_keeps_values(
    b: BatchState,
    new_key: CompactKey,
    new_lsn: Lsn,
    size: usize,
    new_value: ValueState,
    key: CompactKey,
    lsn: Lsn,
    v: ValueState,
)
    requires
        b.holds(key, lsn, v),
    ensures
        b.with_sized_value(new_key, new_lsn, size, new_value).holds(key, lsn, v),
{
    let after = b.with_sized_value(new_key, new_lsn, size, new_value);
    let i = choose|i: int| 0 <= i < b.metadata.len() && #[trigger] b.entry_holds(i, key, lsn, v);
    let ser = b.metadata[i]->Serialized_0;
    assert(after.metadata[i] == b.metadata[i]);
    assert(after.raw.subrange(ser.batch_offset as int, ser.batch_offset + ser.len)
        =~= b.raw.subrange(ser.batch_offset as int, ser.batch_offset + ser.len));
    assert(after.entry_holds(i, key, lsn, v));
}

/// Values stay stored when another is observed.
pub proof fn law_observing_keeps_values(
    b: BatchState,
    new_key: CompactKey,
    new_lsn: Lsn,
    key: CompactKey,
    lsn: Lsn,
    v: ValueState,
)
    requires
        b.holds(key, lsn, v),
    ensures
        b.with_observed(new_key, new_lsn).holds(key, lsn, v),
{
    let i = choose|i: int| 0 <= i < b.metadata.len() && #[trigger] b.entry_holds(i, key, lsn, v);
    assert(b.with_observed(new_key, new_lsn).metadata[i] == b.metadata[i]);
    assert(b.with_observed(new_key, new_lsn).entry_holds(i, key, lsn, v));
}

/// A batch made from values stores each of them, as long as the sizes that come
/// with the values are right. It has as many values as were given, and its
/// buffer is as large as they are together.
pub proof fn law_from_values_stores(items: Seq<(CompactKey, Lsn, usize, Value)>)
    requires
        serialized_batch::batch_of(items).raw.len() <= usize::MAX,
        forall|i: int|
            0 <= i < items.len() ==> (#[trigger] items[i]).2 == items[i].3@.serialized().len(),
    ensures
        forall|i: int|
            0 <= i < items.len() ==> serialized_batch::batch_of(items).holds(
                (#[trigger] items[i]).0,
                items[i].1,
                items[i].3@,
            ),
        serialized_batch::batch_of(items).len == items.len(),
        serialized_batch::batch_of(items).raw.len() == serialized_batch::total_size(items),
        serialized_batch::batch_of(items).well_formed(),
    decreases items.len(),
{
    if items.len() > 0 {
        let init = items.drop_last();
        let b = serialized_batch::batch_of(init);
        let (key, lsn, size, v) = items.last();
        assert(items[items.len() - 1].2 == v@.serialized().len());
        assert forall|i: int| 0 <= i < init.len() implies (#[trigger] init[i]).2
            == init[i].3@.serialized().len() by {
            assert(init[i] == items[i]);
        }
        law_from_values_stores(init);
        assert(b.with_sized_value(key, lsn, size, v@) == b.with_value(key, lsn, v@));
        law_put_stores(b, key, lsn, v@);
        law_put_keeps_well_formed(b, key, lsn, v@);
        assert forall|i: int| 0 <= i < items.len() implies serialized_batch::batch_of(items).holds(
            (#[trigger] items[i]).0,
            items[i].1,
            items[i].3@,
        ) by {
            if i < items.len() - 1 {
                assert(init[i] == items[i]);
                law_put_keeps_values(
                    b,
                    key,
                    lsn,
                    size,
                    v@,
                    items[i].0,
                    items[i].1,
                    items[i].3@,
                );
            }
        }
    }
}

/// The `max_lsn` of a batch made from values is the highest of their positions.
pub proof fn law_max_lsn_is_highest(items: Seq<(CompactKey, Lsn, usize, Value)>)
    ensures
        forall|i: int|
            0 <= i < items.len() ==> (#[trigger] items[i]).1.0 <= serialized_batch::batch_of(
                items,
            ).max_lsn.0,
        items.len() > 0 ==> exists|i: int|
            0 <= i < items.len() && (#[trigger] items[i]).1 == serialized_batch::batch_of(
                items,
            ).max_lsn,
    decreases items.len(),
{
    if items.len() > 0 {
        let init = items.drop_last();
        let last = items.len() - 1;
        let max = serialized_batch::batch_of(items).max_lsn;
        law_max_lsn_is_highest(init);
        assert forall|i: int| 0 <= i < items.len() implies (#[trigger] items[i]).1.0 <= max.0 by {
            if i < last {
                assert(init[i] == items[i]);
            }
        }
        if items[last].1 != max {
            let i = choose|i: int|
                0 <= i < init.len() && (#[trigger] init[i]).1 == serialized_batch::batch_of(
                    init,
                ).max_lsn;
            assert(init.len() > 0);
            assert(items[i] == init[i]);
        }
    }
}

/// What either of two batches stores, the extended batch stores.
pub proof fn law_extend_keeps_values(
    a: BatchState,
    b: BatchState,
    key: CompactKey,
    lsn: Lsn,
    v: ValueState,
)
    requires
        a.holds(key, lsn, v) || b.holds(key, lsn, v),
        a.with_batch(b).raw.len() <= usize::MAX,
    ensures
        a.with_batch(b).holds(key, lsn, v),
{
    let after = a.with_batch(b);
    if a.holds(key, lsn, v) {
        let i = choose|i: int|
            0 <= i < a.metadata.len() && #[trigger] a.entry_holds(i, key, lsn, v);
        let ser = a.metadata[i]->Serialized_0;
        assert(after.metadata[i] == a.metadata[i]);
        assert(after.raw.subrange(ser.batch_offset as int, ser.batch_offset + ser.len)
            =~= a.raw.subrange(ser.batch_offset as int, ser.batch_offset + ser.len));
        assert(after.entry_holds(i, key, lsn, v));
    } else {
        let i = choose|i: int|
            0 <= i < b.metadata.len() && #[trigger] b.entry_holds(i, key, lsn, v);
        let ser = b.metadata[i]->Serialized_0;
        let j = a.metadata.len() + i;
        assert(after.metadata[j] == b.metadata[i].shifted(a.raw.len() as int));
        let moved = after.metadata[j]->Serialized_0;
        assert(after.raw.subrange(moved.batch_offset as int, moved.batch_offset + moved.len)
            =~= b.raw.subrange(ser.batch_offset as int, ser.batch_offset + ser.len));
        assert(after.entry_holds(j, key, lsn, v));
    }
}

// --- Well-formed batches -----------------------------------------------------

/// The empty batch is well-formed.
pub proof fn law_empty_is_well_formed()
    ensures
        BatchState::empty().well_formed(),
        serialized_batch::lsn_ordered(BatchState::empty().metadata),
{
}

/// A position that some entry has is still had when entries are added behind.
proof fn lemma_reached_position_stays(before: Seq<ValueMeta>, after: Seq<ValueMeta>, lsn: Lsn)
    requires
        before.len() <= after.len(),
        forall|i: int| 0 <= i < before.len() ==> #[trigger] after[i] == before[i],
    ensures
        (exists|i: int| 0 <= i < before.len() && (#[trigger] before[i]).lsn_of() == lsn)
            ==> exists|i: int| 0 <= i < after.len() && (#[trigger] after[i]).lsn_of() == lsn,
{
    if exists|i: int| 0 <= i < before.len() && (#[trigger] before[i]).lsn_of() == lsn {
        let i = choose|i: int| 0 <= i < before.len() && (#[trigger] before[i]).lsn_of() == lsn;
        assert(after[i] == before[i]);
    }
}

/// Putting a value into a batch keeps it well-formed.
pub proof fn law_put_keeps_well_formed(b: BatchState, key: CompactKey, lsn: Lsn, v: ValueState)
    requires
        b.well_formed(),
        b.with_value(key, lsn, v).raw.len() <= usize::MAX,
    ensures
        b.with_value(key, lsn, v).well_formed(),
{
    let after = b.with_value(key, lsn, v);
    assert(v.serialized().len() > 0);
    assert forall|i: int| 0 <= i < after.metadata.len() implies (
    #[trigger] after.metadata[i]).within(after.raw.len() as int) by {
        if i < b.metadata.len() {
            assert(after.metadata[i] == b.metadata[i]);
        }
    }
    assert forall|i: int|
        0 <= i < after.metadata.len() && #[trigger] after.metadata[i] is Serialized implies
        after.metadata[i].lsn_of().0 <= after.max_lsn.0 by {
        if i < b.metadata.len() {
            assert(after.metadata[i] == b.metadata[i]);
        }
    }
    assert(after.metadata[b.metadata.len() as int].lsn_of() == lsn);
    lemma_reached_position_stays(b.metadata, after.metadata, b.max_lsn);
}

/// Observing a value keeps the batch well-formed.
pub proof fn law_observing_keeps_well_formed(b: BatchState, key: CompactKey, lsn: Lsn)
    requires
        b.well_formed(),
    ensures
        b.with_observed(key, lsn).well_formed(),
{
    let after = b.with_observed(key, lsn);
    assert forall|i: int| 0 <= i < after.metadata.len() && i < b.metadata.len() implies
        #[trigger] after.metadata[i] == b.metadata[i] by {
    }
    lemma_reached_position_stays(b.metadata, after.metadata, b.max_lsn);
}

/// Extending a batch keeps it well-formed.
pub proof fn law_extend_keeps_well_formed(a: BatchState, b: BatchState)
    requires
        a.well_formed(),
        b.well_formed(),
        a.with_batch(b).raw.len() <= usize::MAX,
    ensures
        a.with_batch(b).well_formed(),
{
    let after = a.with_batch(b);
    let n = a.metadata.len();
    assert forall|i: int| 0 <= i < after.metadata.len() implies (
    #[trigger] after.metadata[i]).within(after.raw.len() as int) && (after.metadata[i] is Serialized
        ==> after.raw.len() > 0 && after.metadata[i].lsn_of().0 <= after.max_lsn.0) by {
        if i < n {
            assert(after.metadata[i] == a.metadata[i]);
        } else {
            let meta = b.metadata[i - n];
            assert(meta.within(b.raw.len() as int));
            assert(after.metadata[i] == meta.shifted(a.raw.len() as int));
        }
    }
    lemma_reached_position_stays(a.metadata, after.metadata, a.max_lsn);
    if b.max_lsn.0 > a.max_lsn.0 {
        let k = choose|k: int|
            0 <= k < b.metadata.len() && (#[trigger] b.metadata[k]).lsn_of() == b.max_lsn;
        assert(after.metadata[n + k] == b.metadata[k].shifted(a.raw.len() as int));
    }
}

// --- Order of positions ------------------------------------------------------

/// What `last_lsns` holds of a key is the position of its last entry.
pub proof fn lemma_last_lsns(metas: Seq<ValueMeta>, key: i128)
    ensures
        serialized_batch::last_lsns(metas).dom().contains(key) <==> exists|i: int|
            0 <= i < metas.len() && (#[trigger] metas[i]).key_of().0 == key,
        serialized_batch::last_lsns(metas).dom().contains(key) ==> exists|i: int|
            0 <= i < metas.len() && (#[trigger] metas[i]).key_of().0 == key
                && metas[i].lsn_of().0 == serialized_batch::last_lsns(metas)[key] && forall|j: int|
                i < j < metas.len() ==> (#[trigger] metas[j]).key_of().0 != key,
    decreases metas.len(),
{
    if metas.len() > 0 {
        let init = metas.drop_last();
        lemma_last_lsns(init, key);
        let last = metas.len() - 1;
        if metas[last].key_of().0 == key {
            assert(metas[last].lsn_of().0 == serialized_batch::last_lsns(metas)[key]);
        } else {
            if serialized_batch::last_lsns(init).dom().contains(key) {
                let i = choose|i: int|
                    0 <= i < init.len() && (#[trigger] init[i]).key_of().0 == key
                        && init[i].lsn_of().0 == serialized_batch::last_lsns(init)[key] && forall|
                        j: int,
                    |
                        i < j < init.len() ==> (#[trigger] init[j]).key_of().0 != key;
                assert(metas[i] == init[i]);
                assert forall|j: int| i < j < metas.len() implies (#[trigger] metas[j]).key_of().0
                    != key by {
                    if j < last {
                        assert(init[j] == metas[j]);
                    }
                }
            }
            if exists|i: int| 0 <= i < metas.len() && (#[trigger] metas[i]).key_of().0 == key {
                let i = choose|i: int|
                    0 <= i < metas.len() && (#[trigger] metas[i]).key_of().0 == key;
                assert(init[i] == metas[i]);
            }
        }
    }
}

/// The check finds a violation exactly where the entries of some key are out of
/// order.
pub proof fn law_check_finds_disorder(metas: Seq<ValueMeta>)
    ensures
        serialized_batch::first_violation(metas) is None <==> serialized_batch::lsn_ordered(metas),
    decreases metas.len(),
{
    if metas.len() > 0 {
        let init = metas.drop_last();
        let last = metas.len() - 1;
        let (key, lsn) = (metas[last].key_of().0, metas[last].lsn_of().0);
        let seen = serialized_batch::last_lsns(init);
        law_check_finds_disorder(init);
        lemma_last_lsns(init, key);
        if serialized_batch::lsn_ordered(metas) {
            assert forall|i: int, j: int|
                0 <= i < j < init.len() && (#[trigger] init[i]).key_of() == (
                #[trigger] init[j]).key_of() implies init[i].lsn_of().0 <= init[j].lsn_of().0 by {
                assert(init[i] == metas[i] && init[j] == metas[j]);
            }
            if seen.dom().contains(key) {
                let i = choose|i: int|
                    0 <= i < init.len() && (#[trigger] init[i]).key_of().0 == key
                        && init[i].lsn_of().0 == seen[key] && forall|j: int|
                        i < j < init.len() ==> (#[trigger] init[j]).key_of().0 != key;
                assert(init[i] == metas[i]);
                assert(metas[i].key_of() == metas[last].key_of());
            }
        }
        if serialized_batch::first_violation(metas) is None {
            assert forall|i: int, j: int|
                0 <= i < j < metas.len() && (#[trigger] metas[i]).key_of() == (
                #[trigger] metas[j]).key_of() implies metas[i].lsn_of().0
                <= metas[j].lsn_of().0 by {
                assert(init[i] == metas[i]);
                if j < last {
                    assert(init[j] == metas[j]);
                } else {
                    assert(seen.dom().contains(key));
                    let k = choose|k: int|
                        0 <= k < init.len() && (#[trigger] init[k]).key_of().0 == key
                            && init[k].lsn_of().0 == seen[key] && forall|m: int|
                            k < m < init.len() ==> (#[trigger] init[m]).key_of().0 != key;
                    assert(i <= k);
                    if i < k {
                        assert(init[i].key_of() == init[k].key_of());
                    }
                }
            }
        }
    }
}

/// Entries stay in order when one is added that is not before any of its key.
pub proof fn law_put_keeps_order(metas: Seq<ValueMeta>, meta: ValueMeta)
    requires
        serialized_batch::lsn_ordered(metas),
        forall|i: int|
            0 <= i < metas.len() && (#[trigger] metas[i]).key_of() == meta.key_of()
                ==> metas[i].lsn_of().0 <= meta.lsn_of().0,
    ensures
        serialized_batch::lsn_ordered(metas.push(meta)),
{
}

/// Entries stay in order when a batch in order is added of which no entry is
/// before one of its key.
pub proof fn law_extend_keeps_order(a: BatchState, b: BatchState)
    requires
        serialized_batch::lsn_ordered(a.metadata),
        serialized_batch::lsn_ordered(b.metadata),
        forall|i: int, j: int|
            0 <= i < a.metadata.len() && 0 <= j < b.metadata.len() && (
            #[trigger] a.metadata[i]).key_of() == (#[trigger] b.metadata[j]).key_of()
                ==> a.metadata[i].lsn_of().0 <= b.metadata[j].lsn_of().0,
    ensures
        serialized_batch::lsn_ordered(a.with_batch(b).metadata),
{
    let after = a.with_batch(b).metadata;
    let n = a.metadata.len();
    assert forall|i: int, j: int|
        0 <= i < j < after.len() && (#[trigger] after[i]).key_of() == (
        #[trigger] after[j]).key_of() implies after[i].lsn_of().0 <= after[j].lsn_of().0 by {
        if j < n {
            assert(after[i] == a.metadata[i] && after[j] == a.metadata[j]);
        } else {
            assert(after[j] == b.metadata[j - n].shifted(a.raw.len() as int));
            if i < n {
                assert(after[i] == a.metadata[i]);
            } else {
                assert(after[i] == b.metadata[i - n].shifted(a.raw.len() as int));
            }
        }
    }
}

// --- Gaps --------------------------------------------------------------------

/// Of several entries with the same key and position, the last is found.
proof fn lemma_last_entry_counts(metas: Seq<ValueMeta>, i: int)
    requires
        0 <= i < metas.len(),
        forall|j: int|
            i < j < metas.len() ==> gaps::entry_id(#[trigger] metas[j]) != gaps::entry_id(metas[i]),
    ensures
        gaps::entries(metas).dom().contains(gaps::entry_id(metas[i])),
        gaps::entries(metas)[gaps::entry_id(metas[i])] == metas[i],
    decreases metas.len(),
{
    if i < metas.len() - 1 {
        let init = metas.drop_last();
        assert forall|j: int| i < j < init.len() implies gaps::entry_id(#[trigger] init[j])
            != gaps::entry_id(init[i]) by {
            assert(init[j] == metas[j]);
        }
        lemma_last_entry_counts(init, i);
        assert(gaps::entry_id(metas[metas.len() - 1]) != gaps::entry_id(metas[i]));
    }
}

/// What is found is one of the entries.
pub proof fn lemma_found_entry(metas: Seq<ValueMeta>, id: (i128, u64))
    requires
        gaps::entries(metas).dom().contains(id),
    ensures
        exists|i: int|
            0 <= i < metas.len() && #[trigger] metas[i] == gaps::entries(metas)[id]
                && gaps::entry_id(metas[i]) == id && forall|j: int|
                i < j < metas.len() ==> gaps::entry_id(#[trigger] metas[j]) != id,
    decreases metas.len(),
{
    let init = metas.drop_last();
    let last = metas.len() - 1;
    if gaps::entry_id(metas[last]) == id {
        assert(metas[last] == gaps::entries(metas)[id]);
    } else {
        lemma_found_entry(init, id);
        let i = choose|i: int|
            0 <= i < init.len() && #[trigger] init[i] == gaps::entries(init)[id] && gaps::entry_id(
                init[i],
            ) == id && forall|j: int|
                i < j < init.len() ==> gaps::entry_id(#[trigger] init[j]) != id;
        assert(metas[i] == init[i]);
        assert forall|j: int| i < j < metas.len() implies gaps::entry_id(#[trigger] metas[j])
            != id by {
            if j < last {
                assert(init[j] == metas[j]);
            }
        }
    }
}

/// Filling keeps the entries that there were, and adds entries of pages only.
pub proof fn lemma_with_pages(
    before: Map<(i128, u64), ValueMeta>,
    offset: int,
    pages: Seq<(CompactKey, Lsn)>,
    id: (i128, u64),
)
    ensures
        ({
            let m = gaps::with_pages(before, offset, pages);
            &&& before.dom().contains(id) ==> m.dom().contains(id) && m[id] == before[id]
            &&& m.dom().contains(id) && !before.dom().contains(id) ==> exists|k: int|
                0 <= k < pages.len() && ((#[trigger] pages[k]).0.0, pages[k].1.0) == id && m[id]
                    == gaps::zero_entry(offset + k * gaps::zero_page_size(), pages[k]) && forall|
                    j: int,
                |
                    0 <= j < k ==> ((#[trigger] pages[j]).0.0, pages[j].1.0) != id
            &&& forall|k: int|
                0 <= k < pages.len() && ((#[trigger] pages[k]).0.0, pages[k].1.0) == id
                    ==> m.dom().contains(id)
        }),
    decreases pages.len(),
{
    if pages.len() > 0 {
        let init = pages.drop_last();
        let last = pages.len() - 1;
        lemma_with_pages(before, offset, init, id);
        let m = gaps::with_pages(before, offset, pages);
        let mi = gaps::with_pages(before, offset, init);
        if m.dom().contains(id) && !before.dom().contains(id) {
            if mi.dom().contains(id) {
                let k = choose|k: int|
                    0 <= k < init.len() && ((#[trigger] init[k]).0.0, init[k].1.0) == id && mi[id]
                        == gaps::zero_entry(offset + k * gaps::zero_page_size(), init[k]) && forall|
                        j: int,
                    |
                        0 <= j < k ==> ((#[trigger] init[j]).0.0, init[j].1.0) != id;
                assert(pages[k] == init[k]);
                assert(m[id] == mi[id]);
                assert forall|j: int| 0 <= j < k implies ((#[trigger] pages[j]).0.0, pages[j].1.0)
                    != id by {
                    assert(init[j] == pages[j]);
                }
            } else {
                assert((pages[last].0.0, pages[last].1.0) == id);
                assert forall|j: int| 0 <= j < last implies ((#[trigger] pages[j]).0.0,
                    pages[j].1.0) != id by {
                    assert(init[j] == pages[j]);
                }
            }
        }
        assert forall|k: int|
            0 <= k < pages.len() && ((#[trigger] pages[k]).0.0, pages[k].1.0)
                == id implies m.dom().contains(id) by {
            if k < last {
                assert(init[k] == pages[k]);
            }
        }
    }
}

/// Each of the pages of zeroes is one.
pub proof fn lemma_zero_pages_at(n: nat, k: int)
    requires
        0 <= k < n,
    ensures
        gaps::zero_pages(n).len() == n * gaps::zero_page_size(),
        0 <= k * gaps::zero_page_size() <= (k + 1) * gaps::zero_page_size() <= n
            * gaps::zero_page_size(),
        gaps::zero_pages(n).subrange(
            k * gaps::zero_page_size(),
            (k + 1) * gaps::zero_page_size(),
        ) == gaps::zero_page().serialized(),
    decreases n,
{
    let size = gaps::zero_page_size();
    gaps::lemma_zero_pages_len(n);
    gaps::lemma_zero_pages_len((n - 1) as nat);
    assert(0 <= k * size <= (k + 1) * size <= n * size && (k + 1) * size == k * size + size && (n
        - 1) * size + size == n * size) by (nonlinear_arith)
        requires
            0 <= k < n,
            size >= 0,
    ;
    let all = gaps::zero_pages(n);
    if k == n - 1 {
        assert(all.subrange(k * size, (k + 1) * size) =~= gaps::zero_page().serialized());
    } else {
        lemma_zero_pages_at((n - 1) as nat, k);
        assert(all.subrange(k * size, (k + 1) * size) =~= gaps::zero_pages(
            (n - 1) as nat,
        ).subrange(k * size, (k + 1) * size));
    }
}

/// Where the entries are in order, what is found stands among them.
pub proof fn lemma_sorted_entry(metas: Seq<ValueMeta>, id: (i128, u64)) -> (i: int)
    requires
        gaps::sorted(metas),
        gaps::entries(metas).dom().contains(id),
    ensures
        0 <= i < metas.len(),
        metas[i] == gaps::entries(metas)[id],
{
    lemma_found_entry(metas, id);
    choose|i: int|
        0 <= i < metas.len() && #[trigger] metas[i] == gaps::entries(metas)[id] && gaps::entry_id(
            metas[i],
        ) == id
}

/// Values stay stored when gaps are filled. Of several with the same key and
/// position, the last is kept.
pub proof fn law_gaps_keep_values(
    before: BatchState,
    after: BatchState,
    pages: Seq<(CompactKey, Lsn)>,
    i: int,
    key: CompactKey,
    lsn: Lsn,
    v: ValueState,
)
    requires
        gaps::filled(before, after, pages),
        0 <= i < before.metadata.len(),
        before.entry_holds(i, key, lsn, v),
        forall|j: int|
            i < j < before.metadata.len() ==> gaps::entry_id(#[trigger] before.metadata[j])
                != gaps::entry_id(before.metadata[i]),
    ensures
        after.holds(key, lsn, v),
{
    let id = gaps::entry_id(before.metadata[i]);
    lemma_last_entry_counts(before.metadata, i);
    lemma_with_pages(gaps::entries(before.metadata), before.raw.len() as int, pages, id);
    let j = lemma_sorted_entry(after.metadata, id);
    assert(after.metadata[j] == before.metadata[i]);
    let ser = before.metadata[i]->Serialized_0;
    assert(after.raw.subrange(ser.batch_offset as int, ser.batch_offset + ser.len)
        =~= before.raw.subrange(ser.batch_offset as int, ser.batch_offset + ser.len));
    assert(after.entry_holds(j, key, lsn, v));
}

/// Every page of the gaps is stored as zeroes, unless the batch had an entry
/// for it.
pub proof fn law_gaps_are_filled(
    before: BatchState,
    after: BatchState,
    pages: Seq<(CompactKey, Lsn)>,
    n: int,
)
    requires
        gaps::filled(before, after, pages),
        after.raw.len() <= usize::MAX,
        0 <= n < pages.len(),
        forall|i: int|
            0 <= i < before.metadata.len() ==> gaps::entry_id(#[trigger] before.metadata[i]) != (
                pages[n].0.0,
                pages[n].1.0,
            ),
    ensures
        after.holds(pages[n].0, pages[n].1, gaps::zero_page()),
{
    let id = (pages[n].0.0, pages[n].1.0);
    let size = gaps::zero_page_size();
    let found = gaps::entries(before.metadata);
    let offset = before.raw.len() as int;
    if found.dom().contains(id) {
        lemma_found_entry(before.metadata, id);
    }
    lemma_with_pages(found, offset, pages, id);
    let k = choose|k: int|
        0 <= k < pages.len() && ((#[trigger] pages[k]).0.0, pages[k].1.0) == id
            && gaps::with_pages(found, offset, pages)[id] == gaps::zero_entry(
            offset + k * size,
            pages[k],
        );
    lemma_zero_pages_at(pages.len(), k);
    let j = lemma_sorted_entry(after.metadata, id);
    let ser = after.metadata[j]->Serialized_0;
    assert((k + 1) * size == k * size + size) by (nonlinear_arith);
    assert(ser.batch_offset == offset + k * size);
    assert(after.raw.subrange(offset + k * size, offset + k * size + size) =~= gaps::zero_pages(
        pages.len(),
    ).subrange(k * size, (k + 1) * size));
    assert(after.entry_holds(j, pages[n].0, pages[n].1, gaps::zero_page()));
}

/// Filling gaps puts the entries in order.
pub proof fn law_gaps_put_in_order(
    before: BatchState,
    after: BatchState,
    pages: Seq<(CompactKey, Lsn)>,
)
    requires
        gaps::filled(before, after, pages),
    ensures
        serialized_batch::lsn_ordered(after.metadata),
{
    assert forall|i: int, j: int|
        0 <= i < j < after.metadata.len() && (#[trigger] after.metadata[i]).key_of() == (
        #[trigger] after.metadata[j]).key_of() implies after.metadata[i].lsn_of().0
        <= after.metadata[j].lsn_of().0 by {
        assert(gaps::precedes(after.metadata[i], after.metadata[j]));
    }
}

/// No page of the gaps is later than the latest of them.
pub proof fn lemma_pages_not_later(start: Lsn, gs: Seq<(KeySpace, Lsn)>, n: int)
    requires
        0 <= n < gaps::gap_pages(gs).len(),
    ensures
        gaps::gap_pages(gs)[n].1.0 <= gaps::latest(start, gs).0,
    decreases gs.len(),
{
    if gs.len() > 0 {
        let init = gs.drop_last();
        if n < gaps::gap_pages(init).len() {
            lemma_pages_not_later(start, init, n);
        } else {
            let k = n - gaps::gap_pages(init).len();
            lemma_ranges_pages_lsn(gs.last().0.ranges@, gs.last().1, k);
        }
    }
}

/// The pages of some ranges are at the position of the gap.
proof fn lemma_ranges_pages_lsn(ranges: Seq<std::ops::Range<Key>>, lsn: Lsn, n: int)
    requires
        0 <= n < gaps::ranges_pages(ranges, lsn).len(),
    ensures
        gaps::ranges_pages(ranges, lsn)[n].1 == lsn,
    decreases ranges.len(),
{
    if ranges.len() > 0 {
        let init = ranges.drop_last();
        if n < gaps::ranges_pages(init, lsn).len() {
            lemma_ranges_pages_lsn(init, lsn, n);
        }
    }
}

/// The latest position is the one at the start, or that of some page.
pub proof fn lemma_latest_is_reached(start: Lsn, gs: Seq<(KeySpace, Lsn)>)
    ensures
        gaps::latest(start, gs) == start || exists|n: int|
            0 <= n < gaps::gap_pages(gs).len() && (#[trigger] gaps::gap_pages(gs)[n]).1
                == gaps::latest(start, gs),
    decreases gs.len(),
{
    if gs.len() > 0 {
        let init = gs.drop_last();
        let (old_pages, pages) = (gaps::gap_pages(init), gaps::gap_pages(gs));
        let last_pages = gaps::ranges_pages(gs.last().0.ranges@, gs.last().1);
        lemma_latest_is_reached(start, init);
        if gaps::latest(start, gs) == gaps::latest(start, init) {
            if gaps::latest(start, init) != start {
                let n = choose|n: int|
                    0 <= n < old_pages.len() && (#[trigger] old_pages[n]).1 == gaps::latest(
                        start,
                        init,
                    );
                assert(pages[n] == old_pages[n]);
            }
        } else {
            lemma_ranges_pages_lsn(gs.last().0.ranges@, gs.last().1, 0);
            assert(pages[old_pages.len() as int] == last_pages[0]);
        }
    }
}

/// Every entry is found, or another with the same key and position is.
pub proof fn lemma_entry_is_found(metas: Seq<ValueMeta>, i: int)
    requires
        0 <= i < metas.len(),
    ensures
        gaps::entries(metas).dom().contains(gaps::entry_id(metas[i])),
    decreases metas.len(),
{
    if i < metas.len() - 1 {
        lemma_entry_is_found(metas.drop_last(), i);
    }
}

/// The positions of the gaps only ever raise the latest.
pub proof fn lemma_latest_grows(start: Lsn, gs: Seq<(KeySpace, Lsn)>)
    ensures
        start.0 <= gaps::latest(start, gs).0,
    decreases gs.len(),
{
    if gs.len() > 0 {
        lemma_latest_grows(start, gs.drop_last());
    }
}

/// Filling gaps keeps a batch well-formed.
pub proof fn law_gaps_keep_well_formed(
    before: BatchState,
    after: BatchState,
    gs: Seq<(KeySpace, Lsn)>,
)
    requires
        before.well_formed(),
        gaps::filled(before, after, gaps::gap_pages(gs)),
        after.max_lsn == gaps::latest(before.max_lsn, gs),
        after.raw.len() <= usize::MAX,
    ensures
        after.well_formed(),
{
    let pages = gaps::gap_pages(gs);
    let size = gaps::zero_page_size();
    let found = gaps::entries(before.metadata);
    let offset = before.raw.len() as int;
    gaps::lemma_zero_pages_len(pages.len());
    lemma_latest_grows(before.max_lsn, gs);
    gaps::lemma_entries_of_sorted(after.metadata);
    assert forall|i: int| 0 <= i < after.metadata.len() implies (
    #[trigger] after.metadata[i]).within(after.raw.len() as int) && (after.metadata[i] is Serialized
        ==> after.raw.len() > 0 && after.metadata[i].lsn_of().0 <= after.max_lsn.0) by {
        let id = gaps::entry_id(after.metadata[i]);
        lemma_with_pages(found, offset, pages, id);
        if found.dom().contains(id) {
            lemma_found_entry(before.metadata, id);
            let k = choose|k: int|
                0 <= k < before.metadata.len() && #[trigger] before.metadata[k] == found[id]
                    && gaps::entry_id(before.metadata[k]) == id;
            assert(before.metadata[k] == after.metadata[i]);
            assert(before.metadata[k].within(before.raw.len() as int));
        } else {
            let k = choose|k: int|
                0 <= k < pages.len() && ((#[trigger] pages[k]).0.0, pages[k].1.0) == id
                    && gaps::with_pages(found, offset, pages)[id] == gaps::zero_entry(
                    offset + k * size,
                    pages[k],
                );
            lemma_zero_pages_at(pages.len(), k);
            assert((k + 1) * size == k * size + size) by (nonlinear_arith);
            lemma_pages_not_later(before.max_lsn, gs, k);
        }
    }
    lemma_latest_is_reached(before.max_lsn, gs);
    if after.max_lsn != Lsn(0) {
        let id: (i128, u64);
        if after.max_lsn == before.max_lsn {
            let k = choose|k: int|
                0 <= k < before.metadata.len() && (#[trigger] before.metadata[k]).lsn_of()
                    == before.max_lsn;
            lemma_entry_is_found(before.metadata, k);
            id = gaps::entry_id(before.metadata[k]);
        } else {
            let k = choose|k: int|
                0 <= k < pages.len() && (#[trigger] pages[k]).1 == after.max_lsn;
            id = (pages[k].0.0, pages[k].1.0);
        }
        lemma_with_pages(found, offset, pages, id);
        let j = choose|j: int|
            0 <= j < after.metadata.len() && gaps::entry_id(#[trigger] after.metadata[j]) == id;
        assert(after.metadata[j].lsn_of() == after.max_lsn);
    }
}

/// Entries in order are determined by what is found among them, so that filling
/// gaps has one outcome.
pub proof fn law_order_is_unique(a: Seq<ValueMeta>, b: Seq<ValueMeta>)
    requires
        gaps::sorted(a),
        gaps::sorted(b),
        gaps::entries(a) == gaps::entries(b),
    ensures
        a == b,
    decreases a.len(),
{
    gaps::lemma_entries_of_sorted(a);
    gaps::lemma_entries_of_sorted(b);
    if a.len() == 0 {
        if b.len() > 0 {
            assert(gaps::entries(b).dom().contains(gaps::entry_id(b[0])));
        }
        assert(a =~= b);
    } else if b.len() == 0 {
        assert(gaps::entries(a).dom().contains(gaps::entry_id(a[0])));
    } else {
        let (la, lb) = (a.len() - 1, b.len() - 1);
        let i = lemma_sorted_entry(b, gaps::entry_id(a[la]));
        let j = lemma_sorted_entry(a, gaps::entry_id(b[lb]));
        assert(b[i] == a[la] && a[j] == b[lb]);
        if i < lb {
            assert(gaps::precedes(b[i], b[lb]));
            assert(j < la ==> gaps::precedes(a[j], a[la]));
        }
        assert(a[la] == b[lb]);
        let (x, y) = (a.drop_last(), b.drop_last());
        let id = gaps::entry_id(a[la]);
        gaps::lemma_entries_of_sorted(x);
        gaps::lemma_entries_of_sorted(y);
        assert(!gaps::entries(x).dom().contains(id)) by {
            if gaps::entries(x).dom().contains(id) {
                let k = lemma_sorted_entry(x, id);
                assert(gaps::precedes(a[k], a[la]));
                lemma_found_entry(x, id);
            }
        }
        assert(!gaps::entries(y).dom().contains(id)) by {
            if gaps::entries(y).dom().contains(id) {
                let k = lemma_sorted_entry(y, id);
                assert(gaps::precedes(b[k], b[lb]));
                lemma_found_entry(y, id);
            }
        }
        assert(gaps::entries(x) =~= gaps::entries(a).remove(id));
        assert(gaps::entries(y) =~= gaps::entries(b).remove(id));
        law_order_is_unique(x, y);
        assert(a =~= x.push(a[la]));
        assert(b =~= y.push(b[lb]));
    }
}

// --- Decoded records ---------------------------------------------------------

/// The page of a block fills a page exactly, whatever is done to it.
pub proof fn law_stored_page_has_page_size(r: RecordState, blk: DecodedBkpBlock, lsn: Lsn)
    requires
        decoded::image_fits(r, blk),
    ensures
        decoded::stored_page(r, blk, lsn).len() == BLCKSZ,
{
}

/// The position of a record never enters a page of OrioleDB: the page that is
/// stored is the image, the same at every position.
pub proof fn law_orioledb_page_is_free_of_lsn(
    r: RecordState,
    blk: DecodedBkpBlock,
    version: PgMajorVersion,
    lsn_a: Lsn,
    lsn_b: Lsn,
)
    requires
        r.xl_rmid == RM_ORIOLEDB_ID,
    ensures
        decoded::stored_page(r, blk, lsn_a) == decoded::whole_image(r, blk),
        decoded::block_value(r, blk, lsn_a, version) == decoded::block_value(
            r,
            blk,
            lsn_b,
            version,
        ),
{
}

/// The first blocks take no more of the buffer than all of them.
proof fn lemma_after_blocks_grow(
    start: BatchState,
    r: RecordState,
    shard: ShardRecord,
    lsn: Lsn,
    version: PgMajorVersion,
    m: int,
    n: int,
)
    requires
        0 <= m <= n,
    ensures
        start.raw.len() <= decoded::after_blocks(start, r, shard, lsn, version, m).raw.len()
            <= decoded::after_blocks(start, r, shard, lsn, version, n).raw.len(),
    decreases n,
{
    if n > 0 {
        if m < n {
            lemma_after_blocks_grow(start, r, shard, lsn, version, m, n - 1);
        } else {
            lemma_after_blocks_grow(start, r, shard, lsn, version, m - 1, n - 1);
        }
    }
}

/// A block that is local to a shard is stored in the shard's batch.
pub proof fn law_local_block_is_stored(
    start: BatchState,
    r: RecordState,
    shard: ShardRecord,
    lsn: Lsn,
    version: PgMajorVersion,
    n: int,
    k: int,
)
    requires
        0 <= k < n,
        shard.key_is_local@[k],
        decoded::after_blocks(start, r, shard, lsn, version, n).raw.len() <= usize::MAX,
    ensures
        decoded::after_blocks(start, r, shard, lsn, version, n).holds(
            decoded::key_of_block(r.blocks[k]).compact(),
            lsn,
            decoded::block_value(r, r.blocks[k], lsn, version),
        ),
    decreases n,
{
    let b = decoded::after_blocks(start, r, shard, lsn, version, n - 1);
    let blk = r.blocks[n - 1];
    let key = decoded::key_of_block(blk).compact();
    let v = decoded::block_value(r, blk, lsn, version);
    if k == n - 1 {
        law_put_stores(b, key, lsn, v);
    } else {
        let old_key = decoded::key_of_block(r.blocks[k]).compact();
        let old_value = decoded::block_value(r, r.blocks[k], lsn, version);
        lemma_after_blocks_grow(start, r, shard, lsn, version, n - 1, n);
        law_local_block_is_stored(start, r, shard, lsn, version, n - 1, k);
        law_put_keeps_values(
            b,
            key,
            lsn,
            v.serialized().len() as usize,
            v,
            old_key,
            lsn,
            old_value,
        );
        law_observing_keeps_values(b, key, lsn, old_key, lsn, old_value);
    }
}

/// A block that is not local to shard 0 is observed by it.
pub proof fn law_foreign_block_is_observed(
    start: BatchState,
    r: RecordState,
    shard: ShardRecord,
    lsn: Lsn,
    version: PgMajorVersion,
    n: int,
    k: int,
)
    requires
        0 <= k < n,
        shard.is_shard_zero,
        !shard.key_is_local@[k],
    ensures
        decoded::after_blocks(start, r, shard, lsn, version, n).metadata.contains(
            ValueMeta::Observed(
                ObservedValueMeta { key: decoded::key_of_block(r.blocks[k]).compact(), lsn },
            ),
        ),
    decreases n,
{
    let b = decoded::after_blocks(start, r, shard, lsn, version, n - 1);
    let after = decoded::after_blocks(start, r, shard, lsn, version, n);
    let meta = ValueMeta::Observed(
        ObservedValueMeta { key: decoded::key_of_block(r.blocks[k]).compact(), lsn },
    );
    if k == n - 1 {
        assert(after.metadata[b.metadata.len() as int] == meta);
    } else {
        law_foreign_block_is_observed(start, r, shard, lsn, version, n - 1, k);
        let i = choose|i: int| 0 <= i < b.metadata.len() && b.metadata[i] == meta;
        assert(after.metadata[i] == meta);
    }
}

/// A shard other than shard 0 gets nothing of a record whose blocks are all
/// foreign to it.
pub proof fn law_foreign_blocks_are_dropped(
    start: BatchState,
    r: RecordState,
    shard: ShardRecord,
    lsn: Lsn,
    version: PgMajorVersion,
    n: int,
)
    requires
        !shard.is_shard_zero,
        forall|k: int| 0 <= k < n ==> !(#[trigger] shard.key_is_local@[k]),
    ensures
        decoded::after_blocks(start, r, shard, lsn, version, n) == start,
    decreases n,
{
    if n > 0 {
        law_foreign_blocks_are_dropped(start, r, shard, lsn, version, n - 1);
    }
}

/// The shard that is picked is one of the shards, and shard 0 where it is among
/// them.
pub proof fn lemma_stream_shard(shards: Seq<ShardRecord>)
    ensures
        0 <= decoded::first_shard_zero(shards) <= shards.len(),
        decoded::first_shard_zero(shards) < shards.len()
            ==> shards[decoded::first_shard_zero(shards)].is_shard_zero,
        decoded::first_shard_zero(shards) == shards.len() ==> forall|i: int|
            0 <= i < shards.len() ==> !(#[trigger] shards[i]).is_shard_zero,
    decreases shards.len(),
{
    if shards.len() > 0 {
        let init = shards.drop_last();
        lemma_stream_shard(init);
        if decoded::first_shard_zero(shards) == shards.len() {
            assert forall|i: int| 0 <= i < shards.len() implies !(
            #[trigger] shards[i]).is_shard_zero by {
                if i < shards.len() - 1 {
                    assert(init[i] == shards[i]);
                }
            }
        }
    }
}

/// A record of OrioleDB is stored whole by exactly one shard, with or without
/// blocks: by shard 0 where it is among the shards.
pub proof fn law_orioledb_record_is_stored_whole(
    r: RecordState,
    shards: Seq<ShardRecord>,
    lsn: Lsn,
    version: PgMajorVersion,
    wal_key: Key,
)
    requires
        r.xl_rmid == RM_ORIOLEDB_ID,
        shards.len() > 0,
        decoded::shard_batch(
            r,
            shards,
            decoded::stream_shard(shards),
            lsn,
            version,
            wal_key,
        ).raw.len() <= usize::MAX,
    ensures
        0 <= decoded::stream_shard(shards) < shards.len(),
        (exists|i: int| 0 <= i < shards.len() && (#[trigger] shards[i]).is_shard_zero)
            ==> shards[decoded::stream_shard(shards)].is_shard_zero,
        decoded::shard_batch(
            r,
            shards,
            decoded::stream_shard(shards),
            lsn,
            version,
            wal_key,
        ).holds(wal_key.compact(), lsn, decoded::stream_value(r)),
        forall|i: int|
            0 <= i < shards.len() && i != decoded::stream_shard(shards) ==> #[trigger]
            decoded::shard_batch(r, shards, i, lsn, version, wal_key) == decoded::after_blocks(
                shards[i].batch@,
                r,
                shards[i],
                lsn,
                version,
                r.blocks.len() as int,
            ),
{
    lemma_stream_shard(shards);
    let i = decoded::stream_shard(shards);
    law_put_stores(
        decoded::after_blocks(
            shards[i].batch@,
            r,
            shards[i],
            lsn,
            version,
            r.blocks.len() as int,
        ),
        wal_key.compact(),
        lsn,
        decoded::stream_value(r),
    );
}

/// All entries are at one position.
spec fn all_at(metas: Seq<ValueMeta>, lsn: Lsn) -> bool {
    forall|i: int| 0 <= i < metas.len() ==> (#[trigger] metas[i]).lsn_of() == lsn
}

/// All entries of a record's batch are at the position of the record.
proof fn lemma_entries_at(
    start: BatchState,
    r: RecordState,
    shard: ShardRecord,
    lsn: Lsn,
    version: PgMajorVersion,
    n: int,
)
    requires
        start.metadata.len() == 0,
    ensures
        all_at(decoded::after_blocks(start, r, shard, lsn, version, n).metadata, lsn),
    decreases n,
{
    if n > 0 {
        lemma_entries_at(start, r, shard, lsn, version, n - 1);
        let b = decoded::after_blocks(start, r, shard, lsn, version, n - 1).metadata;
        let after = decoded::after_blocks(start, r, shard, lsn, version, n).metadata;
        assert forall|i: int| 0 <= i < after.len() implies (#[trigger] after[i]).lsn_of()
            == lsn by {
            if i < b.len() {
                assert(after[i] == b[i]);
            }
        }
    }
}

/// The batch that a shard gets of a record has its entries in order.
pub proof fn law_record_is_in_order(
    r: RecordState,
    shards: Seq<ShardRecord>,
    i: int,
    lsn: Lsn,
    version: PgMajorVersion,
    wal_key: Key,
)
    requires
        0 <= i < shards.len(),
        shards[i].batch@.metadata.len() == 0,
    ensures
        serialized_batch::lsn_ordered(
            decoded::shard_batch(r, shards, i, lsn, version, wal_key).metadata,
        ),
{
    lemma_entries_at(shards[i].batch@, r, shards[i], lsn, version, r.blocks.len() as int);
}

/// The batch that a shard has after some blocks is well-formed.
pub proof fn law_blocks_keep_well_formed(
    start: BatchState,
    r: RecordState,
    shard: ShardRecord,
    lsn: Lsn,
    version: PgMajorVersion,
    n: int,
)
    requires
        start.well_formed(),
        0 <= n,
        decoded::after_blocks(start, r, shard, lsn, version, n).raw.len() <= usize::MAX,
    ensures
        decoded::after_blocks(start, r, shard, lsn, version, n).well_formed(),
    decreases n,
{
    if n > 0 {
        let b = decoded::after_blocks(start, r, shard, lsn, version, n - 1);
        let blk = r.blocks[n - 1];
        let key = decoded::key_of_block(blk).compact();
        lemma_after_blocks_grow(start, r, shard, lsn, version, n - 1, n);
        law_blocks_keep_well_formed(start, r, shard, lsn, version, n - 1);
        if shard.key_is_local@[n - 1] {
            law_put_keeps_well_formed(b, key, lsn, decoded::block_value(r, blk, lsn, version));
        } else {
            law_observing_keeps_well_formed(b, key, lsn);
        }
    }
}

/// The batch that a shard gets of a whole record is well-formed.
pub proof fn law_record_keeps_well_formed(
    r: RecordState,
    shards: Seq<ShardRecord>,
    i: int,
    lsn: Lsn,
    version: PgMajorVersion,
    wal_key: Key,
)
    requires
        0 <= i < shards.len(),
        shards[i].batch@.well_formed(),
        decoded::shard_batch(r, shards, i, lsn, version, wal_key).raw.len() <= usize::MAX,
    ensures
        decoded::shard_batch(r, shards, i, lsn, version, wal_key).well_formed(),
{
    let n = r.blocks.len() as int;
    let b = decoded::after_blocks(shards[i].batch@, r, shards[i], lsn, version, n);
    law_blocks_keep_well_formed(shards[i].batch@, r, shards[i], lsn, version, n);
    if r.xl_rmid == RM_ORIOLEDB_ID && i == decoded::stream_shard(shards) {
        law_put_keeps_well_formed(b, wal_key.compact(), lsn, decoded::stream_value(r));
    }
}

/// The buffer that is set aside for the blocks of a record is what they fill.
pub proof fn law_estimate_is_exact_for_blocks(
    start: BatchState,
    r: RecordState,
    shard: ShardRecord,
    lsn: Lsn,
    version: PgMajorVersion,
    n: int,
)
    requires
        0 <= n,
        forall|k: int|
            0 <= k < n && shard.key_is_local@[k] && decoded::is_image(
                r,
                #[trigger] r.blocks[k],
                version,
            ) ==> decoded::image_fits(r, r.blocks[k]),
    ensures
        decoded::after_blocks(start, r, shard, lsn, version, n).raw.len() == start.raw.len()
            + decoded::blocks_estimate(r, shard.key_is_local@, version, n),
    decreases n,
{
    if n > 0 {
        law_estimate_is_exact_for_blocks(start, r, shard, lsn, version, n - 1);
        let blk = r.blocks[n - 1];
        if shard.key_is_local@[n - 1] && decoded::is_image(r, blk, version) {
            law_stored_page_has_page_size(r, blk, lsn);
        }
    }
}

} // verus!
