//! What each operation does to a batch, entry by entry and byte by byte.
use std::ops::Range;
use vstd::prelude::*;
use crate::key::CompactKey;
use crate::key::Key;
use crate::key::KeySpace;
use crate::key;
use crate::lsn::Lsn;
use crate::lsn;
use crate::postgres::DecodedBkpBlock;
use crate::postgres::PgMajorVersion;
use crate::postgres::RecordState;
use crate::postgres;
use crate::serialized_batch::decoded::ShardRecord;
use crate::serialized_batch::decoded;
use crate::serialized_batch::gaps;
use crate::serialized_batch::laws;
use crate::serialized_batch::BatchState;
use crate::serialized_batch::ObservedValueMeta;
use crate::serialized_batch::SerializedValueBatch;
use crate::serialized_batch::SerializedValueMeta;
use crate::serialized_batch::ValueMeta;
use crate::serialized_batch;
use crate::value::Value;
use crate::value::ValueState;
use crate::wire;

verus! {

// --- Batches -----------------------------------------------------------------

/// The state that a contract speaks of is what the fields hold.
pub proof fn law_batch_state_is_its_fields(batch: SerializedValueBatch)
    ensures
        batch@.raw == batch.raw@,
        batch@.metadata == batch.metadata@,
        batch@.max_lsn == batch.max_lsn,
        batch@.len == batch.len,
{
}

/// The empty batch has no bytes, no entries and no values, and position 0.
pub proof fn law_empty_batch_holds_nothing()
    ensures
        BatchState::empty().raw.len() == 0,
        BatchState::empty().metadata.len() == 0,
        BatchState::empty().max_lsn.0 == 0,
        BatchState::empty().len == 0,
{
}

/// An entry of either kind has the key and the position that stand in it.
pub proof fn law_entry_has_its_key(ser: SerializedValueMeta, obs: ObservedValueMeta)
    ensures
        ValueMeta::Serialized(ser).key_of() == ser.key,
        ValueMeta::Serialized(ser).lsn_of() == ser.lsn,
        ValueMeta::Observed(obs).key_of() == obs.key,
        ValueMeta::Observed(obs).lsn_of() == obs.lsn,
{
}

/// A value that is put into a batch goes to the end of the buffer, and its entry
/// to the end of the entries. What was there stays. The entry has the given size
/// and points to where the buffer ended.
pub proof fn law_put_appends(
    b: BatchState,
    key: CompactKey,
    lsn: Lsn,
    size: usize,
    v: ValueState,
)
    requires
        b.raw.len() <= u64::MAX,
    ensures
        ({
            let c = b.with_sized_value(key, lsn, size, v);
            let (n, m) = (b.raw.len() as int, b.metadata.len() as int);
            &&& c.raw.len() == n + v.serialized().len()
            &&& forall|i: int| 0 <= i < n ==> #[trigger] c.raw[i] == b.raw[i]
            &&& forall|i: int|
                0 <= i < v.serialized().len() ==> #[trigger] c.raw[n + i] == v.serialized()[i]
            &&& c.metadata.len() == m + 1
            &&& forall|i: int| 0 <= i < m ==> #[trigger] c.metadata[i] == b.metadata[i]
            &&& c.metadata[m] matches ValueMeta::Serialized(ser)
            &&& ser.key == key && ser.lsn == lsn && ser.batch_offset == n && ser.len == size
            &&& ser.will_init == v.will_init()
            &&& c.len == b.len + 1
            &&& c.max_lsn.0 >= b.max_lsn.0 && c.max_lsn.0 >= lsn.0
            &&& c.max_lsn == b.max_lsn || c.max_lsn == lsn
        }),
        v.serialized().len() <= usize::MAX ==> b.with_value(key, lsn, v) == b.with_sized_value(
            key,
            lsn,
            v.serialized().len() as usize,
            v,
        ),
{
    lsn::law_later_is_the_larger(b.max_lsn, lsn);
}

/// A value that is observed leaves an entry behind the others, and nothing else.
pub proof fn law_observing_appends(b: BatchState, key: CompactKey, lsn: Lsn)
    ensures
        ({
            let c = b.with_observed(key, lsn);
            let m = b.metadata.len() as int;
            &&& c.raw == b.raw && c.len == b.len && c.max_lsn == b.max_lsn
            &&& c.metadata.len() == m + 1
            &&& forall|i: int| 0 <= i < m ==> #[trigger] c.metadata[i] == b.metadata[i]
            &&& c.metadata[m] matches ValueMeta::Observed(obs)
            &&& obs.key == key && obs.lsn == lsn
        }),
{
}

/// Extending a batch puts the other's bytes behind its bytes, and one entry for
/// each of the other's behind its entries: an observed one as it is, a stored
/// one with its offset moved by the size that the buffer had. This holds also
/// where the other has entries and no bytes, or bytes and no entries.
pub proof fn law_extend_appends(a: BatchState, b: BatchState)
    requires
        forall|i: int|
            0 <= i < b.metadata.len() ==> ((#[trigger] b.metadata[i]) matches ValueMeta::Serialized(
                ser,
            ) ==> ser.batch_offset + a.raw.len() <= u64::MAX),
    ensures
        ({
            let c = a.with_batch(b);
            let (n, m) = (a.raw.len() as int, a.metadata.len() as int);
            &&& c.raw.len() == n + b.raw.len()
            &&& forall|i: int| 0 <= i < n ==> #[trigger] c.raw[i] == a.raw[i]
            &&& forall|i: int| 0 <= i < b.raw.len() ==> #[trigger] c.raw[n + i] == b.raw[i]
            &&& c.metadata.len() == m + b.metadata.len()
            &&& forall|i: int| 0 <= i < m ==> #[trigger] c.metadata[i] == a.metadata[i]
            &&& forall|i: int|
                0 <= i < b.metadata.len() ==> match #[trigger] b.metadata[i] {
                    ValueMeta::Observed(obs) => c.metadata[m + i] == ValueMeta::Observed(obs),
                    ValueMeta::Serialized(ser) => {
                        &&& c.metadata[m + i] matches ValueMeta::Serialized(moved)
                        &&& moved.key == ser.key && moved.lsn == ser.lsn
                        &&& moved.len == ser.len && moved.will_init == ser.will_init
                        &&& moved.batch_offset == n + ser.batch_offset
                    },
                }
            &&& c.len == a.len + b.len
            &&& c.max_lsn.0 >= a.max_lsn.0 && c.max_lsn.0 >= b.max_lsn.0
            &&& c.max_lsn == a.max_lsn || c.max_lsn == b.max_lsn
        }),
{
    lsn::law_later_is_the_larger(a.max_lsn, b.max_lsn);
}

/// What either of two batches observed, the extended batch has observed.
pub proof fn law_extend_keeps_observed(a: BatchState, b: BatchState, key: CompactKey, lsn: Lsn)
    ensures
        a.with_batch(b).metadata.contains(ValueMeta::Observed(ObservedValueMeta { key, lsn }))
            <==> a.metadata.contains(ValueMeta::Observed(ObservedValueMeta { key, lsn }))
            || b.metadata.contains(ValueMeta::Observed(ObservedValueMeta { key, lsn })),
{
    let meta = ValueMeta::Observed(ObservedValueMeta { key, lsn });
    let c = a.with_batch(b);
    let m = a.metadata.len() as int;
    if a.metadata.contains(meta) {
        let i = choose|i: int| 0 <= i < a.metadata.len() && a.metadata[i] == meta;
        assert(c.metadata[i] == meta);
    }
    if b.metadata.contains(meta) {
        let i = choose|i: int| 0 <= i < b.metadata.len() && b.metadata[i] == meta;
        assert(c.metadata[m + i] == meta);
    }
    if c.metadata.contains(meta) {
        let i = choose|i: int| 0 <= i < c.metadata.len() && c.metadata[i] == meta;
        if i < m {
            assert(a.metadata[i] == meta);
        } else {
            assert(c.metadata[i] == b.metadata[i - m].shifted(a.raw.len() as int));
            assert(b.metadata[i - m] == meta);
        }
    }
}

/// Merging is associative: it does not matter which of three batches are merged
/// first.
pub proof fn law_extend_is_associative(a: BatchState, b: BatchState, c: BatchState)
    requires
        forall|i: int|
            0 <= i < c.metadata.len() ==> ((#[trigger] c.metadata[i]) matches ValueMeta::Serialized(
                ser,
            ) ==> ser.batch_offset + a.raw.len() + b.raw.len() <= u64::MAX),
        forall|i: int|
            0 <= i < b.metadata.len() ==> ((#[trigger] b.metadata[i]) matches ValueMeta::Serialized(
                ser,
            ) ==> ser.batch_offset + a.raw.len() <= u64::MAX),
    ensures
        a.with_batch(b).with_batch(c) == a.with_batch(b.with_batch(c)),
{
    let (x, y) = (a.with_batch(b).with_batch(c), a.with_batch(b.with_batch(c)));
    assert(x.raw =~= y.raw);
    assert forall|i: int| 0 <= i < x.metadata.len() implies #[trigger] x.metadata[i]
        == y.metadata[i] by {
        let (m, n) = (a.metadata.len() as int, b.metadata.len() as int);
        if i >= m + n {
            let meta = c.metadata[i - m - n];
            assert(x.metadata[i] == meta.shifted((a.raw.len() + b.raw.len()) as int));
        } else if i >= m {
            let meta = b.metadata[i - m];
            assert(x.metadata[i] == meta.shifted(a.raw.len() as int));
        }
    }
    assert(x.metadata =~= y.metadata);
}

/// A batch made from values has one entry for each, in the given order and with
/// the given key, position and size, and one serialized value behind the other:
/// the first at the start of the buffer, each next where the one before ends,
/// and the last up to the end.
pub proof fn law_from_values_lays_out(items: Seq<(CompactKey, Lsn, usize, Value)>, i: int)
    requires
        serialized_batch::batch_of(items).raw.len() <= u64::MAX,
        0 <= i < items.len(),
    ensures
        ({
            let b = serialized_batch::batch_of(items);
            let bytes = items[i].3@.serialized();
            &&& b.len == items.len()
            &&& b.metadata.len() == items.len()
            &&& b.metadata[i] matches ValueMeta::Serialized(ser)
            &&& ser.key == items[i].0 && ser.lsn == items[i].1 && ser.len == items[i].2
            &&& ser.will_init == items[i].3@.will_init()
            &&& ser.batch_offset + bytes.len() <= b.raw.len()
            &&& b.raw.subrange(ser.batch_offset as int, ser.batch_offset + bytes.len()) == bytes
            &&& i == 0 ==> ser.batch_offset == 0
            &&& i + 1 < items.len() ==> (b.metadata[i + 1] matches ValueMeta::Serialized(next)
                && next.batch_offset == ser.batch_offset + bytes.len())
            &&& i + 1 == items.len() ==> b.raw.len() == ser.batch_offset + bytes.len()
        }),
    decreases items.len(),
{
    let init = items.drop_last();
    let last = items.len() - 1;
    let b = serialized_batch::batch_of(items);
    let c = serialized_batch::batch_of(init);
    let bytes = items[i].3@.serialized();
    assert(items[last] == items.last());
    lemma_batch_of_lens(init);
    if init.len() == 0 {
        assert(c == BatchState::empty());
    }
    if i < last {
        law_from_values_lays_out(init, i);
        assert(init[i] == items[i]);
        assert(b.metadata[i] == c.metadata[i]);
        let ser = b.metadata[i]->Serialized_0;
        assert(b.raw.subrange(ser.batch_offset as int, ser.batch_offset + bytes.len())
            =~= c.raw.subrange(ser.batch_offset as int, ser.batch_offset + bytes.len()));
        if i + 1 < last {
            assert(b.metadata[i + 1] == c.metadata[i + 1]);
        }
    } else {
        assert(b.raw.subrange(c.raw.len() as int, b.raw.len() as int) =~= bytes);
    }
}

proof fn lemma_batch_of_lens(items: Seq<(CompactKey, Lsn, usize, Value)>)
    ensures
        serialized_batch::batch_of(items).len == items.len(),
        serialized_batch::batch_of(items).metadata.len() == items.len(),
    decreases items.len(),
{
    if items.len() > 0 {
        lemma_batch_of_lens(items.drop_last());
    }
}

/// No values give the empty batch.
pub proof fn law_from_no_values()
    ensures
        ({
            let b = serialized_batch::batch_of(Seq::empty());
            &&& b.raw.len() == 0 && b.metadata.len() == 0 && b.len == 0 && b.max_lsn.0 == 0
        }),
{
}

/// The sum of the sizes, by its parts.
pub proof fn law_total_size_adds_up(
    items: Seq<(CompactKey, Lsn, usize, Value)>,
    item: (CompactKey, Lsn, usize, Value),
)
    ensures
        serialized_batch::total_size(Seq::empty()) == 0,
        serialized_batch::total_size(items.push(item)) == serialized_batch::total_size(items)
            + item.2,
{
    assert(items.push(item).drop_last() =~= items);
}

/// A key is updated by the values put under it, by those of a batch that is
/// merged in, and by nothing else: not by values that are only observed.
pub proof fn law_updated_keys(
    a: BatchState,
    b: BatchState,
    key: CompactKey,
    lsn: Lsn,
    size: usize,
    v: ValueState,
    k: CompactKey,
)
    ensures
        !BatchState::empty().stores_key(k),
        a.with_sized_value(key, lsn, size, v).stores_key(k) <==> a.stores_key(k) || k == key,
        a.with_observed(key, lsn).stores_key(k) <==> a.stores_key(k),
        a.with_batch(b).stores_key(k) <==> a.stores_key(k) || b.stores_key(k),
{
    let m = a.metadata.len() as int;
    let (p, o, e) = (
        a.with_sized_value(key, lsn, size, v),
        a.with_observed(key, lsn),
        a.with_batch(b),
    );
    assert(p.metadata[m]->Serialized_0.key == key);
    if a.stores_key(k) {
        let i = choose|i: int|
            0 <= i < a.metadata.len() && ((#[trigger] a.metadata[i]) matches ValueMeta::Serialized(
                ser,
            ) && ser.key == k);
        assert(p.metadata[i] == a.metadata[i]);
        assert(o.metadata[i] == a.metadata[i]);
        assert(e.metadata[i] == a.metadata[i]);
    }
    if b.stores_key(k) {
        let i = choose|i: int|
            0 <= i < b.metadata.len() && ((#[trigger] b.metadata[i]) matches ValueMeta::Serialized(
                ser,
            ) && ser.key == k);
        assert(e.metadata[m + i] == b.metadata[i].shifted(a.raw.len() as int));
    }
    if p.stores_key(k) {
        let i = choose|i: int|
            0 <= i < p.metadata.len() && ((#[trigger] p.metadata[i]) matches ValueMeta::Serialized(
                ser,
            ) && ser.key == k);
        if i < m {
            assert(a.metadata[i] == p.metadata[i]);
        }
    }
    if o.stores_key(k) {
        let i = choose|i: int|
            0 <= i < o.metadata.len() && ((#[trigger] o.metadata[i]) matches ValueMeta::Serialized(
                ser,
            ) && ser.key == k);
        assert(i < m);
        assert(a.metadata[i] == o.metadata[i]);
    }
    if e.stores_key(k) {
        let i = choose|i: int|
            0 <= i < e.metadata.len() && ((#[trigger] e.metadata[i]) matches ValueMeta::Serialized(
                ser,
            ) && ser.key == k);
        if i < m {
            assert(a.metadata[i] == e.metadata[i]);
        } else {
            assert(e.metadata[i] == b.metadata[i - m].shifted(a.raw.len() as int));
            assert(b.metadata[i - m] is Serialized);
        }
    }
}

/// A batch updates exactly the keys of its stored entries.
pub proof fn law_updated_keys_have_stored_entries(b: BatchState, k: CompactKey)
    ensures
        b.stores_key(k) <==> exists|i: int|
            0 <= i < b.metadata.len() && #[trigger] b.metadata[i] is Serialized
                && b.metadata[i].key_of() == k,
{
    if b.stores_key(k) {
        let i = choose|i: int|
            0 <= i < b.metadata.len() && ((#[trigger] b.metadata[i]) matches ValueMeta::Serialized(
                ser,
            ) && ser.key == k);
        assert(b.metadata[i] is Serialized && b.metadata[i].key_of() == k);
    }
}

// --- Order check -------------------------------------------------------------

/// The order check is passed exactly where of any two entries of one key the
/// later one is not at an earlier position, whatever kind they are of and
/// whatever stands between them.
pub proof fn law_check_passes_exactly_if_ordered(metas: Seq<ValueMeta>)
    ensures
        serialized_batch::first_violation(metas) is None <==> forall|i: int, j: int|
            0 <= i < j < metas.len() && (#[trigger] metas[i]).key_of() == (
            #[trigger] metas[j]).key_of() ==> metas[i].lsn_of().0 <= metas[j].lsn_of().0,
{
    laws::law_check_finds_disorder(metas);
}

/// What the order check reports are two entries of one key, the second at an
/// earlier position than the first, with no other of the key between them; and
/// before the second all is in order.
pub proof fn law_check_reports_first_disorder(metas: Seq<ValueMeta>)
    requires
        serialized_batch::first_violation(metas) is Some,
    ensures
        ({
            let e = serialized_batch::first_violation(metas)->0;
            exists|i: int, j: int|
                #![trigger metas[i], metas[j]]
                0 <= i < j < metas.len() && metas[i].key_of() == e.key && metas[j].key_of() == e.key
                    && metas[i].lsn_of() == e.prev_lsn && metas[j].lsn_of() == e.lsn && e.lsn.0
                    < e.prev_lsn.0 && (forall|k: int|
                    i < k < j ==> (#[trigger] metas[k]).key_of() != e.key)
                    && serialized_batch::first_violation(metas.take(j)) is None
        }),
    decreases metas.len(),
{
    let e = serialized_batch::first_violation(metas)->0;
    let init = metas.drop_last();
    let last = metas.len() - 1;
    assert(metas.take(last) =~= init);
    if serialized_batch::first_violation(init) is Some {
        law_check_reports_first_disorder(init);
        let (i, j) = choose|i: int, j: int|
            #![trigger init[i], init[j]]
            0 <= i < j < init.len() && init[i].key_of() == e.key && init[j].key_of() == e.key
                && init[i].lsn_of() == e.prev_lsn && init[j].lsn_of() == e.lsn && e.lsn.0
                < e.prev_lsn.0 && (forall|k: int|
                i < k < j ==> (#[trigger] init[k]).key_of() != e.key)
                && serialized_batch::first_violation(init.take(j)) is None;
        assert(metas[i] == init[i] && metas[j] == init[j]);
        assert(metas.take(j) =~= init.take(j));
        assert forall|k: int| i < k < j implies (#[trigger] metas[k]).key_of() != e.key by {
            assert(init[k] == metas[k]);
        }
    } else {
        laws::lemma_last_lsns(init, e.key.0);
        let i = choose|i: int|
            0 <= i < init.len() && (#[trigger] init[i]).key_of().0 == e.key.0
                && init[i].lsn_of().0 == serialized_batch::last_lsns(init)[e.key.0] && forall|
                j: int,
            |
                i < j < init.len() ==> (#[trigger] init[j]).key_of().0 != e.key.0;
        assert(metas[i] == init[i]);
        assert(metas[last] == metas.last());
        assert forall|k: int| i < k < last implies (#[trigger] metas[k]).key_of() != e.key by {
            assert(init[k] == metas[k]);
        }
    }
}

// --- Gaps --------------------------------------------------------------------

/// Every key of a range has its page, from the first key on: the key that lies
/// so many places behind the start is the page of that number. There are as many
/// pages as keys.
pub proof fn law_every_key_of_a_range_has_a_page(range: Range<Key>, lsn: Lsn, k: Key)
    requires
        range.start.rank() <= range.end.rank(),
    ensures
        gaps::range_pages(range, lsn).len() == range.end.rank() - range.start.rank(),
        range.start.rank() <= k.rank() < range.end.rank() ==> {
            &&& gaps::range_pages(range, lsn)[k.rank() - range.start.rank()] == (k.compact(), lsn)
            &&& gaps::range_pages(range, lsn).contains((k.compact(), lsn))
        },
{
    key::law_rank_names_the_key(k);
    if range.start.rank() <= k.rank() < range.end.rank() {
        let pages = gaps::range_pages(range, lsn);
        assert(pages[k.rank() - range.start.rank()] == (k.compact(), lsn));
    }
}

/// Every page of a range is that of one of its keys.
pub proof fn law_every_page_of_a_range_has_a_key(range: Range<Key>, lsn: Lsn, n: int)
    requires
        0 <= n < gaps::range_pages(range, lsn).len(),
        range.start.rank() <= range.end.rank(),
    ensures
        exists|k: Key|
            range.start.rank() <= #[trigger] k.rank() < range.end.rank() && gaps::range_pages(
                range,
                lsn,
            )[n] == (k.compact(), lsn),
{
    key::law_rank_names_the_key(range.start);
    key::law_rank_names_the_key(range.end);
    let k = key::key_of_rank(range.start.rank() + n);
    law_every_key_of_a_range_has_a_page(range, lsn, k);
    key::law_every_rank_is_taken(range.start.rank() + n);
    assert(range.start.rank() <= k.rank() < range.end.rank());
}

/// The pages of ranges are those of each range in turn.
pub proof fn law_ranges_pages_add_up(a: Seq<Range<Key>>, b: Seq<Range<Key>>, lsn: Lsn)
    ensures
        gaps::ranges_pages(Seq::empty(), lsn).len() == 0,
        a.len() == 1 ==> gaps::ranges_pages(a, lsn) == gaps::range_pages(a[0], lsn),
        gaps::ranges_pages(a + b, lsn) == gaps::ranges_pages(a, lsn) + gaps::ranges_pages(b, lsn),
    decreases b.len(),
{
    if a.len() == 1 {
        assert(gaps::ranges_pages(a.drop_last(), lsn) =~= Seq::empty());
        assert(gaps::ranges_pages(a, lsn) =~= gaps::range_pages(a[0], lsn));
    }
    if b.len() == 0 {
        assert(a + b =~= a);
        assert(gaps::ranges_pages(a, lsn) + gaps::ranges_pages(b, lsn) =~= gaps::ranges_pages(
            a,
            lsn,
        ));
    } else {
        assert((a + b).drop_last() =~= a + b.drop_last());
        law_ranges_pages_add_up(a, b.drop_last(), lsn);
        assert(gaps::ranges_pages(a + b, lsn) =~= gaps::ranges_pages(a, lsn) + gaps::ranges_pages(
            b,
            lsn,
        ));
    }
}

/// The pages of gaps are those of each gap in turn, at its position.
pub proof fn law_gap_pages_add_up(a: Seq<(KeySpace, Lsn)>, b: Seq<(KeySpace, Lsn)>)
    ensures
        gaps::gap_pages(Seq::empty()).len() == 0,
        a.len() == 1 ==> gaps::gap_pages(a) == gaps::ranges_pages(a[0].0.ranges@, a[0].1),
        gaps::gap_pages(a + b) == gaps::gap_pages(a) + gaps::gap_pages(b),
    decreases b.len(),
{
    if a.len() == 1 {
        assert(gaps::gap_pages(a.drop_last()) =~= Seq::empty());
        assert(gaps::gap_pages(a) =~= gaps::ranges_pages(a[0].0.ranges@, a[0].1));
    }
    if b.len() == 0 {
        assert(a + b =~= a);
        assert(gaps::gap_pages(a) + gaps::gap_pages(b) =~= gaps::gap_pages(a));
    } else {
        assert((a + b).drop_last() =~= a + b.drop_last());
        law_gap_pages_add_up(a, b.drop_last());
        assert(gaps::gap_pages(a + b) =~= gaps::gap_pages(a) + gaps::gap_pages(b));
    }
}

/// What stands in the middle part stands in the whole.
proof fn lemma_middle_is_contained<A>(a: Seq<A>, b: Seq<A>, c: Seq<A>, x: A)
    requires
        b.contains(x),
    ensures
        (a + b + c).contains(x),
{
    let n = choose|n: int| 0 <= n < b.len() && b[n] == x;
    assert((a + b + c)[a.len() + n] == x);
}

/// What is a page of one range is a page of all of them.
proof fn lemma_range_is_among_ranges(
    ranges: Seq<Range<Key>>,
    lsn: Lsn,
    j: int,
    page: (CompactKey, Lsn),
)
    requires
        0 <= j < ranges.len(),
        gaps::range_pages(ranges[j], lsn).contains(page),
    ensures
        gaps::ranges_pages(ranges, lsn).contains(page),
{
    let (a, b, c) = (ranges.take(j), seq![ranges[j]], ranges.skip(j + 1));
    assert(ranges =~= a + b + c);
    law_ranges_pages_add_up(b, Seq::empty(), lsn);
    law_ranges_pages_add_up(a, b, lsn);
    law_ranges_pages_add_up(a + b, c, lsn);
    lemma_middle_is_contained(
        gaps::ranges_pages(a, lsn),
        gaps::ranges_pages(b, lsn),
        gaps::ranges_pages(c, lsn),
        page,
    );
}

/// What is a page of one gap is a page of all of them.
proof fn lemma_gap_is_among_gaps(gs: Seq<(KeySpace, Lsn)>, i: int, page: (CompactKey, Lsn))
    requires
        0 <= i < gs.len(),
        gaps::ranges_pages(gs[i].0.ranges@, gs[i].1).contains(page),
    ensures
        gaps::gap_pages(gs).contains(page),
{
    let (a, b, c) = (gs.take(i), seq![gs[i]], gs.skip(i + 1));
    assert(gs =~= a + b + c);
    law_gap_pages_add_up(b, Seq::empty());
    law_gap_pages_add_up(a, b);
    law_gap_pages_add_up(a + b, c);
    lemma_middle_is_contained(gaps::gap_pages(a), gaps::gap_pages(b), gaps::gap_pages(c), page);
}

/// Every key of every range of every gap is one of the pages that are filled, at
/// the position of its gap.
pub proof fn law_every_key_of_a_gap_is_filled(
    gs: Seq<(KeySpace, Lsn)>,
    i: int,
    j: int,
    k: Key,
)
    requires
        0 <= i < gs.len(),
        0 <= j < gs[i].0.ranges@.len(),
        gs[i].0.ranges@[j].start.rank() <= k.rank() < gs[i].0.ranges@[j].end.rank(),
    ensures
        gaps::gap_pages(gs).contains((k.compact(), gs[i].1)),
{
    law_every_key_of_a_range_has_a_page(gs[i].0.ranges@[j], gs[i].1, k);
    lemma_range_is_among_ranges(gs[i].0.ranges@, gs[i].1, j, (k.compact(), gs[i].1));
    lemma_gap_is_among_gaps(gs, i, (k.compact(), gs[i].1));
}

/// A gap can be filled where its ranges run forward over keys that can be
/// stored.
pub proof fn law_fillable_range(range: Range<Key>)
    ensures
        gaps::valid_range(range) <==> range.start.rank() <= range.end.rank() && forall|k: Key|
            range.start.rank() <= #[trigger] k.rank() < range.end.rank() ==> k.representable(),
{
    key::law_rank_names_the_key(range.start);
    key::law_rank_names_the_key(range.end);
    if gaps::valid_range(range) {
        assert forall|k: Key|
            range.start.rank() <= #[trigger] k.rank() < range.end.rank() implies
            k.representable() by {
            key::law_rank_names_the_key(k);
            assert(key::key_of_rank(k.rank()).representable());
        }
    }
    if range.start.rank() <= range.end.rank() && forall|k: Key|
        range.start.rank() <= #[trigger] k.rank() < range.end.rank() ==> k.representable() {
        assert forall|rank: int| range.start.rank() <= rank < range.end.rank() implies (
        #[trigger] key::key_of_rank(rank)).representable() by {
            key::law_every_rank_is_taken(rank);
            assert(key::key_of_rank(rank).rank() == rank);
        }
    }
}

/// Any run of blocks of one relation fork can be filled.
pub proof fn law_block_range_is_fillable(start: Key, end: Key)
    requires
        start.representable(),
        start.field1 == end.field1 && start.field2 == end.field2 && start.field3 == end.field3
            && start.field4 == end.field4 && start.field5 == end.field5,
        start.field6 <= end.field6,
    ensures
        gaps::valid_range(Range { start, end }),
{
    key::law_rank_orders_by_fields(end, start);
    assert forall|k: Key| start.rank() <= #[trigger] k.rank() < end.rank() implies
        k.representable() by {
        key::law_rank_orders_by_fields(k, end);
        key::law_rank_orders_by_fields(k, start);
    }
    law_fillable_range(Range { start, end });
}

/// All gaps can be filled where each of their ranges can.
pub proof fn law_fillable_gaps(gs: Seq<(KeySpace, Lsn)>)
    ensures
        gaps::valid_gaps(gs) <==> forall|i: int, j: int|
            0 <= i < gs.len() && 0 <= j < gs[i].0.ranges@.len() ==> gaps::valid_range(
                #[trigger] gs[i].0.ranges@[j],
            ),
{
    if gaps::valid_gaps(gs) {
        assert forall|i: int, j: int|
            0 <= i < gs.len() && 0 <= j < gs[i].0.ranges@.len() implies gaps::valid_range(
            #[trigger] gs[i].0.ranges@[j],
        ) by {
            assert(gaps::valid_ranges(gs[i].0.ranges@));
        }
    }
    if forall|i: int, j: int|
        0 <= i < gs.len() && 0 <= j < gs[i].0.ranges@.len() ==> gaps::valid_range(
            #[trigger] gs[i].0.ranges@[j],
        ) {
        assert forall|i: int| 0 <= i < gs.len() implies gaps::valid_ranges(
            (#[trigger] gs[i]).0.ranges@,
        ) by {
            assert forall|j: int| 0 <= j < gs[i].0.ranges@.len() implies gaps::valid_range(
                #[trigger] gs[i].0.ranges@[j],
            ) by {
            }
        }
    }
}

/// After filling, `max_lsn` is the highest of what it was and the positions of
/// the pages that were filled.
pub proof fn law_latest_is_highest_page(start: Lsn, gs: Seq<(KeySpace, Lsn)>)
    ensures
        start.0 <= gaps::latest(start, gs).0,
        forall|n: int|
            0 <= n < gaps::gap_pages(gs).len() ==> (#[trigger] gaps::gap_pages(gs)[n]).1.0
                <= gaps::latest(start, gs).0,
        gaps::latest(start, gs) == start || exists|n: int|
            0 <= n < gaps::gap_pages(gs).len() && (#[trigger] gaps::gap_pages(gs)[n]).1
                == gaps::latest(start, gs),
{
    laws::lemma_latest_grows(start, gs);
    laws::lemma_latest_is_reached(start, gs);
    assert forall|n: int| 0 <= n < gaps::gap_pages(gs).len() implies (#[trigger] gaps::gap_pages(
        gs,
    )[n]).1.0 <= gaps::latest(start, gs).0 by {
        laws::lemma_pages_not_later(start, gs, n);
    }
}

/// Each byte of a serialized page of zeroes: all are 0 but the one that makes up
/// the length of 8192.
pub proof fn law_zero_page_bytes(j: int)
    requires
        0 <= j < 8204,
    ensures
        gaps::zero_page().serialized().len() == 8204,
        gaps::zero_page_size() == 8204,
        gaps::zero_page().serialized()[j] == (if j == 10 {
            0x20
        } else {
            0int
        }),
        gaps::zero_page() matches ValueState::Image { image } && image.len() == 8192 && forall|
            i: int,
        |
            0 <= i < 8192 ==> #[trigger] image[i] == 0,
{
    let image = gaps::zero_page()->image;
    assert(image.len() == 8192);
    let b = gaps::zero_page().serialized();
    assert(b =~= wire::be_u32_bytes(0) + wire::be_u64_bytes(8192) + image);
    assert(wire::be_u64_bytes(8192) =~= seq![0u8, 0, 0, 0, 0, 0, 0x20, 0]);
}

/// Filling leaves the bytes that there were, and puts one page of zeroes for
/// each page behind them.
pub proof fn law_filling_appends_zero_pages(
    before: BatchState,
    after: BatchState,
    pages: Seq<(CompactKey, Lsn)>,
    n: int,
    j: int,
)
    requires
        gaps::filled(before, after, pages),
        0 <= n < pages.len(),
        0 <= j < 8204,
    ensures
        after.len == before.len + pages.len(),
        after.raw.len() == before.raw.len() + 8204 * pages.len(),
        forall|i: int| 0 <= i < before.raw.len() ==> #[trigger] after.raw[i] == before.raw[i],
        after.raw[before.raw.len() + 8204 * n + j] == (if j == 10 {
            0x20
        } else {
            0int
        }),
{
    laws::lemma_zero_pages_at(pages.len(), n);
    law_zero_page_bytes(j);
    let all = gaps::zero_pages(pages.len());
    let one = all.subrange(n * 8204, (n + 1) * 8204);
    assert(one[j] == all[n * 8204 + j]);
}

/// Filling with no pages adds no bytes and no values.
pub proof fn law_filling_nothing_adds_nothing(before: BatchState, after: BatchState)
    requires
        gaps::filled(before, after, Seq::empty()),
    ensures
        after.raw == before.raw,
        after.len == before.len,
{
    assert(before.raw + gaps::zero_pages(0) =~= before.raw);
}

/// After filling, the entries stand in the order of key and position, and no two
/// have the same of both.
pub proof fn law_filling_sorts(
    before: BatchState,
    after: BatchState,
    pages: Seq<(CompactKey, Lsn)>,
    i: int,
    j: int,
)
    requires
        gaps::filled(before, after, pages),
        0 <= i < j < after.metadata.len(),
    ensures
        ({
            let (a, b) = (after.metadata[i], after.metadata[j]);
            ||| a.key_of().0 < b.key_of().0
            ||| a.key_of().0 == b.key_of().0 && a.lsn_of().0 < b.lsn_of().0
        }),
{
    assert(gaps::precedes(after.metadata[i], after.metadata[j]));
}

/// Every entry that there was, and every page, is found after filling by its key
/// and position.
pub proof fn law_filling_loses_nothing(
    before: BatchState,
    after: BatchState,
    pages: Seq<(CompactKey, Lsn)>,
    n: int,
)
    requires
        gaps::filled(before, after, pages),
    ensures
        0 <= n < before.metadata.len() ==> exists|i: int|
            0 <= i < after.metadata.len() && (#[trigger] after.metadata[i]).key_of()
                == before.metadata[n].key_of() && after.metadata[i].lsn_of()
                == before.metadata[n].lsn_of(),
        0 <= n < pages.len() ==> exists|i: int|
            0 <= i < after.metadata.len() && (#[trigger] after.metadata[i]).key_of() == pages[n].0
                && after.metadata[i].lsn_of() == pages[n].1,
{
    let found = gaps::entries(before.metadata);
    let offset = before.raw.len() as int;
    gaps::lemma_entries_of_sorted(after.metadata);
    if 0 <= n < before.metadata.len() {
        let id = gaps::entry_id(before.metadata[n]);
        laws::lemma_entry_is_found(before.metadata, n);
        laws::lemma_with_pages(found, offset, pages, id);
        let i = choose|i: int|
            0 <= i < after.metadata.len() && gaps::entry_id(#[trigger] after.metadata[i]) == id;
        assert(after.metadata[i].key_of() == before.metadata[n].key_of());
    }
    if 0 <= n < pages.len() {
        let id = (pages[n].0.0, pages[n].1.0);
        laws::lemma_with_pages(found, offset, pages, id);
        let i = choose|i: int|
            0 <= i < after.metadata.len() && gaps::entry_id(#[trigger] after.metadata[i]) == id;
        assert(after.metadata[i].key_of() == pages[n].0);
    }
}

/// Every entry after filling is one that there was, the last with its key and
/// position; or, where there was none, the entry of the first page with them,
/// which points to that page's bytes.
pub proof fn law_filling_invents_nothing(
    before: BatchState,
    after: BatchState,
    pages: Seq<(CompactKey, Lsn)>,
    i: int,
)
    requires
        gaps::filled(before, after, pages),
        after.raw.len() <= usize::MAX,
        0 <= i < after.metadata.len(),
    ensures
        ({
            let (key, lsn) = (after.metadata[i].key_of(), after.metadata[i].lsn_of());
            ||| exists|n: int|
                0 <= n < before.metadata.len() && #[trigger] before.metadata[n]
                    == after.metadata[i] && forall|m: int|
                    n < m < before.metadata.len() ==> (#[trigger] before.metadata[m]).key_of()
                        != key || before.metadata[m].lsn_of() != lsn
            ||| (forall|n: int|
                0 <= n < before.metadata.len() ==> (#[trigger] before.metadata[n]).key_of() != key
                    || before.metadata[n].lsn_of() != lsn) && exists|n: int|
                0 <= n < pages.len() && #[trigger] pages[n] == (key, lsn) && (forall|m: int|
                    0 <= m < n ==> #[trigger] pages[m] != (key, lsn)) && after.metadata[i]
                    == ValueMeta::Serialized(
                    SerializedValueMeta {
                        key,
                        lsn,
                        batch_offset: (before.raw.len() + 8204 * n) as u64,
                        len: 8204,
                        will_init: true,
                    },
                )
        }),
{
    let (key, lsn) = (after.metadata[i].key_of(), after.metadata[i].lsn_of());
    let id = gaps::entry_id(after.metadata[i]);
    let found = gaps::entries(before.metadata);
    let offset = before.raw.len() as int;
    gaps::lemma_entries_of_sorted(after.metadata);
    laws::lemma_with_pages(found, offset, pages, id);
    if found.dom().contains(id) {
        laws::lemma_found_entry(before.metadata, id);
        let n = choose|n: int|
            0 <= n < before.metadata.len() && #[trigger] before.metadata[n] == found[id]
                && gaps::entry_id(before.metadata[n]) == id && forall|m: int|
                n < m < before.metadata.len() ==> gaps::entry_id(#[trigger] before.metadata[m])
                    != id;
        assert(before.metadata[n] == after.metadata[i]);
        assert forall|m: int| n < m < before.metadata.len() implies (
        #[trigger] before.metadata[m]).key_of() != key || before.metadata[m].lsn_of() != lsn by {
            assert(gaps::entry_id(before.metadata[m]) != id);
        }
    } else {
        assert forall|n: int| 0 <= n < before.metadata.len() implies (
        #[trigger] before.metadata[n]).key_of() != key || before.metadata[n].lsn_of() != lsn by {
            laws::lemma_entry_is_found(before.metadata, n);
        }
        let n = choose|n: int|
            0 <= n < pages.len() && ((#[trigger] pages[n]).0.0, pages[n].1.0) == id
                && gaps::with_pages(found, offset, pages)[id] == gaps::zero_entry(
                offset + n * gaps::zero_page_size(),
                pages[n],
            ) && forall|m: int| 0 <= m < n ==> ((#[trigger] pages[m]).0.0, pages[m].1.0) != id;
        assert(pages[n] == (key, lsn));
        assert forall|m: int| 0 <= m < n implies #[trigger] pages[m] != (key, lsn) by {
            assert((pages[m].0.0, pages[m].1.0) != id);
        }
        law_zero_page_bytes(0);
        assert(n * gaps::zero_page_size() == 8204 * n);
    }
}

// --- Decoded records ---------------------------------------------------------

/// The image of a block before its position is set, whatever record it stands
/// in: the bytes of the record up to the hole, zeroes for the hole, and from
/// there on the bytes of the record that follow. A hole behind the image is put
/// at its end.
pub proof fn law_hole_is_put_back(r: RecordState, blk: DecodedBkpBlock, i: int)
    requires
        decoded::image_fits(r, blk),
        0 <= i < 8192,
    ensures
        ({
            let page = decoded::whole_image(r, blk);
            let hole = if blk.hole_offset <= blk.bimg_len {
                blk.hole_offset as int
            } else {
                blk.bimg_len as int
            };
            &&& page.len() == 8192
            &&& blk.hole_length == 0 || i < hole ==> page[i] == r.record[blk.bimg_offset + i]
            &&& blk.hole_length != 0 && hole <= i < hole + blk.hole_length ==> page[i] == 0
            &&& blk.hole_length != 0 && hole + blk.hole_length <= i ==> page[i]
                == r.record[blk.bimg_offset + i - blk.hole_length]
        }),
{
}

/// Each byte of the page that is stored. Of a record of OrioleDB, and of a page
/// whose number at offset 14 is 0, it is the byte of the image. Of another page
/// the first eight bytes are the position, high half first, each half
/// little-endian, and the others are those of the image.
pub proof fn law_stored_page_bytes(r: RecordState, blk: DecodedBkpBlock, lsn: Lsn, i: int)
    requires
        decoded::image_fits(r, blk),
        0 <= i < 8192,
    ensures
        ({
            let image = decoded::whole_image(r, blk);
            let page = decoded::stored_page(r, blk, lsn);
            &&& page.len() == 8192
            &&& r.xl_rmid == 129 || image[14] == 0 && image[15] == 0 || i >= 8 ==> page[i]
                == image[i]
            &&& r.xl_rmid != 129 && (image[14] != 0 || image[15] != 0) ==> {
                &&& 0x1_0000_0000 * wire::le_u32_at(page, 0) + wire::le_u32_at(page, 4) == lsn.0
            }
        }),
{
    law_hole_is_put_back(r, blk, i);
    postgres::law_page_lsn_is_written(decoded::whole_image(r, blk), lsn);
}

/// An image can be taken out of a record exactly where it lies within it and
/// makes up a page together with its hole, which lies within a page.
pub proof fn law_image_fits_exactly_if(r: RecordState, blk: DecodedBkpBlock)
    ensures
        decoded::image_fits(r, blk) <==> blk.bimg_offset + blk.bimg_len <= r.record.len()
            && blk.bimg_len + blk.hole_length == 8192 && (blk.hole_length == 0 || blk.hole_offset
            <= 8192),
{
}

/// A block is stored as an image exactly where its image is there, is to be
/// restored, is not empty and not compressed, and the record is a full-page
/// image of the log itself or any record of OrioleDB.
pub proof fn law_image_exactly_if(r: RecordState, blk: DecodedBkpBlock, version: PgMajorVersion)
    ensures
        decoded::is_image(r, blk, version) <==> {
            &&& blk.has_image && blk.apply_image && blk.bimg_len > 0
            &&& r.xl_rmid == 129 || r.xl_rmid == 0 && (r.xl_info == 0xb0 || r.xl_info == 0xa0)
            &&& !postgres::is_compressed(blk.bimg_info, version)
        },
{
}

/// What is stored of a block is its page, or the record, which rebuilds the page
/// where the block says so or has an image to be restored.
pub proof fn law_value_of_each_block(
    r: RecordState,
    blk: DecodedBkpBlock,
    lsn: Lsn,
    version: PgMajorVersion,
)
    ensures
        ({
            let v = decoded::block_value(r, blk, lsn, version);
            &&& decoded::is_image(r, blk, version) ==> v == (ValueState::Image {
                image: decoded::stored_page(r, blk, lsn),
            })
            &&& !decoded::is_image(r, blk, version) ==> v == (ValueState::Postgres {
                will_init: blk.will_init || blk.apply_image,
                rec: r.record,
            })
        }),
{
}

/// The key of a block has the block's tablespace, database, relation, fork and
/// number.
pub proof fn law_key_of_a_block(blk: DecodedBkpBlock)
    ensures
        decoded::key_of_block(blk) == (Key {
            field1: 0,
            field2: blk.rnode_spcnode,
            field3: blk.rnode_dbnode,
            field4: blk.rnode_relnode,
            field5: blk.forknum,
            field6: blk.blkno,
        }),
{
}

/// Blocks are taken up to the first whose tablespace number has more than 16
/// bits and is none of the two marks.
pub proof fn law_blocks_up_to_first_unsupported(blocks: Seq<DecodedBkpBlock>)
    ensures
        0 <= decoded::supported_blocks(blocks) <= blocks.len(),
        forall|i: int|
            0 <= i < decoded::supported_blocks(blocks) ==> (#[trigger] blocks[i]).rnode_spcnode
                < 0x1_0000 || blocks[i].rnode_spcnode == 0xFFFF_FFFF || blocks[i].rnode_spcnode
                == 0x2222_2222,
        decoded::supported_blocks(blocks) < blocks.len() ==> {
            let spcnode = blocks[decoded::supported_blocks(blocks)].rnode_spcnode;
            spcnode >= 0x1_0000 && spcnode != 0xFFFF_FFFF && spcnode != 0x2222_2222
        },
    decreases blocks.len(),
{
    if blocks.len() > 0 {
        let init = blocks.drop_last();
        law_blocks_up_to_first_unsupported(init);
        assert(blocks[blocks.len() - 1] == blocks.last());
        assert forall|i: int| 0 <= i < decoded::supported_blocks(blocks) implies (
        #[trigger] blocks[i]).rnode_spcnode < 0x1_0000 || blocks[i].rnode_spcnode == 0xFFFF_FFFF
            || blocks[i].rnode_spcnode == 0x2222_2222 by {
            if i < init.len() {
                assert(init[i] == blocks[i]);
            }
        }
    }
}

/// What one more block adds to a shard's batch. Local to the shard, it adds its
/// value; foreign to it, it adds an observed entry to shard 0 and nothing to
/// another.
pub proof fn law_each_block_adds_its_own(
    start: BatchState,
    r: RecordState,
    shard: ShardRecord,
    lsn: Lsn,
    version: PgMajorVersion,
    n: int,
)
    requires
        0 <= n,
        decoded::after_blocks(start, r, shard, lsn, version, n + 1).raw.len() <= usize::MAX,
    ensures
        decoded::after_blocks(start, r, shard, lsn, version, 0) == start,
        ({
            let b = decoded::after_blocks(start, r, shard, lsn, version, n);
            let c = decoded::after_blocks(start, r, shard, lsn, version, n + 1);
            let m = b.metadata.len() as int;
            let key = decoded::key_of_block(r.blocks[n]).compact();
            let v = decoded::block_value(r, r.blocks[n], lsn, version);
            if shard.key_is_local@[n] {
                &&& c.raw == b.raw + v.serialized()
                &&& c.len == b.len + 1
                &&& c.max_lsn.0 >= b.max_lsn.0 && c.max_lsn.0 >= lsn.0
                &&& c.max_lsn == b.max_lsn || c.max_lsn == lsn
                &&& c.metadata.len() == m + 1
                &&& forall|i: int| 0 <= i < m ==> #[trigger] c.metadata[i] == b.metadata[i]
                &&& c.metadata[m] matches ValueMeta::Serialized(ser)
                &&& ser.key == key && ser.lsn == lsn && ser.will_init == v.will_init()
                &&& ser.batch_offset == b.raw.len() && ser.len == v.serialized().len()
            } else if shard.is_shard_zero {
                &&& c.raw == b.raw && c.len == b.len && c.max_lsn == b.max_lsn
                &&& c.metadata.len() == m + 1
                &&& forall|i: int| 0 <= i < m ==> #[trigger] c.metadata[i] == b.metadata[i]
                &&& c.metadata[m] matches ValueMeta::Observed(obs)
                &&& obs.key == key && obs.lsn == lsn
            } else {
                c == b
            }
        }),
{
    let b = decoded::after_blocks(start, r, shard, lsn, version, n);
    lsn::law_later_is_the_larger(b.max_lsn, lsn);
}

/// A record of OrioleDB goes whole to the first shard 0 that is listed, and
/// where none is, to the first shard.
pub proof fn law_shard_of_the_whole_record(shards: Seq<ShardRecord>)
    ensures
        ({
            let n = decoded::stream_shard(shards);
            &&& (exists|i: int| 0 <= i < shards.len() && (#[trigger] shards[i]).is_shard_zero)
                ==> 0 <= n < shards.len() && shards[n].is_shard_zero && forall|i: int|
                0 <= i < n ==> !(#[trigger] shards[i]).is_shard_zero
            &&& (forall|i: int| 0 <= i < shards.len() ==> !(#[trigger] shards[i]).is_shard_zero)
                ==> n == 0
        }),
{
    laws::lemma_stream_shard(shards);
    lemma_no_shard_zero_before(shards);
}

proof fn lemma_no_shard_zero_before(shards: Seq<ShardRecord>)
    ensures
        forall|i: int|
            0 <= i < decoded::first_shard_zero(shards) && i < shards.len() ==> !(
            #[trigger] shards[i]).is_shard_zero,
    decreases shards.len(),
{
    if shards.len() > 0 {
        let init = shards.drop_last();
        lemma_no_shard_zero_before(init);
        laws::lemma_stream_shard(init);
        assert forall|i: int|
            0 <= i < decoded::first_shard_zero(shards) && i < shards.len() implies !(
        #[trigger] shards[i]).is_shard_zero by {
            if i < init.len() {
                assert(init[i] == shards[i]);
            }
        }
    }
}

/// The batch of a whole record is that of its blocks; the one shard that stores
/// a record of OrioleDB whole has one more value, which is the record under its
/// own key and rebuilds from nothing.
pub proof fn law_whole_record_is_one_value_more(
    r: RecordState,
    shards: Seq<ShardRecord>,
    i: int,
    lsn: Lsn,
    version: PgMajorVersion,
    wal_key: Key,
)
    requires
        0 <= i < shards.len(),
        decoded::shard_batch(r, shards, i, lsn, version, wal_key).raw.len() <= usize::MAX,
    ensures
        ({
            let b = decoded::after_blocks(
                shards[i].batch@,
                r,
                shards[i],
                lsn,
                version,
                r.blocks.len() as int,
            );
            let c = decoded::shard_batch(r, shards, i, lsn, version, wal_key);
            let m = b.metadata.len() as int;
            let v = ValueState::Postgres { will_init: true, rec: r.record };
            if r.xl_rmid == 129 && i == decoded::stream_shard(shards) {
                &&& c.raw == b.raw + v.serialized()
                &&& c.len == b.len + 1
                &&& c.max_lsn.0 >= b.max_lsn.0 && c.max_lsn.0 >= lsn.0
                &&& c.max_lsn == b.max_lsn || c.max_lsn == lsn
                &&& c.metadata.len() == m + 1
                &&& forall|k: int| 0 <= k < m ==> #[trigger] c.metadata[k] == b.metadata[k]
                &&& c.metadata[m] matches ValueMeta::Serialized(ser)
                &&& ser.key == wal_key.compact() && ser.lsn == lsn && ser.will_init
                &&& ser.batch_offset == b.raw.len() && ser.len == v.serialized().len()
            } else {
                c == b
            }
        }),
{
    let b = decoded::after_blocks(
        shards[i].batch@,
        r,
        shards[i],
        lsn,
        version,
        r.blocks.len() as int,
    );
    lsn::law_later_is_the_larger(b.max_lsn, lsn);
}

/// What a call leaves in the shards: the shards themselves as they were, and in
/// each batch what the record, or its first blocks, give that shard.
pub proof fn law_every_shard_gets_its_own(
    before: Seq<ShardRecord>,
    after: Seq<ShardRecord>,
    r: RecordState,
    lsn: Lsn,
    version: PgMajorVersion,
    wal_key: Key,
    n: int,
    i: int,
)
    requires
        0 <= i < before.len(),
    ensures
        decoded::same_shards(before, after) ==> {
            &&& after.len() == before.len()
            &&& after[i].is_shard_zero == before[i].is_shard_zero
            &&& after[i].key_is_local == before[i].key_is_local
        },
        decoded::same_shards(before, after) && decoded::hold_record(
            before,
            after,
            r,
            lsn,
            version,
            wal_key,
        ) ==> after[i].batch@ == decoded::shard_batch(r, before, i, lsn, version, wal_key),
        decoded::same_shards(before, after) && decoded::hold_blocks(
            before,
            after,
            r,
            lsn,
            version,
            n,
        ) ==> after[i].batch@ == decoded::after_blocks(
            before[i].batch@,
            r,
            before[i],
            lsn,
            version,
            n,
        ),
{
    if decoded::same_shards(before, after) {
        assert(after[i].is_shard_zero == before[i].is_shard_zero);
    }
}

/// A shard is ready exactly where its batch is empty, it has a decision for
/// every block, and its values can be counted and held.
pub proof fn law_ready_exactly_if(r: RecordState, shard: ShardRecord, version: PgMajorVersion)
    ensures
        decoded::ready(r, shard, version) <==> {
            &&& shard.key_is_local@.len() == r.blocks.len()
            &&& shard.batch@.raw.len() == 0 && shard.batch@.metadata.len() == 0
            &&& shard.batch@.len + r.blocks.len() < usize::MAX
            &&& decoded::estimate(r, shard.key_is_local@, version) <= isize::MAX
        },
{
}

/// The images that must fit are those of the supported blocks that some shard
/// stores.
pub proof fn law_images_fit_exactly_if(
    r: RecordState,
    shards: Seq<ShardRecord>,
    version: PgMajorVersion,
)
    ensures
        decoded::images_fit(r, shards, version) <==> forall|n: int, i: int|
            #![trigger r.blocks[n], shards[i]]
            0 <= n < decoded::supported_blocks(r.blocks) && 0 <= i < shards.len()
                && shards[i].key_is_local@[n] && decoded::is_image(r, r.blocks[n], version)
                ==> decoded::image_fits(r, r.blocks[n]),
{
    if decoded::images_fit(r, shards, version) {
        assert forall|n: int, i: int|
            #![trigger r.blocks[n], shards[i]]
            0 <= n < decoded::supported_blocks(r.blocks) && 0 <= i < shards.len()
                && shards[i].key_is_local@[n] && decoded::is_image(
                r,
                r.blocks[n],
                version,
            ) implies decoded::image_fits(r, r.blocks[n]) by {
            assert(decoded::is_stored(shards, n));
        }
    }
    if forall|n: int, i: int|
        #![trigger r.blocks[n], shards[i]]
        0 <= n < decoded::supported_blocks(r.blocks) && 0 <= i < shards.len()
            && shards[i].key_is_local@[n] && decoded::is_image(r, r.blocks[n], version)
            ==> decoded::image_fits(r, r.blocks[n]) {
        assert forall|n: int|
            0 <= n < decoded::supported_blocks(r.blocks) && decoded::is_stored(shards, n)
                && decoded::is_image(r, #[trigger] r.blocks[n], version) implies decoded::image_fits(
            r,
            r.blocks[n],
        ) by {
            let i = choose|i: int|
                0 <= i < shards.len() && (#[trigger] shards[i]).key_is_local@[n];
            assert(shards[i].key_is_local@[n]);
        }
    }
}

/// The estimate of a record's buffer grows with each local block by what its
/// value takes: 8204 bytes for an image, 17 more than the record for another. A
/// record of OrioleDB without blocks needs 17 bytes more than it has.
pub proof fn law_estimate_adds_up(
    r: RecordState,
    key_is_local: Seq<bool>,
    version: PgMajorVersion,
    n: int,
)
    requires
        0 <= n,
    ensures
        decoded::blocks_estimate(r, key_is_local, version, 0) == 0,
        ({
            let grown = decoded::blocks_estimate(r, key_is_local, version, n + 1)
                - decoded::blocks_estimate(r, key_is_local, version, n);
            &&& !key_is_local[n] ==> grown == 0
            &&& key_is_local[n] && decoded::is_image(r, r.blocks[n], version) ==> grown == 8204
            &&& key_is_local[n] && !decoded::is_image(r, r.blocks[n], version) ==> grown == 17
                + r.record.len()
        }),
        r.blocks.len() > 0 || r.xl_rmid != 129 ==> decoded::estimate(r, key_is_local, version)
            == decoded::blocks_estimate(r, key_is_local, version, r.blocks.len() as int),
        r.blocks.len() == 0 && r.xl_rmid == 129 ==> decoded::estimate(r, key_is_local, version)
            == 17 + r.record.len(),
{
}

} // verus!
