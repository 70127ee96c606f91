//! Filling of gaps in relations with zero pages.
//!
//! A relation may be extended past pages that were never written. Those pages
//! are added to the batch as images of zeroes. The raw buffer has no order of
//! its own, so the images go to its end; the metadata entries are brought into
//! the order of key and position.
use std::ops::Range;
use vstd::prelude::*;
use crate::buffers;
use crate::key::CompactKey;
use crate::key::Key;
use crate::key::KeySpace;
use crate::key;
use crate::lsn::later_of;
use crate::lsn::Lsn;
use crate::lsn;
use crate::postgres::BLCKSZ;
use crate::serialized_batch::BatchState;
use crate::serialized_batch::SerializedValueBatch;
use crate::serialized_batch::SerializedValueMeta;
use crate::serialized_batch::ValueMeta;
use crate::value::Value;
use crate::value::ValueState;

verus! {

// --- Model -------------------------------------------------------------------

/// A page of zeroes.
pub open spec fn zero_page() -> ValueState {
    ValueState::Image { image: Seq::new(BLCKSZ as nat, |i: int| 0u8) }
}

/// Size of a serialized page of zeroes.
pub open spec fn zero_page_size() -> int {
    12 + BLCKSZ
}

/// So many pages of zeroes, serialized one behind the other.
pub open spec fn zero_pages(n: nat) -> Seq<u8>
    decreases n,
{
    if n == 0 {
        Seq::empty()
    } else {
        zero_pages((n - 1) as nat) + zero_page().serialized()
    }
}

/// What an entry is found by.
pub open spec fn entry_id(meta: ValueMeta) -> (i128, u64) {
    (meta.key_of().0, meta.lsn_of().0)
}

/// `a` comes before `b` in the order of key and position.
pub open spec fn precedes(a: ValueMeta, b: ValueMeta) -> bool {
    a.key_of().0 < b.key_of().0 || (a.key_of().0 == b.key_of().0 && a.lsn_of().0 < b.lsn_of().0)
}

/// The entries are in the order of key and position, none twice.
pub open spec fn sorted(metas: Seq<ValueMeta>) -> bool {
    forall|i: int, j: int|
        0 <= i < j < metas.len() ==> precedes(#[trigger] metas[i], #[trigger] metas[j])
}

/// The entries by what they are found by. Of several with the same key and
/// position, the last counts.
pub open spec fn entries(metas: Seq<ValueMeta>) -> Map<(i128, u64), ValueMeta>
    decreases metas.len(),
{
    if metas.len() == 0 {
        Map::empty()
    } else {
        entries(metas.drop_last()).insert(entry_id(metas.last()), metas.last())
    }
}

/// The pages of a range of keys, at `lsn`.
pub open spec fn range_pages(range: Range<Key>, lsn: Lsn) -> Seq<(CompactKey, Lsn)> {
    Seq::new(
        (range.end.rank() - range.start.rank()) as nat,
        |i: int| (key::key_of_rank(range.start.rank() + i).compact(), lsn),
    )
}

/// The pages of some ranges of keys, at `lsn`.
pub open spec fn ranges_pages(ranges: Seq<Range<Key>>, lsn: Lsn) -> Seq<(CompactKey, Lsn)>
    decreases ranges.len(),
{
    if ranges.len() == 0 {
        Seq::empty()
    } else {
        ranges_pages(ranges.drop_last(), lsn) + range_pages(ranges.last(), lsn)
    }
}

/// The pages of some gaps.
pub open spec fn gap_pages(gaps: Seq<(KeySpace, Lsn)>) -> Seq<(CompactKey, Lsn)>
    decreases gaps.len(),
{
    if gaps.len() == 0 {
        Seq::empty()
    } else {
        gap_pages(gaps.drop_last()) + ranges_pages(gaps.last().0.ranges@, gaps.last().1)
    }
}

/// The range runs forward, and its keys have compact forms.
pub open spec fn valid_range(range: Range<Key>) -> bool {
    &&& range.start.rank() <= range.end.rank()
    &&& forall|rank: int|
        range.start.rank() <= rank < range.end.rank() ==> (#[trigger] key::key_of_rank(
            rank,
        )).representable()
}

/// All ranges are valid.
pub open spec fn valid_ranges(ranges: Seq<Range<Key>>) -> bool {
    forall|i: int| 0 <= i < ranges.len() ==> valid_range(#[trigger] ranges[i])
}

/// All ranges of all gaps are valid.
pub open spec fn valid_gaps(gaps: Seq<(KeySpace, Lsn)>) -> bool {
    forall|i: int| 0 <= i < gaps.len() ==> valid_ranges((#[trigger] gaps[i]).0.ranges@)
}

/// The latest of `start` and the positions of the gaps that have pages.
pub open spec fn latest(start: Lsn, gaps: Seq<(KeySpace, Lsn)>) -> Lsn
    decreases gaps.len(),
{
    if gaps.len() == 0 {
        start
    } else if ranges_pages(gaps.last().0.ranges@, gaps.last().1).len() == 0 {
        latest(start, gaps.drop_last())
    } else {
        lsn::later(latest(start, gaps.drop_last()), gaps.last().1)
    }
}

/// The entry of a page of zeroes that is stored at `offset`.
pub open spec fn zero_entry(offset: int, page: (CompactKey, Lsn)) -> ValueMeta {
    ValueMeta::Serialized(
        SerializedValueMeta {
            key: page.0,
            lsn: page.1,
            batch_offset: offset as u64,
            len: zero_page_size() as usize,
            will_init: true,
        },
    )
}

/// The entries with one for each page, where there was none. The pages are
/// stored one behind the other from `offset` on.
pub open spec fn with_pages(
    before: Map<(i128, u64), ValueMeta>,
    offset: int,
    pages: Seq<(CompactKey, Lsn)>,
) -> Map<(i128, u64), ValueMeta>
    decreases pages.len(),
{
    if pages.len() == 0 {
        before
    } else {
        let m = with_pages(before, offset, pages.drop_last());
        let page = pages.last();
        if m.dom().contains((page.0.0, page.1.0)) {
            m
        } else {
            m.insert(
                (page.0.0, page.1.0),
                zero_entry(offset + (pages.len() - 1) * zero_page_size(), page),
            )
        }
    }
}

/// `after` is `before` with pages of zeroes, and with its entries in order.
pub open spec fn filled(
    before: BatchState,
    after: BatchState,
    pages: Seq<(CompactKey, Lsn)>,
) -> bool {
    &&& after.raw == before.raw + zero_pages(pages.len())
    &&& after.len == before.len + pages.len()
    &&& sorted(after.metadata)
    &&& entries(after.metadata) == with_pages(
        entries(before.metadata),
        before.raw.len() as int,
        pages,
    )
}

// --- Entries in order --------------------------------------------------------

/// Where the entries are in order, each is the one found by its key and
/// position, and no others are found.
pub proof fn lemma_entries_of_sorted(metas: Seq<ValueMeta>)
    requires
        sorted(metas),
    ensures
        forall|i: int|
            0 <= i < metas.len() ==> entries(metas).dom().contains(
                entry_id(#[trigger] metas[i]),
            ) && entries(metas)[entry_id(metas[i])] == metas[i],
        forall|id: (i128, u64)| #[trigger]
            entries(metas).dom().contains(id) ==> exists|i: int|
                0 <= i < metas.len() && entry_id(#[trigger] metas[i]) == id,
    decreases metas.len(),
{
    if metas.len() > 0 {
        let init = metas.drop_last();
        lemma_entries_of_sorted(init);
        assert forall|i: int| 0 <= i < metas.len() implies entries(metas).dom().contains(
            entry_id(#[trigger] metas[i]),
        ) && entries(metas)[entry_id(metas[i])] == metas[i] by {
            if i < metas.len() - 1 {
                assert(init[i] == metas[i]);
                assert(precedes(metas[i], metas[metas.len() - 1]));
            }
        }
        assert forall|id: (i128, u64)| #[trigger]
            entries(metas).dom().contains(id) implies exists|i: int|
            0 <= i < metas.len() && entry_id(#[trigger] metas[i]) == id by {
            if id == entry_id(metas.last()) {
                assert(entry_id(metas[metas.len() - 1]) == id);
            } else {
                assert(entries(init).dom().contains(id));
                let i = choose|i: int| 0 <= i < init.len() && entry_id(#[trigger] init[i]) == id;
                assert(entry_id(metas[i]) == id);
            }
        }
    }
}

/// Entries in order that differ by one entry are found accordingly.
proof fn lemma_entries_inserted(before: Seq<ValueMeta>, after: Seq<ValueMeta>, meta: ValueMeta)
    requires
        sorted(before),
        sorted(after),
        after.contains(meta),
        forall|i: int|
            0 <= i < before.len() && entry_id(#[trigger] before[i]) != entry_id(meta)
                ==> after.contains(before[i]),
        forall|i: int|
            0 <= i < after.len() ==> #[trigger] after[i] == meta || before.contains(after[i]),
    ensures
        entries(after) == entries(before).insert(entry_id(meta), meta),
{
    let expected = entries(before).insert(entry_id(meta), meta);
    lemma_entries_of_sorted(before);
    lemma_entries_of_sorted(after);
    assert forall|id: (i128, u64)| #[trigger] expected.dom().contains(id) implies entries(
        after,
    ).dom().contains(id) && entries(after)[id] == expected[id] by {
        if id == entry_id(meta) {
            let i = choose|i: int| 0 <= i < after.len() && after[i] == meta;
            assert(after[i] == meta);
        } else {
            let i = choose|i: int| 0 <= i < before.len() && entry_id(#[trigger] before[i]) == id;
            let j = choose|j: int| 0 <= j < after.len() && after[j] == before[i];
            assert(after[j] == before[i]);
        }
    }
    assert forall|id: (i128, u64)| #[trigger]
        entries(after).dom().contains(id) implies expected.dom().contains(id) by {
        let i = choose|i: int| 0 <= i < after.len() && entry_id(#[trigger] after[i]) == id;
        if after[i] != meta {
            let j = choose|j: int| 0 <= j < before.len() && before[j] == after[i];
            assert(before[j] == after[i]);
        }
    }
    assert(entries(after) =~= expected);
}

/// Puts an entry into its place among entries in order. Where there is one with
/// the same key and position, the new entry takes its place if `replace` is
/// set, and is dropped if not.
fn insert_entry(metas: &mut Vec<ValueMeta>, meta: ValueMeta, replace: bool)
    requires
        sorted(old(metas)@),
    ensures
        sorted(final(metas)@),
        entries(final(metas)@) == (if replace || !entries(old(metas)@).dom().contains(
            entry_id(meta),
        ) {
            entries(old(metas)@).insert(entry_id(meta), meta)
        } else {
            entries(old(metas)@)
        }),
{
    let key: CompactKey = meta.key();
    let lsn: Lsn = meta.lsn();
    let mut lo: usize = 0;
    let mut hi: usize = metas.len();
    while lo < hi
        invariant
            lo <= hi <= metas@.len(),
            metas@ == old(metas)@,
            sorted(metas@),
            key == meta.key_of(),
            lsn == meta.lsn_of(),
            forall|i: int| 0 <= i < lo ==> precedes(#[trigger] metas@[i], meta),
            forall|i: int| hi <= i < metas@.len() ==> !precedes(#[trigger] metas@[i], meta),
        decreases hi - lo,
    {
        let mid: usize = lo + (hi - lo) / 2;
        let mid_key: CompactKey = metas[mid].key();
        let mid_lsn: Lsn = metas[mid].lsn();
        if mid_key.0 < key.0 || (mid_key.0 == key.0 && mid_lsn.0 < lsn.0) {
            lo = mid + 1;
        } else {
            hi = mid;
        }
    }
    let ghost before = metas@;
    proof {
        lemma_entries_of_sorted(before);
    }
    if lo < metas.len() && metas[lo].key().0 == key.0 && metas[lo].lsn().0 == lsn.0 {
        assert(entry_id(before[lo as int]) == entry_id(meta));
        if replace {
            metas.set(lo, meta);
            proof {
                let after = metas@;
                assert(after[lo as int] == meta);
                assert forall|i: int|
                    0 <= i < before.len() && entry_id(#[trigger] before[i]) != entry_id(
                        meta,
                    ) implies after.contains(before[i]) by {
                    assert(after[i] == before[i]);
                }
                assert forall|i: int| 0 <= i < after.len() implies #[trigger] after[i] == meta
                    || before.contains(after[i]) by {
                    if i != lo {
                        assert(after[i] == before[i]);
                    }
                }
                lemma_entries_inserted(before, after, meta);
            }
        }
    } else {
        proof {
            if entries(before).dom().contains(entry_id(meta)) {
                let i = choose|i: int|
                    0 <= i < before.len() && entry_id(#[trigger] before[i]) == entry_id(meta);
                if i > lo {
                    assert(precedes(before[lo as int], before[i]));
                }
                assert(false);
            }
        }
        metas.insert(lo, meta);
        proof {
            let after = metas@;
            assert(after[lo as int] == meta);
            assert forall|i: int| 0 <= i < before.len() implies after.contains(
                #[trigger] before[i],
            ) by {
                assert(before[i] == (if i < lo {
                    after[i]
                } else {
                    after[i + 1]
                }));
            }
            assert forall|i: int| 0 <= i < after.len() && i != lo implies #[trigger] after[i]
                == before[if i < lo {
                i
            } else {
                i - 1
            }] by {
            }
            assert forall|i: int, j: int| 0 <= i < j < after.len() implies precedes(
                #[trigger] after[i],
                #[trigger] after[j],
            ) by {
                if i == lo && j - 1 > lo {
                    assert(precedes(before[lo as int], before[j - 1]));
                }
            }
            lemma_entries_inserted(before, after, meta);
        }
    }
}

/// Brings entries into order.
fn sort_entries(metas: &Vec<ValueMeta>) -> (r: Vec<ValueMeta>)
    ensures
        sorted(r@),
        entries(r@) == entries(metas@),
{
    let mut r: Vec<ValueMeta> = Vec::new();
    let mut i: usize = 0;
    assert(entries(r@) =~= entries(metas@.take(0)));
    while i < metas.len()
        invariant
            i <= metas@.len(),
            sorted(r@),
            entries(r@) == entries(metas@.take(i as int)),
        decreases metas@.len() - i,
    {
        assert(metas@.take(i + 1).drop_last() =~= metas@.take(i as int));
        insert_entry(&mut r, metas[i], true);
        i = i + 1;
    }
    assert(metas@.take(i as int) =~= metas@);
    r
}

// --- Filling -----------------------------------------------------------------

/// The size of so many pages of zeroes.
pub proof fn lemma_zero_pages_len(n: nat)
    ensures
        zero_pages(n).len() == n * zero_page_size(),
    decreases n,
{
    if n > 0 {
        lemma_zero_pages_len((n - 1) as nat);
        assert((n - 1) * zero_page_size() + zero_page_size() == n * zero_page_size())
            by (nonlinear_arith);
    }
}

/// Pages of zeroes add up.
proof fn lemma_zero_pages_add(m: nat, n: nat)
    ensures
        zero_pages(m) + zero_pages(n) == zero_pages(m + n),
    decreases n,
{
    if n > 0 {
        lemma_zero_pages_add(m, (n - 1) as nat);
        assert(zero_pages(m) + zero_pages(n) =~= zero_pages(m) + zero_pages((n - 1) as nat)
            + zero_page().serialized());
    } else {
        assert(zero_pages(m) + zero_pages(n) =~= zero_pages(m));
    }
}

/// Filling with some pages and then with others is filling with all of them.
proof fn lemma_with_pages_add(
    before: Map<(i128, u64), ValueMeta>,
    offset: int,
    p: Seq<(CompactKey, Lsn)>,
    q: Seq<(CompactKey, Lsn)>,
)
    ensures
        with_pages(with_pages(before, offset, p), offset + p.len() * zero_page_size(), q)
            == with_pages(before, offset, p + q),
    decreases q.len(),
{
    if q.len() > 0 {
        lemma_with_pages_add(before, offset, p, q.drop_last());
        assert((p + q).drop_last() =~= p + q.drop_last());
        assert((p + q).last() == q.last());
        assert(p.len() * zero_page_size() + (q.len() - 1) * zero_page_size() == ((p + q).len() - 1)
            * zero_page_size()) by (nonlinear_arith)
            requires
                (p + q).len() == p.len() + q.len(),
        ;
    } else {
        assert(p + q =~= p);
    }
}

/// Filling step by step.
proof fn lemma_filled_add(
    a: BatchState,
    b: BatchState,
    c: BatchState,
    p: Seq<(CompactKey, Lsn)>,
    q: Seq<(CompactKey, Lsn)>,
)
    requires
        filled(a, b, p),
        filled(b, c, q),
    ensures
        filled(a, c, p + q),
{
    lemma_zero_pages_len(p.len());
    lemma_zero_pages_add(p.len(), q.len());
    lemma_with_pages_add(entries(a.metadata), a.raw.len() as int, p, q);
    assert(a.raw + zero_pages(p.len()) + zero_pages(q.len()) =~= a.raw + (zero_pages(p.len())
        + zero_pages(q.len())));
}

/// Filling with nothing.
proof fn lemma_filled_nothing(a: BatchState)
    requires
        sorted(a.metadata),
    ensures
        filled(a, a, Seq::empty()),
{
    assert(a.raw + zero_pages(0) =~= a.raw);
}

/// The pages of the first ranges are not more than those of all of them.
proof fn lemma_ranges_pages_grow(ranges: Seq<Range<Key>>, lsn: Lsn, n: int)
    requires
        0 <= n <= ranges.len(),
    ensures
        ranges_pages(ranges.take(n), lsn).len() <= ranges_pages(ranges, lsn).len(),
    decreases ranges.len() - n,
{
    if n == ranges.len() {
        assert(ranges.take(n) =~= ranges);
    } else {
        assert(ranges.take(n + 1).drop_last() =~= ranges.take(n));
        lemma_ranges_pages_grow(ranges, lsn, n + 1);
    }
}

/// The pages of the first gaps are not more than those of all of them.
proof fn lemma_gap_pages_grow(gaps: Seq<(KeySpace, Lsn)>, n: int)
    requires
        0 <= n <= gaps.len(),
    ensures
        gap_pages(gaps.take(n)).len() <= gap_pages(gaps).len(),
    decreases gaps.len() - n,
{
    if n == gaps.len() {
        assert(gaps.take(n) =~= gaps);
    } else {
        assert(gaps.take(n + 1).drop_last() =~= gaps.take(n));
        lemma_gap_pages_grow(gaps, n + 1);
    }
}

/// A page of zeroes.
fn new_zero_page() -> (r: Value)
    ensures
        r@ == zero_page(),
{
    let zeroes: Vec<u8> = vec![0u8; BLCKSZ as usize];
    let image = buffers::copy_of(zeroes.as_slice());
    let r = Value::Image(image);
    assert(r@ =~= zero_page());
    r
}

impl SerializedValueBatch {
    /// Adds a page of zeroes, and an entry for it where there is none.
    fn add_zero_page(&mut self, zero: &Value, key: CompactKey, lsn: Lsn)
        requires
            zero@ == zero_page(),
            sorted(old(self).metadata@),
            old(self).len < usize::MAX,
        ensures
            filled(old(self)@, final(self)@, seq![(key, lsn)]),
            final(self).max_lsn == old(self).max_lsn,
    {
        let ghost before = self@;
        let relative_off: usize = self.raw.len();
        zero.ser_into(&mut self.raw);
        let val_ser_size: usize = self.raw.len() - relative_off;
        let meta = ValueMeta::Serialized(
            SerializedValueMeta {
                key,
                lsn,
                batch_offset: relative_off as u64,
                len: val_ser_size,
                will_init: true,
            },
        );
        insert_entry(&mut self.metadata, meta, false);
        self.len = self.len + 1;
        proof {
            let pages = seq![(key, lsn)];
            assert(pages.drop_last() =~= Seq::empty());
            assert(with_pages(
                entries(before.metadata),
                before.raw.len() as int,
                pages.drop_last(),
            ) == entries(before.metadata));
            assert(zero_pages(0) =~= Seq::empty());
            assert(zero_pages(1) =~= zero_page().serialized());
            assert(meta == zero_entry(before.raw.len() as int, (key, lsn)));
        }
    }

    /// Adds a page of zeroes for each key of a range.
    fn zero_range(&mut self, zero: &Value, range: &Range<Key>, lsn: Lsn)
        requires
            zero@ == zero_page(),
            valid_range(*range),
            sorted(old(self).metadata@),
            old(self).len + range_pages(*range, lsn).len() <= usize::MAX,
        ensures
            filled(old(self)@, final(self)@, range_pages(*range, lsn)),
            final(self).max_lsn == old(self).max_lsn,
    {
        let ghost pages = range_pages(*range, lsn);
        let ghost before = self@;
        let ghost mut n: int = 0;
        let mut key: Key = range.start;
        proof {
            lemma_filled_nothing(before);
            assert(pages.take(0) =~= Seq::empty());
            key::law_rank_names_the_key(range.start);
            key::law_rank_names_the_key(range.end);
        }
        while key != range.end
            invariant
                zero@ == zero_page(),
                valid_range(*range),
                pages == range_pages(*range, lsn),
                0 <= n <= pages.len(),
                key.rank() == range.start.rank() + n,
                key == key::key_of_rank(key.rank()),
                range.end == key::key_of_rank(range.end.rank()),
                range.end.rank() < key::key_count(),
                before.len + pages.len() <= usize::MAX,
                filled(before, self@, pages.take(n)),
                self.max_lsn == before.max_lsn,
            decreases range.end.rank() - key.rank(),
        {
            let ghost mid = self@;
            self.add_zero_page(zero, key.to_compact(), lsn);
            proof {
                lemma_filled_add(
                    before,
                    mid,
                    self@,
                    pages.take(n),
                    seq![(key.compact(), lsn)],
                );
                assert(pages[n] == (key.compact(), lsn));
                assert(pages.take(n) + seq![pages[n]] =~= pages.take(n + 1));
                n = n + 1;
            }
            key = key.next();
        }
        assert(pages.take(n) =~= pages);
    }

    /// Adds a page of zeroes for each key of some ranges.
    fn zero_ranges(&mut self, zero: &Value, ranges: &Vec<Range<Key>>, lsn: Lsn)
        requires
            zero@ == zero_page(),
            valid_ranges(ranges@),
            sorted(old(self).metadata@),
            old(self).len + ranges_pages(ranges@, lsn).len() <= usize::MAX,
        ensures
            filled(old(self)@, final(self)@, ranges_pages(ranges@, lsn)),
            final(self).max_lsn == old(self).max_lsn,
    {
        let ghost before = self@;
        let mut i: usize = 0;
        proof {
            lemma_filled_nothing(before);
        }
        while i < ranges.len()
            invariant
                zero@ == zero_page(),
                valid_ranges(ranges@),
                i <= ranges@.len(),
                before.len + ranges_pages(ranges@, lsn).len() <= usize::MAX,
                filled(before, self@, ranges_pages(ranges@.take(i as int), lsn)),
                self.max_lsn == before.max_lsn,
            decreases ranges@.len() - i,
        {
            let ghost mid = self@;
            proof {
                assert(ranges@.take(i + 1).drop_last() =~= ranges@.take(i as int));
                lemma_ranges_pages_grow(ranges@, lsn, i + 1);
            }
            self.zero_range(zero, &ranges[i], lsn);
            proof {
                lemma_filled_add(
                    before,
                    mid,
                    self@,
                    ranges_pages(ranges@.take(i as int), lsn),
                    range_pages(ranges@[i as int], lsn),
                );
            }
            i = i + 1;
        }
        assert(ranges@.take(i as int) =~= ranges@);
    }

    /// Adds pages of zeroes for the keys and positions of the gaps, and brings
    /// the entries into order.
    ///
    /// A gap without pages adds no value, so that its position does not count.
    /// It is for the caller to know what the gaps are: the sizes of relations
    /// are not known here.
    pub fn zero_gaps(&mut self, gaps: Vec<(KeySpace, Lsn)>)
        requires
            valid_gaps(gaps@),
            old(self).len + gap_pages(gaps@).len() <= usize::MAX,
        ensures
            filled(old(self)@, final(self)@, gap_pages(gaps@)),
            final(self)@.max_lsn == latest(old(self)@.max_lsn, gaps@),
    {
        let ghost before = self@;
        let zero: Value = new_zero_page();
        self.metadata = sort_entries(&self.metadata);
        let mut i: usize = 0;
        assert(before.raw + zero_pages(0) =~= before.raw);
        while i < gaps.len()
            invariant
                zero@ == zero_page(),
                valid_gaps(gaps@),
                i <= gaps@.len(),
                before.len + gap_pages(gaps@).len() <= usize::MAX,
                filled(before, self@, gap_pages(gaps@.take(i as int))),
                self.max_lsn == latest(before.max_lsn, gaps@.take(i as int)),
            decreases gaps@.len() - i,
        {
            proof {
                assert(gaps@.take(i + 1).drop_last() =~= gaps@.take(i as int));
                lemma_gap_pages_grow(gaps@, i + 1);
            }
            let gap = &gaps[i];
            let len_before: usize = self.len;
            let ghost mid = self@;
            self.zero_ranges(&zero, &gap.0.ranges, gap.1);
            if self.len > len_before {
                self.max_lsn = later_of(self.max_lsn, gap.1);
            }
            proof {
                lemma_filled_add(
                    before,
                    mid,
                    self@,
                    gap_pages(gaps@.take(i as int)),
                    ranges_pages(gap.0.ranges@, gap.1),
                );
            }
            i = i + 1;
        }
        assert(gaps@.take(i as int) =~= gaps@);
    }
}

} // verus!
