//! Batches of serialized values.
//!
//! A batch holds values in one raw buffer, ready to be written to disk, and a
//! list of metadata entries that say where each value stands in it and under
//! which key and position it is found. Batches are built from decoded log
//! records, and merged into writes of a reasonable size.
pub mod decoded;
pub mod effects;
pub mod gaps;
pub mod laws;

use std::collections::HashMap;
use vstd::prelude::*;
use crate::key::CompactKey;
use crate::key::Key;
use crate::lsn::later_of;
use crate::lsn::Lsn;
use crate::lsn;
use crate::value::Value;
use crate::value::ValueState;

verus! {

/// An entry of a batch. A value is stored in the batch, or only observed:
/// shard 0 observes every value in order to track the sizes of relations, and
/// of an observed value it needs to know the key and the position only.
#[derive(Clone, Copy, Debug, PartialEq, Eq)]
pub enum ValueMeta {
    Serialized(SerializedValueMeta),
    Observed(ObservedValueMeta),
}

/// Metadata of a value that is stored in the batch.
#[derive(Clone, Copy, Debug, PartialEq, Eq)]
pub struct SerializedValueMeta {
    pub key: CompactKey,
    pub lsn: Lsn,
    /// Where the value starts in the raw buffer.
    pub batch_offset: u64,
    pub len: usize,
    pub will_init: bool,
}

/// Metadata of a value that was observed.
#[derive(Clone, Copy, Debug, PartialEq, Eq)]
pub struct ObservedValueMeta {
    pub key: CompactKey,
    pub lsn: Lsn,
}

/// A batch of serialized values.
#[derive(Clone, Debug, PartialEq, Eq)]
pub struct SerializedValueBatch {
    /// The values, one behind the other.
    pub raw: Vec<u8>,
    /// What stands in the raw buffer, and what was observed. The entries of any
    /// one key are ordered by position; they need not be next to each other.
    pub metadata: Vec<ValueMeta>,
    /// The highest position of any value in the batch.
    pub max_lsn: Lsn,
    /// Number of values in the raw buffer.
    pub len: usize,
}

/// Two entries of one key that stand in the wrong order.
#[derive(Clone, Copy, Debug, PartialEq, Eq)]
pub struct LsnOrderViolation {
    pub key: CompactKey,
    /// Position of the later entry.
    pub lsn: Lsn,
    /// Position of the entry of the same key that precedes it.
    pub prev_lsn: Lsn,
}

// --- Model -------------------------------------------------------------------

impl ValueMeta {
    pub open spec fn key_of(self) -> CompactKey {
        match self {
            ValueMeta::Serialized(ser) => ser.key,
            ValueMeta::Observed(obs) => obs.key,
        }
    }

    pub open spec fn lsn_of(self) -> Lsn {
        match self {
            ValueMeta::Serialized(ser) => ser.lsn,
            ValueMeta::Observed(obs) => obs.lsn,
        }
    }

    /// The entry once `by` bytes are put before the buffer it points into.
    pub open spec fn shifted(self, by: int) -> ValueMeta {
        match self {
            ValueMeta::Serialized(ser) => ValueMeta::Serialized(
                SerializedValueMeta { batch_offset: (ser.batch_offset + by) as u64, ..ser },
            ),
            ValueMeta::Observed(_) => self,
        }
    }

    /// The shifted offset still fits its field.
    pub open spec fn can_shift(self, by: int) -> bool {
        self matches ValueMeta::Serialized(ser) ==> ser.batch_offset + by <= u64::MAX
    }

    /// The entry points into a buffer of `size` bytes.
    pub open spec fn within(self, size: int) -> bool {
        self matches ValueMeta::Serialized(ser) ==> ser.batch_offset + ser.len <= size
    }
}

/// Contents of a batch.
#[verifier::ext_equal]
pub struct BatchState {
    pub raw: Seq<u8>,
    pub metadata: Seq<ValueMeta>,
    pub max_lsn: Lsn,
    pub len: int,
}

impl View for SerializedValueBatch {
    type V = BatchState;

    open spec fn view(&self) -> BatchState {
        BatchState {
            raw: self.raw@,
            metadata: self.metadata@,
            max_lsn: self.max_lsn,
            len: self.len as int,
        }
    }
}

impl BatchState {
    /// The batch with nothing in it.
    pub open spec fn empty() -> BatchState {
        BatchState { raw: Seq::empty(), metadata: Seq::empty(), max_lsn: Lsn(0), len: 0 }
    }

    /// The batch with one more value, of which the metadata says that it has
    /// `size` bytes.
    pub open spec fn with_sized_value(
        self,
        key: CompactKey,
        lsn: Lsn,
        size: usize,
        v: ValueState,
    ) -> BatchState {
        BatchState {
            raw: self.raw + v.serialized(),
            metadata: self.metadata.push(
                ValueMeta::Serialized(
                    SerializedValueMeta {
                        key,
                        lsn,
                        batch_offset: self.raw.len() as u64,
                        len: size,
                        will_init: v.will_init(),
                    },
                ),
            ),
            max_lsn: lsn::later(self.max_lsn, lsn),
            len: self.len + 1,
        }
    }

    /// The batch with one more value.
    pub open spec fn with_value(self, key: CompactKey, lsn: Lsn, v: ValueState) -> BatchState {
        self.with_sized_value(key, lsn, v.serialized().len() as usize, v)
    }

    /// The batch with one more value observed.
    pub open spec fn with_observed(self, key: CompactKey, lsn: Lsn) -> BatchState {
        BatchState {
            metadata: self.metadata.push(ValueMeta::Observed(ObservedValueMeta { key, lsn })),
            ..self
        }
    }

    /// The batch with the contents of another behind its own.
    pub open spec fn with_batch(self, other: BatchState) -> BatchState {
        BatchState {
            raw: self.raw + other.raw,
            metadata: self.metadata + other.metadata.map_values(
                |meta: ValueMeta| meta.shifted(self.raw.len() as int),
            ),
            max_lsn: lsn::later(self.max_lsn, other.max_lsn),
            len: self.len + other.len,
        }
    }

    /// A value is stored under `key`.
    pub open spec fn stores_key(self, key: CompactKey) -> bool {
        exists|i: int|
            0 <= i < self.metadata.len() && ((#[trigger] self.metadata[i]) matches
            ValueMeta::Serialized(ser) && ser.key == key)
    }

    /// Every stored value lies within the raw buffer.
    pub open spec fn in_bounds(self) -> bool {
        forall|i: int|
            0 <= i < self.metadata.len() ==> (#[trigger] self.metadata[i]).within(
                self.raw.len() as int,
            )
    }

    /// What every batch keeps: stored values lie within the raw buffer, an
    /// empty buffer means that nothing is stored, no stored value is later than
    /// `max_lsn`, and `max_lsn` is the position of some entry, or 0.
    pub open spec fn well_formed(self) -> bool {
        &&& self.in_bounds()
        &&& self.raw.len() == 0 ==> forall|i: int|
            0 <= i < self.metadata.len() ==> #[trigger] self.metadata[i] is Observed
        &&& forall|i: int|
            0 <= i < self.metadata.len() && #[trigger] self.metadata[i] is Serialized
                ==> self.metadata[i].lsn_of().0 <= self.max_lsn.0
        &&& self.max_lsn_is_reached()
    }

    /// `max_lsn` is the position of some entry, or 0.
    pub open spec fn max_lsn_is_reached(self) -> bool {
        self.max_lsn == Lsn(0) || exists|i: int|
            0 <= i < self.metadata.len() && (#[trigger] self.metadata[i]).lsn_of() == self.max_lsn
    }

    /// Entry `i` is that of `v`, stored under `key` at `lsn`: where it points,
    /// the buffer holds the serialized value.
    pub open spec fn entry_holds(self, i: int, key: CompactKey, lsn: Lsn, v: ValueState) -> bool {
        &&& self.metadata[i] matches ValueMeta::Serialized(ser)
        &&& ser.key == key
        &&& ser.lsn == lsn
        &&& ser.will_init == v.will_init()
        &&& ser.batch_offset + ser.len <= self.raw.len()
        &&& self.raw.subrange(ser.batch_offset as int, ser.batch_offset + ser.len)
            == v.serialized()
    }

    /// `v` is stored in the batch under `key` at `lsn`.
    pub open spec fn holds(self, key: CompactKey, lsn: Lsn, v: ValueState) -> bool {
        exists|i: int|
            0 <= i < self.metadata.len() && #[trigger] self.entry_holds(i, key, lsn, v)
    }
}

/// The entries of any one key are ordered by position.
pub open spec fn lsn_ordered(metas: Seq<ValueMeta>) -> bool {
    forall|i: int, j: int|
        0 <= i < j < metas.len() && (#[trigger] metas[i]).key_of() == (#[trigger] metas[j]).key_of()
            ==> metas[i].lsn_of().0 <= metas[j].lsn_of().0
}

/// The position of the last entry of each key.
pub open spec fn last_lsns(metas: Seq<ValueMeta>) -> Map<i128, u64>
    decreases metas.len(),
{
    if metas.len() == 0 {
        Map::empty()
    } else {
        last_lsns(metas.drop_last()).insert(metas.last().key_of().0, metas.last().lsn_of().0)
    }
}

/// The first entry that comes before the preceding entry of its key.
pub open spec fn first_violation(metas: Seq<ValueMeta>) -> Option<LsnOrderViolation>
    decreases metas.len(),
{
    if metas.len() == 0 {
        None
    } else if first_violation(metas.drop_last()) is Some {
        first_violation(metas.drop_last())
    } else {
        let (key, lsn) = (metas.last().key_of(), metas.last().lsn_of());
        let seen = last_lsns(metas.drop_last());
        if seen.dom().contains(key.0) && lsn.0 < seen[key.0] {
            Some(LsnOrderViolation { key, lsn, prev_lsn: Lsn(seen[key.0]) })
        } else {
            None
        }
    }
}

/// The sum of the given sizes.
pub open spec fn total_size(items: Seq<(CompactKey, Lsn, usize, Value)>) -> int
    decreases items.len(),
{
    if items.len() == 0 {
        0
    } else {
        total_size(items.drop_last()) + items.last().2
    }
}

/// The batch of a list of values.
pub open spec fn batch_of(items: Seq<(CompactKey, Lsn, usize, Value)>) -> BatchState
    decreases items.len(),
{
    if items.len() == 0 {
        BatchState::empty()
    } else {
        let (key, lsn, size, value) = items.last();
        batch_of(items.drop_last()).with_sized_value(key, lsn, size, value@)
    }
}

// --- Operations --------------------------------------------------------------

impl ValueMeta {
    pub fn key(&self) -> (r: CompactKey)
        ensures
            r == self.key_of(),
    {
        match self {
            ValueMeta::Serialized(ser) => ser.key,
            ValueMeta::Observed(obs) => obs.key,
        }
    }

    pub fn lsn(&self) -> (r: Lsn)
        ensures
            r == self.lsn_of(),
    {
        match self {
            ValueMeta::Serialized(ser) => ser.lsn,
            ValueMeta::Observed(obs) => obs.lsn,
        }
    }
}

impl Default for SerializedValueBatch {
    fn default() -> (r: Self)
        ensures
            r@ == BatchState::empty(),
    {
        SerializedValueBatch { raw: Vec::new(), metadata: Vec::new(), max_lsn: Lsn(0), len: 0 }
    }
}

/// The sum of the sizes is at least that of the first of them.
proof fn lemma_total_size_grows(items: Seq<(CompactKey, Lsn, usize, Value)>, n: int)
    requires
        0 <= n <= items.len(),
    ensures
        0 <= total_size(items.take(n)) <= total_size(items),
    decreases items.len() - n,
{
    if n == items.len() {
        assert(items.take(n) =~= items);
        lemma_total_size_nonnegative(items);
    } else {
        lemma_total_size_grows(items, n + 1);
        assert(items.take(n + 1).drop_last() =~= items.take(n));
        lemma_total_size_nonnegative(items.take(n));
    }
}

proof fn lemma_total_size_nonnegative(items: Seq<(CompactKey, Lsn, usize, Value)>)
    ensures
        0 <= total_size(items),
    decreases items.len(),
{
    if items.len() > 0 {
        lemma_total_size_nonnegative(items.drop_last());
    }
}

impl SerializedValueBatch {
    /// Serializes a list of values, each with its key, its position and the
    /// size of its serialized form.
    pub fn from_values(batch: Vec<(CompactKey, Lsn, usize, Value)>) -> (r: Self)
        requires
            total_size(batch@) <= isize::MAX,
        ensures
            r@ == batch_of(batch@),
    {
        let mut buffer_size: usize = 0;
        let mut i: usize = 0;
        while i < batch.len()
            invariant
                i <= batch@.len(),
                total_size(batch@) <= isize::MAX,
                buffer_size == total_size(batch@.take(i as int)),
            decreases batch@.len() - i,
        {
            proof {
                lemma_total_size_grows(batch@, i + 1);
                assert(batch@.take(i + 1).drop_last() =~= batch@.take(i as int));
            }
            buffer_size = buffer_size + batch[i].2;
            i = i + 1;
        }
        let mut r: SerializedValueBatch = SerializedValueBatch {
            raw: Vec::with_capacity(buffer_size),
            metadata: Vec::with_capacity(batch.len()),
            max_lsn: Lsn(0),
            len: 0,
        };
        i = 0;
        assert(r@ == batch_of(batch@.take(0)));
        while i < batch.len()
            invariant
                i <= batch@.len(),
                r.len == i,
                r@ == batch_of(batch@.take(i as int)),
            decreases batch@.len() - i,
        {
            proof {
                assert(batch@.take(i + 1).drop_last() =~= batch@.take(i as int));
            }
            let relative_off: u64 = r.raw.len() as u64;
            let entry = &batch[i];
            entry.3.ser_into(&mut r.raw);
            r.metadata.push(
                ValueMeta::Serialized(
                    SerializedValueMeta {
                        key: entry.0,
                        lsn: entry.1,
                        batch_offset: relative_off,
                        len: entry.2,
                        will_init: entry.3.will_init(),
                    },
                ),
            );
            r.max_lsn = later_of(r.max_lsn, entry.1);
            r.len = r.len + 1;
            i = i + 1;
        }
        assert(batch@.take(i as int) =~= batch@);
        r
    }

    /// Adds one value to the batch.
    pub fn put(&mut self, key: CompactKey, value: Value, lsn: Lsn)
        requires
            old(self).len < usize::MAX,
        ensures
            final(self)@ == old(self)@.with_value(key, lsn, value@),
    {
        self.store(key, &value, lsn);
    }

    /// Serializes one value into the batch.
    pub(crate) fn store(&mut self, key: CompactKey, value: &Value, lsn: Lsn)
        requires
            old(self).len < usize::MAX,
        ensures
            final(self)@ == old(self)@.with_value(key, lsn, value@),
    {
        let relative_off: usize = self.raw.len();
        value.ser_into(&mut self.raw);
        let val_ser_size: usize = self.raw.len() - relative_off;
        self.metadata.push(
            ValueMeta::Serialized(
                SerializedValueMeta {
                    key,
                    lsn,
                    batch_offset: relative_off as u64,
                    len: val_ser_size,
                    will_init: value.will_init(),
                },
            ),
        );
        self.max_lsn = later_of(self.max_lsn, lsn);
        self.len = self.len + 1;
    }

    /// Adds the contents of another batch behind those of this one.
    pub fn extend(&mut self, other: SerializedValueBatch)
        requires
            old(self).len + other.len <= usize::MAX,
            forall|i: int|
                0 <= i < other.metadata@.len() ==> (#[trigger] other.metadata@[i]).can_shift(
                    old(self).raw@.len() as int,
                ),
        ensures
            final(self)@ == old(self)@.with_batch(other@),
    {
        let mut other_raw: Vec<u8> = other.raw;
        let start_offset: u64 = self.raw.len() as u64;
        self.raw.append(&mut other_raw);
        let mut i: usize = 0;
        while i < other.metadata.len()
            invariant
                i <= other.metadata@.len(),
                start_offset == old(self).raw@.len(),
                forall|k: int|
                    0 <= k < other.metadata@.len() ==> (#[trigger] other.metadata@[k]).can_shift(
                        start_offset as int,
                    ),
                self.raw@ == old(self).raw@ + other@.raw,
                self.max_lsn == old(self).max_lsn,
                self.len == old(self).len,
                self.metadata@ == old(self).metadata@ + other.metadata@.take(i as int).map_values(
                    |meta: ValueMeta| meta.shifted(start_offset as int),
                ),
            decreases other.metadata@.len() - i,
        {
            let meta: ValueMeta = match other.metadata[i] {
                ValueMeta::Serialized(ser) => ValueMeta::Serialized(
                    SerializedValueMeta { batch_offset: ser.batch_offset + start_offset, ..ser },
                ),
                ValueMeta::Observed(obs) => ValueMeta::Observed(obs),
            };
            self.metadata.push(meta);
            i = i + 1;
        }
        assert(other.metadata@.take(i as int) =~= other.metadata@);
        self.max_lsn = later_of(self.max_lsn, other.max_lsn);
        self.len = self.len + other.len;
    }

    /// Whether the batch has neither stored nor observed values.
    pub fn is_empty(&self) -> (r: bool)
        ensures
            r == (self@.raw.len() == 0 && self@.metadata.len() == 0),
    {
        !self.has_data() && self.metadata.len() == 0
    }

    /// Whether the batch has observed values only.
    pub fn is_observed(&self) -> (r: bool)
        ensures
            r == (self@.raw.len() == 0 && self@.metadata.len() > 0),
    {
        !self.has_data() && self.metadata.len() != 0
    }

    /// Whether the batch has stored values. If not, it may still have observed
    /// ones.
    pub fn has_data(&self) -> (r: bool)
        ensures
            r == (self@.raw.len() > 0),
    {
        self.raw.len() != 0
    }

    /// The number of values stored in the batch.
    pub fn len(&self) -> (r: usize)
        ensures
            r == self@.len,
    {
        self.len
    }

    /// The size of the raw buffer.
    pub fn buffer_size(&self) -> (r: usize)
        ensures
            r == self@.raw.len(),
    {
        self.raw.len()
    }

    /// Whether a value is stored under `key`.
    pub fn updates_key(&self, key: &Key) -> (r: bool)
        requires
            key.representable() || forall|i: int|
                0 <= i < self.metadata@.len() ==> #[trigger] self.metadata@[i] is Observed,
        ensures
            r == self@.stores_key(key.compact()),
    {
        let mut i: usize = 0;
        while i < self.metadata.len()
            invariant
                i <= self.metadata@.len(),
                key.representable() || forall|k: int|
                    0 <= k < self.metadata@.len() ==> #[trigger] self.metadata@[k] is Observed,
                forall|k: int|
                    0 <= k < i ==> !((#[trigger] self.metadata@[k]) matches ValueMeta::Serialized(
                        ser,
                    ) && ser.key == key.compact()),
            decreases self.metadata@.len() - i,
        {
            if let ValueMeta::Serialized(ser) = &self.metadata[i] {
                assert(self.metadata@[i as int] is Serialized);
                if key.to_compact() == ser.key {
                    return true;
                }
            }
            i = i + 1;
        }
        false
    }

    /// Checks that the entries of every key are ordered by position, and gives
    /// the first two that are not.
    pub fn validate_lsn_order(&self) -> (r: Result<(), LsnOrderViolation>)
        ensures
            match r {
                Ok(()) => first_violation(self@.metadata) is None,
                Err(e) => first_violation(self@.metadata) == Some(e),
            },
    {
        let mut last_seen_lsn_per_key: HashMap<i128, u64> = HashMap::new();
        let mut i: usize = 0;
        assert(last_seen_lsn_per_key@ =~= last_lsns(self.metadata@.take(0)));
        while i < self.metadata.len()
            invariant
                i <= self.metadata@.len(),
                last_seen_lsn_per_key@ == last_lsns(self.metadata@.take(i as int)),
                first_violation(self.metadata@.take(i as int)) is None,
            decreases self.metadata@.len() - i,
        {
            let lsn: Lsn = self.metadata[i].lsn();
            let key: CompactKey = self.metadata[i].key();
            assert(self.metadata@.take(i + 1).drop_last() =~= self.metadata@.take(i as int));
            if let Some(prev_lsn) = last_seen_lsn_per_key.insert(key.0, lsn.0) {
                if lsn.0 < prev_lsn {
                    proof {
                        lemma_first_violation_stays(self.metadata@, i + 1);
                    }
                    return Err(LsnOrderViolation { key, lsn, prev_lsn: Lsn(prev_lsn) });
                }
            }
            i = i + 1;
        }
        assert(self.metadata@.take(i as int) =~= self.metadata@);
        Ok(())
    }
}

/// A violation among the first entries is the first violation of all.
proof fn lemma_first_violation_stays(metas: Seq<ValueMeta>, n: int)
    requires
        0 <= n <= metas.len(),
        first_violation(metas.take(n)) is Some,
    ensures
        first_violation(metas) == first_violation(metas.take(n)),
    decreases metas.len() - n,
{
    if n == metas.len() {
        assert(metas.take(n) =~= metas);
    } else {
        assert(metas.take(n + 1).drop_last() =~= metas.take(n));
        lemma_first_violation_stays(metas, n + 1);
    }
}

} // verus!
