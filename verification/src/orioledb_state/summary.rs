//! The cold-start summary: the state that a compute node needs to start the
//! OrioleDB engine without replaying its log.
//!
//! The summary is derived from the record stream alone. Each ingested record
//! moves it forward; it never moves back, and a record that is out of order or
//! malformed leaves it as it was.
use vstd::prelude::*;
use crate::orioledb_state::container::decode_container_for_summary;
use crate::orioledb_state::container::parse_container_header;
use crate::orioledb_state::container::ContainerParseError;
use crate::orioledb_state::container::OrioleDbRecordDelta;
use crate::orioledb_state::container;

verus! {

/// Counters of one tree.
#[derive(Clone, Copy, Debug, PartialEq, Eq)]
pub struct PerTreeCounters {
    /// Hash of the tree's database, relation and tree type.
    pub tree_id: u64,
    /// Next ctid to allocate.
    pub ctid: u64,
    /// Next ctid of the bridge index.
    pub bridge_ctid: u64,
    /// Number of free blocks.
    pub num_free_blocks: u64,
    /// Number of leaf pages.
    pub leaf_pages_num: u64,
    /// Data file length, one slot for each of two alternating checkpoints.
    pub datafile_length: [u64; 2],
    /// Largest undo location seen.
    pub undo_location: u64,
}

impl Default for PerTreeCounters {
    fn default() -> (r: Self)
        ensures
            r.tree_id == 0,
            r.ctid == 0,
            r.bridge_ctid == 0,
            r.num_free_blocks == 0,
            r.leaf_pages_num == 0,
            r.datafile_length[0] == 0,
            r.datafile_length[1] == 0,
            r.undo_location == 0,
    {
        PerTreeCounters {
            tree_id: 0,
            ctid: 0,
            bridge_ctid: 0,
            num_free_blocks: 0,
            leaf_pages_num: 0,
            datafile_length: [0, 0],
            undo_location: 0,
        }
    }
}

/// A page split whose finishing record has not been seen.
#[derive(Clone, Copy, Debug, PartialEq, Eq)]
pub struct PendingSplit {
    pub tree_id: u64,
    pub left_blkno: u32,
    pub right_blkno: u32,
    /// Position of the split record, where the child's high key is found.
    pub child_hikey_lsn: u64,
    pub child_hikey_offset: u32,
    pub _reserved: u32,
}

impl Default for PendingSplit {
    fn default() -> (r: Self)
        ensures
            r == (PendingSplit {
                tree_id: 0,
                left_blkno: 0,
                right_blkno: 0,
                child_hikey_lsn: 0,
                child_hikey_offset: 0,
                _reserved: 0,
            }),
    {
        PendingSplit {
            tree_id: 0,
            left_blkno: 0,
            right_blkno: 0,
            child_hikey_lsn: 0,
            child_hikey_offset: 0,
            _reserved: 0,
        }
    }
}

/// A page merge whose finishing record has not been seen.
#[derive(Clone, Copy, Debug, PartialEq, Eq)]
pub struct PendingMerge {
    pub tree_id: u64,
    pub left_blkno: u32,
    pub parent_blkno: u32,
    pub merge_lsn: u64,
}

impl Default for PendingMerge {
    fn default() -> (r: Self)
        ensures
            r == (PendingMerge { tree_id: 0, left_blkno: 0, parent_blkno: 0, merge_lsn: 0 }),
    {
        PendingMerge { tree_id: 0, left_blkno: 0, parent_blkno: 0, merge_lsn: 0 }
    }
}

/// Cold-start summary of one timeline.
#[derive(Clone, Debug, PartialEq, Eq)]
pub struct OrioleDBColdStartSummary {
    /// Number of records ingested.
    pub ingested_count: u64,
    /// Position of the record ingested last.
    pub last_ingested_lsn_raw: u64,
    /// Transaction id seen last in a container header; 0 where none was.
    pub last_pg_xid_seen: u32,
    /// Next OXid to allocate: one past the largest seen, 0 where none was.
    pub next_oxid: u64,
    /// Next commit sequence number: one past the largest seen, 0 where none was.
    pub next_csn: u64,
    /// Counters of the trees seen since the last checkpoint.
    pub per_tree: Vec<PerTreeCounters>,
    /// Splits that await their finishing record.
    pub pending_splits: Vec<PendingSplit>,
    /// Merges that await their finishing record.
    pub pending_merges: Vec<PendingMerge>,
}

#[derive(Clone, Copy, Debug, PartialEq, Eq)]
pub enum IngestError {
    /// The payload is malformed.
    Parse(ContainerParseError),
    /// The record does not come after the one ingested last.
    NonMonotonicLsn { previous: u64, attempted: u64 },
}

impl From<ContainerParseError> for IngestError {
    fn from(err: ContainerParseError) -> (r: Self) {
        IngestError::Parse(err)
    }
}

impl vstd::std_specs::convert::FromSpecImpl<ContainerParseError> for IngestError {
    open spec fn obeys_from_spec() -> bool {
        true
    }

    open spec fn from_spec(err: ContainerParseError) -> Self {
        IngestError::Parse(err)
    }
}

// --- Model -------------------------------------------------------------------

/// Contents of a summary.
#[verifier::ext_equal]
pub struct SummaryState {
    pub ingested_count: u64,
    pub last_ingested_lsn_raw: u64,
    pub last_pg_xid_seen: u32,
    pub next_oxid: u64,
    pub next_csn: u64,
    pub per_tree: Seq<PerTreeCounters>,
    pub pending_splits: Seq<PendingSplit>,
    pub pending_merges: Seq<PendingMerge>,
}

impl View for OrioleDBColdStartSummary {
    type V = SummaryState;

    open spec fn view(&self) -> SummaryState {
        SummaryState {
            ingested_count: self.ingested_count,
            last_ingested_lsn_raw: self.last_ingested_lsn_raw,
            last_pg_xid_seen: self.last_pg_xid_seen,
            next_oxid: self.next_oxid,
            next_csn: self.next_csn,
            per_tree: self.per_tree@,
            pending_splits: self.pending_splits@,
            pending_merges: self.pending_merges@,
        }
    }
}

/// The number after `x`, or the largest there is.
pub open spec fn one_past(x: u64) -> u64 {
    if x == u64::MAX {
        u64::MAX
    } else {
        (x + 1) as u64
    }
}

/// A "next to allocate" counter once `seen` is known to be taken.
pub open spec fn bumped(next: u64, seen: Option<u64>) -> u64 {
    match seen {
        Some(x) => if one_past(x) > next {
            one_past(x)
        } else {
            next
        },
        None => next,
    }
}

impl SummaryState {
    /// The summary before any record.
    pub open spec fn empty() -> SummaryState {
        SummaryState {
            ingested_count: 0,
            last_ingested_lsn_raw: 0,
            last_pg_xid_seen: 0,
            next_oxid: 0,
            next_csn: 0,
            per_tree: Seq::empty(),
            pending_splits: Seq::empty(),
            pending_merges: Seq::empty(),
        }
    }

    /// A record at `lsn` would not come after the one ingested last.
    pub open spec fn out_of_order(self, lsn: u64) -> bool {
        self.ingested_count > 0 && lsn <= self.last_ingested_lsn_raw
    }

    /// The summary once a record at `lsn` is ingested.
    pub open spec fn after(self, delta: OrioleDbRecordDelta, lsn: u64) -> SummaryState {
        SummaryState {
            ingested_count: (self.ingested_count + 1) as u64,
            last_ingested_lsn_raw: lsn,
            last_pg_xid_seen: match delta.pg_xid {
                Some(xid) => xid,
                None => self.last_pg_xid_seen,
            },
            next_oxid: bumped(self.next_oxid, delta.max_oxid_in_body),
            next_csn: bumped(self.next_csn, delta.max_csn_in_body),
            ..self
        }
    }
}

// --- Ingest ------------------------------------------------------------------

impl Default for OrioleDBColdStartSummary {
    fn default() -> (r: Self)
        ensures
            r@ == SummaryState::empty(),
    {
        OrioleDBColdStartSummary {
            ingested_count: 0,
            last_ingested_lsn_raw: 0,
            last_pg_xid_seen: 0,
            next_oxid: 0,
            next_csn: 0,
            per_tree: Vec::new(),
            pending_splits: Vec::new(),
            pending_merges: Vec::new(),
        }
    }
}

impl OrioleDBColdStartSummary {
    /// Applies the delta of one record at `next_record_lsn_raw`.
    ///
    /// Every record must come after the one before it; one that does not is
    /// refused and changes nothing.
    pub fn ingest_delta(&mut self, delta: &OrioleDbRecordDelta, next_record_lsn_raw: u64) -> (r:
        Result<(), IngestError>)
        requires
            old(self).ingested_count < u64::MAX || old(self)@.out_of_order(next_record_lsn_raw),
        ensures
            match r {
                Ok(()) => {
                    &&& !old(self)@.out_of_order(next_record_lsn_raw)
                    &&& final(self)@ == old(self)@.after(*delta, next_record_lsn_raw)
                },
                Err(e) => {
                    &&& old(self)@.out_of_order(next_record_lsn_raw)
                    &&& *final(self) == *old(self)
                    &&& e == (IngestError::NonMonotonicLsn {
                        previous: old(self).last_ingested_lsn_raw,
                        attempted: next_record_lsn_raw,
                    })
                },
            },
            r is Err <==> old(self).ingested_count > 0 && next_record_lsn_raw
                <= old(self).last_ingested_lsn_raw,
    {
        if self.ingested_count > 0 && next_record_lsn_raw <= self.last_ingested_lsn_raw {
            return Err(
                IngestError::NonMonotonicLsn {
                    previous: self.last_ingested_lsn_raw,
                    attempted: next_record_lsn_raw,
                },
            );
        }
        if let Some(xid) = delta.pg_xid {
            self.last_pg_xid_seen = xid;
        }
        if let Some(oxid) = delta.max_oxid_in_body {
            let candidate: u64 = oxid.saturating_add(1);
            if candidate > self.next_oxid {
                self.next_oxid = candidate;
            }
        }
        if let Some(csn) = delta.max_csn_in_body {
            let candidate: u64 = csn.saturating_add(1);
            if candidate > self.next_csn {
                self.next_csn = candidate;
            }
        }
        self.ingested_count = self.ingested_count + 1;
        self.last_ingested_lsn_raw = next_record_lsn_raw;
        Ok(())
    }

    /// Decodes a container payload and applies its delta.
    ///
    /// The order of the records is looked at before the payload is, so that a
    /// malformed payload cannot move the position.
    pub fn ingest_container_record(&mut self, payload: &[u8], next_record_lsn_raw: u64) -> (r:
        Result<(), IngestError>)
        requires
            old(self).ingested_count < u64::MAX || old(self)@.out_of_order(next_record_lsn_raw)
                || !container::header_fits(payload@),
        ensures
            match r {
                Ok(()) => {
                    &&& !old(self)@.out_of_order(next_record_lsn_raw)
                    &&& container::header_fits(payload@)
                    &&& final(self)@ == old(self)@.after(
                        container::delta_of(payload@),
                        next_record_lsn_raw,
                    )
                },
                Err(IngestError::NonMonotonicLsn { previous, attempted }) => {
                    &&& old(self)@.out_of_order(next_record_lsn_raw)
                    &&& *final(self) == *old(self)
                    &&& previous == old(self).last_ingested_lsn_raw
                    &&& attempted == next_record_lsn_raw
                },
                Err(IngestError::Parse(e)) => {
                    &&& !old(self)@.out_of_order(next_record_lsn_raw)
                    &&& !container::header_fits(payload@)
                    &&& *final(self) == *old(self)
                    &&& e == ContainerParseError::TooShort
                },
            },
            r matches Err(IngestError::NonMonotonicLsn { .. }) <==> old(self).ingested_count > 0
                && next_record_lsn_raw <= old(self).last_ingested_lsn_raw,
    {
        if self.ingested_count > 0 && next_record_lsn_raw <= self.last_ingested_lsn_raw {
            return Err(
                IngestError::NonMonotonicLsn {
                    previous: self.last_ingested_lsn_raw,
                    attempted: next_record_lsn_raw,
                },
            );
        }
        match parse_container_header(payload) {
            Ok(_) => {
                let delta = decode_container_for_summary(payload);
                self.ingest_delta(&delta, next_record_lsn_raw)
            },
            Err(e) => Err(IngestError::from(e)),
        }
    }
}

// --- Laws --------------------------------------------------------------------

/// A record that was accepted: what it carried, and where it stood.
pub struct IngestedRecord {
    pub delta: OrioleDbRecordDelta,
    pub lsn: u64,
}

/// The summary after a run of accepted records.
pub open spec fn after_all(start: SummaryState, history: Seq<IngestedRecord>) -> SummaryState
    decreases history.len(),
{
    if history.len() == 0 {
        start
    } else {
        after_all(start, history.drop_last()).after(history.last().delta, history.last().lsn)
    }
}

/// Each record of the run was accepted when its turn came.
pub open spec fn all_accepted(start: SummaryState, history: Seq<IngestedRecord>) -> bool {
    forall|i: int|
        0 <= i < history.len() ==> !after_all(start, #[trigger] history.take(i)).out_of_order(
            history[i].lsn,
        )
}

/// The largest of the OXids that a run of records carried.
pub open spec fn largest_oxid(history: Seq<IngestedRecord>) -> Option<u64>
    decreases history.len(),
{
    if history.len() == 0 {
        None
    } else {
        container::larger(
            largest_oxid(history.drop_last()),
            history.last().delta.max_oxid_in_body,
        )
    }
}

/// The largest of the commit sequence numbers that a run of records carried.
pub open spec fn largest_csn(history: Seq<IngestedRecord>) -> Option<u64>
    decreases history.len(),
{
    if history.len() == 0 {
        None
    } else {
        container::larger(largest_csn(history.drop_last()), history.last().delta.max_csn_in_body)
    }
}

/// The transaction id that came last in a run of records.
pub open spec fn latest_pg_xid(history: Seq<IngestedRecord>) -> Option<u32>
    decreases history.len(),
{
    if history.len() == 0 {
        None
    } else if history.last().delta.pg_xid is Some {
        history.last().delta.pg_xid
    } else {
        latest_pg_xid(history.drop_last())
    }
}

/// An accepted record never takes a counter back: the next OXid and the next
/// commit sequence number stay or grow, the count grows by one, the position
/// grows, and the sections that describe trees stay as they are.
pub proof fn law_ingest_never_regresses(s: SummaryState, delta: OrioleDbRecordDelta, lsn: u64)
    requires
        s.ingested_count < u64::MAX,
        !s.out_of_order(lsn),
    ensures
        s.after(delta, lsn).next_oxid >= s.next_oxid,
        s.after(delta, lsn).next_csn >= s.next_csn,
        s.after(delta, lsn).ingested_count == s.ingested_count + 1,
        s.ingested_count > 0 ==> s.after(delta, lsn).last_ingested_lsn_raw
            > s.last_ingested_lsn_raw,
        s.after(delta, lsn).per_tree == s.per_tree,
        s.after(delta, lsn).pending_splits == s.pending_splits,
        s.after(delta, lsn).pending_merges == s.pending_merges,
{
}

/// A record is refused exactly where one was ingested before and its position
/// is not greater. So the first record is taken wherever it stands, and after it
/// every record that comes later in the log, however far.
pub proof fn law_refused_exactly_if_not_later(s: SummaryState, lsn: u64)
    ensures
        s.out_of_order(lsn) <==> s.ingested_count > 0 && lsn <= s.last_ingested_lsn_raw,
{
}

/// After one record at `at`, another is taken if and only if it stands behind.
pub proof fn law_next_record_is_taken_if_later(
    s: SummaryState,
    delta: OrioleDbRecordDelta,
    at: u64,
    next: u64,
)
    requires
        s.ingested_count < u64::MAX,
    ensures
        s.after(delta, at).out_of_order(next) <==> next <= at,
{
}

/// What one accepted record does to each field of the summary.
pub proof fn law_ingest_changes_each_field(s: SummaryState, delta: OrioleDbRecordDelta, lsn: u64)
    requires
        s.ingested_count < u64::MAX,
    ensures
        ({
            let t = s.after(delta, lsn);
            &&& t.ingested_count == s.ingested_count + 1
            &&& t.last_ingested_lsn_raw == lsn
            &&& delta.pg_xid is None ==> t.last_pg_xid_seen == s.last_pg_xid_seen
            &&& delta.pg_xid matches Some(xid) ==> t.last_pg_xid_seen == xid
            &&& delta.max_oxid_in_body is None ==> t.next_oxid == s.next_oxid
            &&& delta.max_oxid_in_body matches Some(x) ==> {
                &&& x < s.next_oxid ==> t.next_oxid == s.next_oxid
                &&& s.next_oxid <= x < u64::MAX ==> t.next_oxid == x + 1
                &&& x == u64::MAX ==> t.next_oxid == u64::MAX
            }
            &&& delta.max_csn_in_body is None ==> t.next_csn == s.next_csn
            &&& delta.max_csn_in_body matches Some(x) ==> {
                &&& x < s.next_csn ==> t.next_csn == s.next_csn
                &&& s.next_csn <= x < u64::MAX ==> t.next_csn == x + 1
                &&& x == u64::MAX ==> t.next_csn == u64::MAX
            }
            &&& t.per_tree == s.per_tree
            &&& t.pending_splits == s.pending_splits
            &&& t.pending_merges == s.pending_merges
        }),
{
}

/// Before any record a summary holds nothing.
pub proof fn law_empty_summary_holds_nothing()
    ensures
        ({
            let s = SummaryState::empty();
            &&& s.ingested_count == 0 && s.last_ingested_lsn_raw == 0 && s.last_pg_xid_seen == 0
            &&& s.next_oxid == 0 && s.next_csn == 0
            &&& s.per_tree.len() == 0 && s.pending_splits.len() == 0 && s.pending_merges.len() == 0
        }),
{
}

/// The state that a contract speaks of is what the fields hold.
pub proof fn law_summary_state_is_its_fields(summary: OrioleDBColdStartSummary)
    ensures
        summary@.ingested_count == summary.ingested_count,
        summary@.last_ingested_lsn_raw == summary.last_ingested_lsn_raw,
        summary@.last_pg_xid_seen == summary.last_pg_xid_seen,
        summary@.next_oxid == summary.next_oxid,
        summary@.next_csn == summary.next_csn,
        summary@.per_tree == summary.per_tree@,
        summary@.pending_splits == summary.pending_splits@,
        summary@.pending_merges == summary.pending_merges@,
{
}

/// After a run of accepted records, the next OXid lies above every OXid that the
/// run carried (short of the largest number there is), and right above one of
/// them, or is 0 where the run carried none; the same holds of the next commit
/// sequence number.
pub proof fn law_counters_follow_the_run(history: Seq<IngestedRecord>)
    requires
        history.len() <= u64::MAX,
    ensures
        ({
            let s = after_all(SummaryState::empty(), history);
            &&& forall|i: int|
                0 <= i < history.len() ==> ((#[trigger] history[i]).delta.max_oxid_in_body matches
                Some(x) ==> x < s.next_oxid || x == u64::MAX && s.next_oxid == u64::MAX)
            &&& s.next_oxid == 0 || exists|i: int|
                0 <= i < history.len() && ((#[trigger] history[i]).delta.max_oxid_in_body matches
                Some(x) && (s.next_oxid == x + 1 || x == u64::MAX && s.next_oxid == u64::MAX))
            &&& forall|i: int|
                0 <= i < history.len() ==> ((#[trigger] history[i]).delta.max_csn_in_body matches
                Some(x) ==> x < s.next_csn || x == u64::MAX && s.next_csn == u64::MAX)
            &&& s.next_csn == 0 || exists|i: int|
                0 <= i < history.len() && ((#[trigger] history[i]).delta.max_csn_in_body matches
                Some(x) && (s.next_csn == x + 1 || x == u64::MAX && s.next_csn == u64::MAX))
        }),
    decreases history.len(),
{
    if history.len() > 0 {
        let init = history.drop_last();
        let last = history.len() - 1;
        let (b, s) = (
            after_all(SummaryState::empty(), init),
            after_all(SummaryState::empty(), history),
        );
        law_counters_follow_the_run(init);
        assert(history[last] == history.last());
        assert forall|i: int| 0 <= i < last implies #[trigger] history[i] == init[i] by {
        }
        if s.next_oxid != 0 && s.next_oxid == b.next_oxid {
            let i = choose|i: int|
                0 <= i < init.len() && ((#[trigger] init[i]).delta.max_oxid_in_body matches Some(x)
                    && (b.next_oxid == x + 1 || x == u64::MAX && b.next_oxid == u64::MAX));
            assert(history[i] == init[i]);
        }
        if s.next_csn != 0 && s.next_csn == b.next_csn {
            let i = choose|i: int|
                0 <= i < init.len() && ((#[trigger] init[i]).delta.max_csn_in_body matches Some(x)
                    && (b.next_csn == x + 1 || x == u64::MAX && b.next_csn == u64::MAX));
            assert(history[i] == init[i]);
        }
    }
}

/// An OXid or commit sequence number that a record carried is never handed out
/// again: the counters lie above it, short of the largest number there is.
pub proof fn law_seen_numbers_are_taken(s: SummaryState, delta: OrioleDbRecordDelta, lsn: u64)
    ensures
        delta.max_oxid_in_body matches Some(x) ==> x < s.after(delta, lsn).next_oxid || x
            == u64::MAX,
        delta.max_csn_in_body matches Some(x) ==> x < s.after(delta, lsn).next_csn || x == u64::MAX,
{
}

/// What an accepted record leaves is refused if it comes again, and so is
/// every record before it.
pub proof fn law_accepted_position_is_closed(
    s: SummaryState,
    delta: OrioleDbRecordDelta,
    lsn: u64,
    again: u64,
)
    requires
        s.ingested_count < u64::MAX,
        again <= lsn,
    ensures
        s.after(delta, lsn).out_of_order(again),
{
}

/// The summary is derived from the record stream alone: after a run of
/// accepted records its counters are one past the largest numbers that the run
/// carried (0 where it carried none), its count is the length of the run, and
/// its position is that of the last record.
pub proof fn law_summary_is_derived(history: Seq<IngestedRecord>)
    requires
        history.len() <= u64::MAX,
    ensures
        ({
            let s = after_all(SummaryState::empty(), history);
            &&& s.ingested_count == history.len()
            &&& s.next_oxid == (match largest_oxid(history) {
                Some(m) => one_past(m),
                None => 0,
            })
            &&& s.next_csn == (match largest_csn(history) {
                Some(m) => one_past(m),
                None => 0,
            })
            &&& s.last_pg_xid_seen == (match latest_pg_xid(history) {
                Some(xid) => xid,
                None => 0,
            })
            &&& history.len() > 0 ==> s.last_ingested_lsn_raw == history.last().lsn
            &&& s.per_tree.len() == 0 && s.pending_splits.len() == 0 && s.pending_merges.len() == 0
        }),
    decreases history.len(),
{
    if history.len() > 0 {
        law_summary_is_derived(history.drop_last());
    }
}

/// Ingest can be taken up where it stopped: a run of records gives the same
/// summary whether it is ingested at once or in two parts.
pub proof fn law_ingest_resumes(
    start: SummaryState,
    first: Seq<IngestedRecord>,
    second: Seq<IngestedRecord>,
)
    ensures
        after_all(start, first + second) == after_all(after_all(start, first), second),
    decreases second.len(),
{
    if second.len() == 0 {
        assert(first + second =~= first);
    } else {
        assert((first + second).drop_last() =~= first + second.drop_last());
        law_ingest_resumes(start, first, second.drop_last());
    }
}

/// The positions of a run of accepted records grow strictly.
pub proof fn law_accepted_positions_grow(history: Seq<IngestedRecord>, i: int, j: int)
    requires
        history.len() <= u64::MAX,
        all_accepted(SummaryState::empty(), history),
        0 <= i < j < history.len(),
    ensures
        history[i].lsn < history[j].lsn,
    decreases j,
{
    let before = history.take(j);
    law_summary_is_derived(before);
    assert(!after_all(SummaryState::empty(), before).out_of_order(history[j].lsn));
    assert(before.last() == history[j - 1]);
    if i < j - 1 {
        law_accepted_positions_grow(history, i, j - 1);
    }
}

} // verus!
