//! A bounded journal of recent patches. A peer that missed only a few changes
//! is caught up with the patches it missed; whoever is further behind needs the
//! whole container.
//!
//! The journal lives in memory, for as long as a vault is served. Losing it
//! costs a full sync and nothing else.

use std::collections::VecDeque;

use vstd::prelude::*;

use crate::engine::bytes;
use crate::engine::model::VaultModel;
use crate::engine::replay;
use crate::engine::vault;

verus! {

/// A recorded patch: the sequence number of its chain record, and the ranges
/// written.
pub type Recorded = (u64, Seq<(u64, Seq<u8>)>);

/// The patches recorded last, oldest first.
pub struct PatchJournal {
    entries: VecDeque<(u64, Vec<(u64, Vec<u8>)>)>,
    capacity: usize,
}

/// Recorded patches as mathematical values.
pub open spec fn recorded(s: Seq<(u64, Vec<(u64, Vec<u8>)>)>) -> Seq<Recorded> {
    s.map_values(|p: (u64, Vec<(u64, Vec<u8>)>)| (p.0, vault::ranges_of(p.1@)))
}

impl View for PatchJournal {
    type V = Seq<Recorded>;

    closed spec fn view(&self) -> Seq<Recorded> {
        recorded(self.entries@)
    }
}

/// The last `n` entries of `s`.
pub open spec fn last_of<T>(s: Seq<T>, n: int) -> Seq<T> {
    if s.len() <= n {
        s
    } else {
        s.skip(s.len() - n)
    }
}

/// The ranges of the first `n` patches, without those before `from`.
pub open spec fn combined(entries: Seq<Recorded>, from: u64, n: int) -> Seq<(u64, Seq<u8>)>
    decreases n,
{
    if n <= 0 {
        Seq::empty()
    } else if entries[n - 1].0 >= from {
        combined(entries, from, n - 1) + entries[n - 1].1
    } else {
        combined(entries, from, n - 1)
    }
}

/// What brings a peer up to date whose next sequence number is `from`: nothing
/// for a peer without a replica, and nothing if the journal does not reach
/// back far enough.
pub open spec fn since(entries: Seq<Recorded>, from: u64) -> Option<Seq<(u64, Seq<u8>)>> {
    if from == 0 || entries.len() == 0 || from < entries[0].0 {
        None
    } else {
        Some(combined(entries, from, entries.len() as int))
    }
}

impl PatchJournal {
    /// How many patches are kept.
    pub closed spec fn limit(&self) -> nat {
        self.capacity as nat
    }

    /// No more patches are held than are to be kept.
    pub closed spec fn wf(&self) -> bool {
        self.entries@.len() <= self.capacity
    }

    /// No more patches are held than are to be kept.
    pub proof fn lemma_bounded(self)
        requires
            self.wf(),
        ensures
            self@.len() <= self.limit(),
    {
    }

    /// An empty journal that keeps this many patches.
    pub fn new(capacity: usize) -> (r: Self)
        ensures
            r.wf(),
            r.limit() == capacity,
            r@ == Seq::<Recorded>::empty(),
    {
        let r = PatchJournal { entries: VecDeque::with_capacity(capacity), capacity };
        assert(r@ =~= Seq::<Recorded>::empty());
        r
    }

    /// Records the patch that the change with chain record `seq` made. The
    /// oldest patches make room for it.
    pub fn record(&mut self, seq: u64, ranges: Vec<(u64, Vec<u8>)>)
        requires
            old(self).wf(),
        ensures
            final(self).wf(),
            final(self).limit() == old(self).limit(),
            final(self)@ == (if old(self).limit() == 0 {
                old(self)@
            } else {
                last_of(
                    old(self)@.push((seq, vault::ranges_of(ranges@))),
                    old(self).limit() as int,
                )
            }),
    {
        if self.capacity == 0 {
            return;
        }
        let ghost before = self.entries@;
        let ghost all = recorded(before).push((seq, vault::ranges_of(ranges@)));
        self.entries.push_back((seq, ranges));
        let ghost pushed = self.entries@;
        assert(recorded(pushed) =~= all);
        if self.entries.len() > self.capacity {
            let _ = self.entries.pop_front();
            assert(recorded(self.entries@) =~= all.skip(1));
        }
    }

    /// Forgets every patch, so that whoever is behind needs the whole container.
    pub fn forget(&mut self)
        requires
            old(self).wf(),
        ensures
            final(self).wf(),
            final(self).limit() == old(self).limit(),
            final(self)@ == Seq::<Recorded>::empty(),
    {
        self.entries = VecDeque::new();
        assert(self@ =~= Seq::<Recorded>::empty());
    }

    /// The ranges that bring a peer up to date whose next sequence number is
    /// `peer_next_seq`, in the order in which they were written.
    pub fn ranges_since(&self, peer_next_seq: u64) -> (r: Option<Vec<(u64, Vec<u8>)>>)
        ensures
            match r {
                Some(ranges) => since(self@, peer_next_seq) == Some(vault::ranges_of(ranges@)),
                None => since(self@, peer_next_seq) is None,
            },
    {
        if peer_next_seq == 0 || self.entries.len() == 0 {
            return None;
        }
        assert(self@[0] == (self.entries@[0].0, vault::ranges_of(self.entries@[0].1@)));
        if peer_next_seq < self.entries[0].0 {
            return None;
        }
        let mut out: Vec<(u64, Vec<u8>)> = Vec::new();
        let mut i: usize = 0;
        assert(vault::ranges_of(out@) =~= Seq::empty());
        while i < self.entries.len()
            invariant
                i <= self.entries@.len(),
                vault::ranges_of(out@) == combined(self@, peer_next_seq, i as int),
            decreases self.entries@.len() - i,
        {
            assert(self@[i as int] == (
                self.entries@[i as int].0,
                vault::ranges_of(self.entries@[i as int].1@),
            ));
            if self.entries[i].0 >= peer_next_seq {
                append_ranges(&mut out, &self.entries[i].1);
            }
            i = i + 1;
        }
        Some(out)
    }
}

/// Appends copies of these ranges.
pub fn append_ranges(out: &mut Vec<(u64, Vec<u8>)>, ranges: &Vec<(u64, Vec<u8>)>)
    ensures
        vault::ranges_of(final(out)@) == vault::ranges_of(old(out)@) + vault::ranges_of(ranges@),
{
    let ghost start = vault::ranges_of(out@);
    let ghost all = vault::ranges_of(ranges@);
    let mut i: usize = 0;
    assert(start + all.take(0) =~= start);
    while i < ranges.len()
        invariant
            i <= ranges@.len(),
            all == vault::ranges_of(ranges@),
            vault::ranges_of(out@) == start + all.take(i as int),
        decreases ranges@.len() - i,
    {
        let copy = bytes::to_vec(ranges[i].1.as_slice());
        let ghost before = out@;
        out.push((ranges[i].0, copy));
        assert(all[i as int] == (ranges@[i as int].0, ranges@[i as int].1@));
        assert(vault::ranges_of(out@) =~= vault::ranges_of(before).push(all[i as int]));
        assert(start + all.take(i + 1) =~= (start + all.take(i as int)).push(all[i as int]));
        i = i + 1;
    }
    assert(all.take(i as int) =~= all);
}

// ---------------------------------------------------------------------
// What the journal promises
// ---------------------------------------------------------------------

/// The first sequence number that the patch number `i` covers: changes that were
/// not recorded on their own go along with the next one that was.
pub open spec fn first_covered(entries: Seq<Recorded>, i: int) -> int {
    if i <= 0 {
        entries[0].0 as int
    } else {
        entries[i - 1].0 + 1
    }
}

/// The patches are in order, and each leads from the vault before any change that
/// it covers to the one after its own change. `at(s)` is the vault before the
/// change with sequence number `s`.
pub open spec fn faithful(entries: Seq<Recorded>, at: spec_fn(int) -> VaultModel) -> bool {
    &&& forall|i: int, j: int|
        0 <= i < j < entries.len() ==> (#[trigger] entries[i]).0 < (#[trigger] entries[j]).0
    &&& forall|i: int, t: int|
        0 <= i < entries.len() && first_covered(entries, i) <= t <= entries[i].0 ==> replay::leads(
            #[trigger] at(t),
            (#[trigger] entries[i]).1,
            at(entries[i].0 + 1),
        )
}

proof fn lemma_combined_empty(entries: Seq<Recorded>, from: u64, n: int)
    requires
        0 <= n <= entries.len(),
        forall|i: int| 0 <= i < n ==> (#[trigger] entries[i]).0 < from,
    ensures
        combined(entries, from, n) == Seq::<(u64, Seq<u8>)>::empty(),
    decreases n,
{
    if n > 0 {
        lemma_combined_empty(entries, from, n - 1);
    }
}

proof fn lemma_catch_up(
    entries: Seq<Recorded>,
    at: spec_fn(int) -> VaultModel,
    from: u64,
    n: int,
)
    requires
        faithful(entries, at),
        0 < n <= entries.len(),
        entries[0].0 <= from <= entries[n - 1].0 + 1,
    ensures
        replay::leads(
            at(from as int),
            combined(entries, from, n),
            at(entries[n - 1].0 + 1),
        ),
    decreases n,
{
    let b = entries[n - 1].1;
    let a = combined(entries, from, n - 1);
    if n >= 2 && from <= entries[n - 2].0 + 1 {
        lemma_catch_up(entries, at, from, n - 1);
        assert(entries[n - 2].0 < entries[n - 1].0);
        assert(first_covered(entries, n - 1) == entries[n - 2].0 + 1);
        let t = entries[n - 2].0 + 1;
        assert(replay::leads(at(t), b, at(entries[n - 1].0 + 1)));
        replay::law_leads_add_up(at(from as int), a, at(t), b, at(entries[n - 1].0 + 1));
    } else {
        assert forall|i: int| 0 <= i < n - 1 implies (#[trigger] entries[i]).0 < from by {
            if i < n - 2 {
                assert(entries[i].0 < entries[n - 2].0);
            }
        }
        lemma_combined_empty(entries, from, n - 1);
        assert(a + b =~= b);
        if from <= entries[n - 1].0 {
            assert(first_covered(entries, n - 1) <= from);
            assert(replay::leads(at(from as int), b, at(entries[n - 1].0 + 1)));
        }
    }
}

/// A peer whose replica is the vault before the change with sequence number `from`
/// is brought up to date, byte for byte and record for record, by what the journal
/// gives for `from`.
pub proof fn law_catch_up(entries: Seq<Recorded>, at: spec_fn(int) -> VaultModel, from: u64)
    requires
        faithful(entries, at),
        since(entries, from) is Some,
        from <= entries.last().0 + 1,
    ensures
        replay::leads(
            at(from as int),
            since(entries, from)->Some_0,
            at(entries.last().0 + 1),
        ),
{
    lemma_catch_up(entries, at, from, entries.len() as int);
}

/// A journal stays faithful when a change is recorded, whether or not the oldest
/// patches make room, if the recorded ranges lead from the vault before any
/// change since the last recorded one to the vault after this change.
pub proof fn law_recording_keeps_faith(
    entries: Seq<Recorded>,
    at: spec_fn(int) -> VaultModel,
    seq: u64,
    ranges: Seq<(u64, Seq<u8>)>,
    limit: int,
)
    requires
        faithful(entries, at),
        entries.len() > 0 ==> entries.last().0 < seq,
        forall|t: int|
            (if entries.len() > 0 {
                entries.last().0 + 1
            } else {
                seq as int
            }) <= t <= seq ==> replay::leads(#[trigger] at(t), ranges, at(seq + 1)),
        limit > 0,
    ensures
        faithful(last_of(entries.push((seq, ranges)), limit), at),
{
    let all = entries.push((seq, ranges));
    let kept = last_of(all, limit);
    let cut = all.len() - kept.len();
    assert forall|i: int, j: int| 0 <= i < j < all.len() implies (#[trigger] all[i]).0 < (
    #[trigger] all[j]).0 by {
        assert(all[i] == entries[i]);
        if j < entries.len() {
            assert(all[j] == entries[j]);
        } else if i < entries.len() - 1 {
            assert(entries[i].0 < entries[entries.len() - 1].0);
        }
    }
    assert forall|i: int, j: int| 0 <= i < j < kept.len() implies (#[trigger] kept[i]).0 < (
    #[trigger] kept[j]).0 by {
        assert(kept[i] == all[cut + i] && kept[j] == all[cut + j]);
    }
    assert forall|i: int, t: int|
        0 <= i < kept.len() && first_covered(kept, i) <= t <= kept[i].0 implies replay::leads(
        #[trigger] at(t),
        (#[trigger] kept[i]).1,
        at(kept[i].0 + 1),
    ) by {
        assert(kept[i] == all[cut + i]);
        if i > 0 {
            assert(kept[i - 1] == all[cut + i - 1]);
        }
        if cut + i < entries.len() {
            assert(entries[cut + i] == kept[i]);
            if cut + i > 0 {
                assert(entries[cut + i - 1] == all[cut + i - 1]);
                assert(all[cut + i - 1].0 < all[cut + i].0);
            }
            assert(first_covered(entries, cut + i) <= t);
        } else {
            assert(kept[i] == (seq, ranges));
            if entries.len() > 0 {
                assert(entries.last() == all[all.len() - 2]);
            }
        }
    }
}

/// A journal that holds every change up to the last stays faithful when the log of
/// the next one is recorded. `v` is the vault before that change, with its log
/// just taken, and `w` the vault after it.
pub proof fn law_recorded_change_keeps_faith(
    entries: Seq<Recorded>,
    at: spec_fn(int) -> VaultModel,
    v: VaultModel,
    w: VaultModel,
    limit: int,
)
    requires
        faithful(entries, at),
        entries.len() > 0 ==> entries.last().0 + 1 == v.header.chain_next_seq,
        v.log.len() == 0,
        replay::keeps_lead(v, w),
        replay::same_container(at(v.header.chain_next_seq as int), v),
        replay::same_container(at(v.header.chain_next_seq + 1), w),
        limit > 0,
    ensures
        faithful(last_of(entries.push((v.header.chain_next_seq, w.log)), limit), at),
{
    let seq = v.header.chain_next_seq;
    replay::law_change_leads(v, w);
    assert(replay::leads(at(seq as int), w.log, at(seq + 1)));
    law_recording_keeps_faith(entries, at, seq, w.log, limit);
}

/// The journal of a served vault is in step with it: every patch leads where it
/// should, the last one is that of the vault's last change, and what the vault
/// wrote since leads on to it. `at(s)` is the vault before the change with
/// sequence number `s`.
pub open spec fn in_step(
    entries: Seq<Recorded>,
    at: spec_fn(int) -> VaultModel,
    v: VaultModel,
) -> bool {
    &&& faithful(entries, at)
    &&& entries.len() > 0 ==> entries.last().0 + 1 == v.header.chain_next_seq
    &&& replay::leads(at(v.header.chain_next_seq as int), v.log, v)
}

/// Recording the log of a change keeps the journal in step. `v` is the vault
/// before the change and `w` the vault after it.
pub proof fn law_recording_keeps_step(
    entries: Seq<Recorded>,
    at: spec_fn(int) -> VaultModel,
    v: VaultModel,
    w: VaultModel,
    limit: int,
)
    requires
        in_step(entries, at, v),
        replay::keeps_lead(v, w),
        w.header.chain_next_seq == v.header.chain_next_seq + 1,
        replay::same_container(at(v.header.chain_next_seq + 1), w),
        0 <= limit,
        limit == 0 ==> entries.len() == 0,
    ensures
        in_step(
            if limit == 0 {
                entries
            } else {
                last_of(entries.push((v.header.chain_next_seq, w.log)), limit)
            },
            at,
            VaultModel { log: Seq::empty(), ..w },
        ),
{
    let seq = v.header.chain_next_seq;
    let next = VaultModel { log: Seq::<(u64, Seq<u8>)>::empty(), ..w };
    assert(replay::leads(at(seq as int), w.log, w));
    assert(replay::leads(at(seq as int), w.log, at(seq + 1)));
    replay::law_replica_starts_lead(next, at(seq + 1));
    if limit > 0 {
        law_recording_keeps_faith(entries, at, seq, w.log, limit);
        let all = entries.push((seq, w.log));
        assert(last_of(all, limit).last() == all.last());
    }
}

/// The ranges of the changes from `first` up to, but not including, `end`.
pub open spec fn ranges_between(
    logs: spec_fn(int) -> Seq<(u64, Seq<u8>)>,
    first: int,
    end: int,
) -> Seq<(u64, Seq<u8>)>
    decreases end - first,
{
    if end <= first {
        Seq::empty()
    } else {
        ranges_between(logs, first, end - 1) + logs(end - 1)
    }
}

/// The ranges of the change with sequence number `s` lead from the vault before it
/// to the one after it.
pub open spec fn leads_on(
    logs: spec_fn(int) -> Seq<(u64, Seq<u8>)>,
    at: spec_fn(int) -> VaultModel,
    s: int,
) -> bool {
    replay::leads(at(s), logs(s), at(s + 1))
}

proof fn lemma_between(
    logs: spec_fn(int) -> Seq<(u64, Seq<u8>)>,
    at: spec_fn(int) -> VaultModel,
    first: int,
    end: int,
)
    requires
        first <= end,
        forall|s: int| first <= s < end ==> #[trigger] leads_on(logs, at, s),
    ensures
        replay::leads(at(first), ranges_between(logs, first, end), at(end)),
    decreases end - first,
{
    if first < end {
        lemma_between(logs, at, first, end - 1);
        let a = ranges_between(logs, first, end - 1);
        assert(leads_on(logs, at, end - 1));
        replay::law_leads_add_up(at(first), a, at(end - 1), logs(end - 1), at(end));
    } else {
        let none = ranges_between(logs, first, end);
        assert(replay::leads(at(first), none, at(end)));
    }
}

proof fn lemma_between_splits(
    logs: spec_fn(int) -> Seq<(u64, Seq<u8>)>,
    first: int,
    middle: int,
    end: int,
)
    requires
        first <= middle <= end,
    ensures
        ranges_between(logs, first, end) == ranges_between(logs, first, middle) + ranges_between(
            logs,
            middle,
            end,
        ),
    decreases end - middle,
{
    let a = ranges_between(logs, first, middle);
    if middle < end {
        lemma_between_splits(logs, first, middle, end - 1);
        assert(a + (ranges_between(logs, middle, end - 1) + logs(end - 1)) =~= (a
            + ranges_between(logs, middle, end - 1)) + logs(end - 1));
    } else {
        assert(a + Seq::empty() =~= a);
    }
}

/// Changes that were not recorded on their own may go along with the next one
/// that is: their ranges together bring every replica up to date that lacks any
/// of the last changes, also one that has some of them already.
pub proof fn law_unrecorded_changes_go_along(
    logs: spec_fn(int) -> Seq<(u64, Seq<u8>)>,
    at: spec_fn(int) -> VaultModel,
    first: int,
    end: int,
    t: int,
)
    requires
        first <= t < end,
        forall|s: int| first <= s < end ==> #[trigger] leads_on(logs, at, s),
    ensures
        replay::leads(at(t), ranges_between(logs, first, end), at(end)),
{
    lemma_between(logs, at, first, t);
    lemma_between(logs, at, t, end);
    lemma_between_splits(logs, first, t, end);
    replay::law_replay_leads(
        at(first),
        ranges_between(logs, first, t),
        at(t),
        ranges_between(logs, t, end),
        at(end),
    );
}

/// The journal claims coverage exactly for peers that have a replica and need
/// nothing older than the oldest patch.
pub proof fn law_coverage(entries: Seq<Recorded>, from: u64)
    ensures
        since(entries, from) is Some <==> from > 0 && entries.len() > 0 && entries[0].0 <= from,
{
}

/// What a journal that keeps `limit` patches holds after the ranges of the
/// changes from `first` up to, but not including, `end` were recorded in order.
pub open spec fn run(
    logs: spec_fn(int) -> Seq<(u64, Seq<u8>)>,
    first: int,
    end: int,
    limit: int,
) -> Seq<Recorded>
    decreases end - first,
{
    if end <= first || limit == 0 {
        Seq::empty()
    } else {
        last_of(
            run(logs, first, end - 1, limit).push(((end - 1) as u64, logs(end - 1))),
            limit,
        )
    }
}

/// The oldest change that is still held after such a run.
pub open spec fn oldest_held(first: int, end: int, limit: int) -> int {
    if first < end - limit {
        end - limit
    } else {
        first
    }
}

proof fn lemma_run(
    logs: spec_fn(int) -> Seq<(u64, Seq<u8>)>,
    first: int,
    end: int,
    limit: int,
)
    requires
        0 <= first <= end <= 0x1_0000_0000_0000_0000,
        limit > 0,
    ensures
        run(logs, first, end, limit).len() == end - oldest_held(first, end, limit),
        forall|i: int|
            0 <= i < run(logs, first, end, limit).len() ==> (#[trigger] run(
                logs,
                first,
                end,
                limit,
            )[i]) == (
                (oldest_held(first, end, limit) + i) as u64,
                logs(oldest_held(first, end, limit) + i),
            ),
    decreases end - first,
{
    if first < end {
        lemma_run(logs, first, end - 1, limit);
        let before = run(logs, first, end - 1, limit);
        let all = before.push(((end - 1) as u64, logs(end - 1)));
        let now = run(logs, first, end, limit);
        let cut = all.len() - now.len();
        assert forall|i: int| 0 <= i < now.len() implies (#[trigger] now[i]) == (
            (oldest_held(first, end, limit) + i) as u64,
            logs(oldest_held(first, end, limit) + i),
        ) by {
            assert(now[i] == all[cut + i]);
            if cut + i < before.len() {
                assert(all[cut + i] == before[cut + i]);
            }
        }
    }
}

proof fn lemma_combined_run(
    logs: spec_fn(int) -> Seq<(u64, Seq<u8>)>,
    entries: Seq<Recorded>,
    oldest: int,
    from: u64,
    n: int,
)
    requires
        0 <= oldest <= from,
        0 <= n <= entries.len(),
        oldest + entries.len() <= 0x1_0000_0000_0000_0000,
        forall|i: int|
            0 <= i < entries.len() ==> (#[trigger] entries[i]) == (
                (oldest + i) as u64,
                logs(oldest + i),
            ),
    ensures
        combined(entries, from, n) == ranges_between(logs, from as int, oldest + n),
    decreases n,
{
    if n > 0 {
        lemma_combined_run(logs, entries, oldest, from, n - 1);
        assert(entries[n - 1] == ((oldest + n - 1) as u64, logs(oldest + n - 1)));
    }
}

/// What a run of consecutive recordings gives: a peer that has no replica, and one
/// that needs a change which is no longer held, gets nothing. Every other peer
/// gets the ranges of all changes that it lacks, each once and in order, which is
/// none for one that lacks no change.
pub proof fn law_run_of_recordings(
    logs: spec_fn(int) -> Seq<(u64, Seq<u8>)>,
    first: int,
    end: int,
    limit: int,
    from: u64,
)
    requires
        0 <= first <= end <= 0x1_0000_0000_0000_0000,
        0 <= limit,
    ensures
        since(run(logs, first, end, limit), from) == (if from == 0 || limit == 0 || first == end
            || from < oldest_held(first, end, limit) {
            None
        } else {
            Some(ranges_between(logs, from as int, end))
        }),
{
    if limit > 0 && first < end {
        lemma_run(logs, first, end, limit);
        let entries = run(logs, first, end, limit);
        let oldest = oldest_held(first, end, limit);
        assert(entries[0] == ((oldest + 0) as u64, logs(oldest + 0)));
        if oldest <= from {
            lemma_combined_run(logs, entries, oldest, from, entries.len() as int);
        }
    }
}

} // verus!
