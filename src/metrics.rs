use vstd::prelude::*;

verus! {

/// The counter of one outcome label (a response status code).
#[derive(Clone, Copy, Debug, PartialEq, Eq)]
pub struct StatusCount {
    pub status: u16,
    pub count: u64,
}

/// Sum of the counters held in `entries`.
pub open spec fn sum_counts(entries: Seq<StatusCount>) -> nat
    decreases entries.len(),
{
    if entries.len() == 0 {
        0
    } else {
        sum_counts(entries.drop_last()) + entries.last().count as nat
    }
}

/// The map from label to counter that `entries` hold.
pub open spec fn counts_of(entries: Seq<StatusCount>) -> Map<u16, nat>
    decreases entries.len(),
{
    if entries.len() == 0 {
        Map::empty()
    } else {
        counts_of(entries.drop_last()).insert(entries.last().status, entries.last().count as nat)
    }
}

/// No label occurs twice in `entries`.
pub open spec fn labels_unique(entries: Seq<StatusCount>) -> bool {
    forall|i: int, j: int|
        0 <= i < j < entries.len() ==> #[trigger] entries[i].status != #[trigger] entries[j].status
}

/// How many times `label` occurs in `labels`.
pub open spec fn occurrences(labels: Seq<u16>, label: u16) -> nat
    decreases labels.len(),
{
    if labels.len() == 0 {
        0
    } else {
        occurrences(labels.drop_last(), label) + if labels.last() == label {
            1nat
        } else {
            0nat
        }
    }
}

proof fn lemma_counts_domain(entries: Seq<StatusCount>, label: u16)
    ensures
        counts_of(entries).contains_key(label) <==> exists|i: int|
            0 <= i < entries.len() && #[trigger] entries[i].status == label,
    decreases entries.len(),
{
    if entries.len() > 0 {
        let init = entries.drop_last();
        lemma_counts_domain(init, label);
        if counts_of(init).contains_key(label) {
            let i = choose|i: int| 0 <= i < init.len() && #[trigger] init[i].status == label;
            assert(entries[i].status == label);
        }
        if exists|i: int| 0 <= i < entries.len() && #[trigger] entries[i].status == label {
            let i = choose|i: int| 0 <= i < entries.len() && #[trigger] entries[i].status == label;
            if i < init.len() {
                assert(init[i].status == label);
            }
        }
    }
}

proof fn lemma_counts_at(entries: Seq<StatusCount>, i: int)
    requires
        labels_unique(entries),
        0 <= i < entries.len(),
    ensures
        counts_of(entries).contains_key(entries[i].status),
        counts_of(entries)[entries[i].status] == entries[i].count as nat,
    decreases entries.len(),
{
    let init = entries.drop_last();
    if i < entries.len() - 1 {
        assert(entries[i].status != entries[entries.len() - 1].status);
        assert(init[i] == entries[i]);
        lemma_counts_at(init, i);
    }
}

proof fn lemma_counts_update(entries: Seq<StatusCount>, i: int, count: u64)
    requires
        labels_unique(entries),
        0 <= i < entries.len(),
    ensures
        counts_of(entries.update(i, StatusCount { status: entries[i].status, count })) == counts_of(
            entries,
        ).insert(entries[i].status, count as nat),
    decreases entries.len(),
{
    let label = entries[i].status;
    let updated = entries.update(i, StatusCount { status: label, count });
    let init = entries.drop_last();
    if i == entries.len() - 1 {
        assert(updated.drop_last() =~= init);
        assert(counts_of(updated) =~= counts_of(entries).insert(label, count as nat));
    } else {
        assert(updated.drop_last() =~= init.update(i, StatusCount { status: label, count }));
        assert(init[i] == entries[i]);
        lemma_counts_update(init, i, count);
        assert(entries.last().status != label);
        assert(counts_of(updated) =~= counts_of(entries).insert(label, count as nat));
    }
}

proof fn lemma_sum_update(entries: Seq<StatusCount>, i: int, count: u64)
    requires
        0 <= i < entries.len(),
    ensures
        sum_counts(entries.update(i, StatusCount { status: entries[i].status, count }))
            + entries[i].count == sum_counts(entries) + count,
    decreases entries.len(),
{
    let updated = entries.update(i, StatusCount { status: entries[i].status, count });
    let init = entries.drop_last();
    if i == entries.len() - 1 {
        assert(updated.drop_last() =~= init);
    } else {
        assert(updated.drop_last() =~= init.update(i, StatusCount { status: entries[i].status, count }));
        assert(init[i] == entries[i]);
        lemma_sum_update(init, i, count);
    }
}

proof fn lemma_entry_le_sum(entries: Seq<StatusCount>, i: int)
    requires
        0 <= i < entries.len(),
    ensures
        entries[i].count <= sum_counts(entries),
    decreases entries.len(),
{
    if i < entries.len() - 1 {
        assert(entries.drop_last()[i] == entries[i]);
        lemma_entry_le_sum(entries.drop_last(), i);
    }
}

/// Process-wide request counters, keyed by response status.
///
/// `http_request_counter` counts every recorded request; the table holds one
/// counter per status seen so far. Counters only ever grow.
pub struct MetricsState {
    http_request_counter: u64,
    by_status: Vec<StatusCount>,
}

impl MetricsState {
    /// The table holds each label once, and the total is the sum of its counters.
    pub closed spec fn wf(&self) -> bool {
        &&& labels_unique(self.by_status@)
        &&& self.http_request_counter as nat == sum_counts(self.by_status@)
    }

    /// The counter of each label seen so far.
    pub closed spec fn counts(&self) -> Map<u16, nat> {
        counts_of(self.by_status@)
    }

    /// The number of requests recorded over all labels.
    pub closed spec fn total(&self) -> nat {
        self.http_request_counter as nat
    }

    /// The counter of `status`, zero for a label never seen.
    pub open spec fn count(&self, status: u16) -> nat {
        if self.counts().contains_key(status) {
            self.counts()[status]
        } else {
            0
        }
    }

    /// `self` is `before` with one more request recorded under `status`.
    /// Once the total has reached `u64::MAX` recording leaves the counters as
    /// they are, so that no counter can wrap round.
    pub open spec fn records(&self, before: &MetricsState, status: u16) -> bool {
        &&& self.wf()
        &&& if before.total() < u64::MAX {
            &&& self.counts() == before.counts().insert(status, before.count(status) + 1)
            &&& self.total() == before.total() + 1
        } else {
            &&& self.counts() == before.counts()
            &&& self.total() == before.total()
        }
    }

    /// An empty table: no request recorded yet.
    pub fn new() -> (r: MetricsState)
        ensures
            r.wf(),
            r.counts() == Map::<u16, nat>::empty(),
            r.total() == 0,
    {
        let r = MetricsState { http_request_counter: 0, by_status: Vec::new() };
        assert(r.counts() =~= Map::<u16, nat>::empty());
        r
    }

    /// The number of requests recorded over all labels.
    pub fn http_request_counter(&self) -> (r: u64)
        ensures
            r as nat == self.total(),
    {
        self.http_request_counter
    }

    /// The counter of `status`, zero for a label never seen.
    pub fn counter(&self, status: u16) -> (r: u64)
        requires
            self.wf(),
        ensures
            r as nat == self.count(status),
    {
        let mut i: usize = 0;
        while i < self.by_status.len()
            invariant
                self.wf(),
                i <= self.by_status@.len(),
                forall|j: int| 0 <= j < i ==> #[trigger] self.by_status@[j].status != status,
            decreases self.by_status@.len() - i,
        {
            if self.by_status[i].status == status {
                proof {
                    lemma_counts_at(self.by_status@, i as int);
                }
                return self.by_status[i].count;
            }
            i = i + 1;
        }
        proof {
            lemma_counts_domain(self.by_status@, status);
        }
        0
    }

    /// A copy of the counters at this point, one entry per label seen, in the
    /// order in which the labels were first recorded.
    pub fn snapshot(&self) -> (r: Vec<StatusCount>)
        requires
            self.wf(),
        ensures
            labels_unique(r@),
            counts_of(r@) == self.counts(),
    {
        self.by_status.clone()
    }

    /// Adds one to the counter of `status`, creating it at zero first if the
    /// label is new.
    pub fn increment(&mut self, status: u16)
        requires
            old(self).wf(),
        ensures
            final(self).records(old(self), status),
    {
        if self.http_request_counter == u64::MAX {
            return;
        }
        let mut i: usize = 0;
        while i < self.by_status.len()
            invariant
                self.wf(),
                self.by_status@ == old(self).by_status@,
                self.http_request_counter == old(self).http_request_counter,
                self.http_request_counter < u64::MAX,
                i <= self.by_status@.len(),
                forall|j: int| 0 <= j < i ==> #[trigger] self.by_status@[j].status != status,
            decreases self.by_status@.len() - i,
        {
            if self.by_status[i].status == status {
                let ghost before = self.by_status@;
                let entry = self.by_status[i];
                proof {
                    lemma_entry_le_sum(before, i as int);
                    lemma_counts_at(before, i as int);
                    lemma_sum_update(before, i as int, (entry.count + 1) as u64);
                    lemma_counts_update(before, i as int, (entry.count + 1) as u64);
                }
                self.by_status.set(i, StatusCount { status, count: entry.count + 1 });
                self.http_request_counter = self.http_request_counter + 1;
                assert(forall|a: int, b: int|
                    0 <= a < b < self.by_status@.len() ==> self.by_status@[a].status
                        == before[a].status && self.by_status@[b].status == before[b].status);
                return;
            }
            i = i + 1;
        }
        let ghost before = self.by_status@;
        proof {
            lemma_counts_domain(before, status);
        }
        self.by_status.push(StatusCount { status, count: 1 });
        self.http_request_counter = self.http_request_counter + 1;
        assert(self.by_status@.drop_last() =~= before);
        assert(forall|a: int, b: int|
            0 <= a < b < self.by_status@.len() ==> #[trigger] self.by_status@[a].status
                != #[trigger] self.by_status@[b].status) by {
            assert forall|a: int, b: int|
                0 <= a < b < self.by_status@.len() implies #[trigger] self.by_status@[a].status
                != #[trigger] self.by_status@[b].status by {
                if b < before.len() {
                    assert(before[a].status != before[b].status);
                } else {
                    assert(before[a].status != status);
                }
            }
        }
    }
}

/// Records one handled request under `status` and returns the number of
/// requests recorded so far, over all labels.
pub fn record_http_request_metrics(status: u16, state: &mut MetricsState) -> (r: u64)
    requires
        old(state).wf(),
    ensures
        final(state).records(old(state), status),
        r as nat == final(state).total(),
{
    state.increment(status);
    state.http_request_counter
}

/// Requests recorded one after another (as the lock round the counters
/// serialises concurrent ones) are neither lost nor duplicated: each label's
/// counter grows by the number of requests recorded under it, and the total
/// by the number of requests, as long as the total stays within `u64`.
pub proof fn lemma_no_lost_updates(states: Seq<MetricsState>, labels: Seq<u16>)
    requires
        states.len() == labels.len() + 1,
        forall|k: int|
            0 <= k < labels.len() ==> #[trigger] states[k + 1].records(&states[k], labels[k]),
        states[0].total() + labels.len() <= u64::MAX,
    ensures
        states.last().total() == states[0].total() + labels.len(),
        forall|l: u16| #[trigger]
            states.last().count(l) == states[0].count(l) + occurrences(labels, l),
    decreases labels.len(),
{
    let n = labels.len() as int;
    if n > 0 {
        let earlier = states.drop_last();
        let first = labels.drop_last();
        assert forall|k: int| 0 <= k < first.len() implies #[trigger] earlier[k + 1].records(
            &earlier[k],
            first[k],
        ) by {
            assert(states[k + 1].records(&states[k], labels[k]));
        }
        lemma_no_lost_updates(earlier, first);
        assert(states[n].records(&states[n - 1], labels[n - 1]));
        assert forall|l: u16| #[trigger]
            states.last().count(l) == states[0].count(l) + occurrences(labels, l) by {
            assert(earlier.last().count(l) == earlier[0].count(l) + occurrences(first, l));
        }
    }
}

/// Recording is per request, not deduplicated: the same successful request
/// recorded twice adds two to its label's counter and leaves the others as
/// they were.
pub proof fn lemma_recorded_twice(
    before: MetricsState,
    once: MetricsState,
    twice: MetricsState,
    status: u16,
)
    requires
        once.records(&before, status),
        twice.records(&once, status),
        before.total() + 2 <= u64::MAX,
    ensures
        twice.count(status) == before.count(status) + 2,
        twice.total() == before.total() + 2,
        forall|l: u16| l != status ==> #[trigger] twice.count(l) == before.count(l),
{
}

} // verus!
