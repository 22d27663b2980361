use vstd::prelude::*;

verus! {

/// The position served by the next round-robin selection, `k` calls from now,
/// when the cursor currently stands at `cursor`.
pub open spec fn rr_selection(targets: Seq<u16>, cursor: int, k: int) -> u16
    recommends
        targets.len() > 0,
{
    targets[(cursor + k) % (targets.len() as int)]
}

/// The targets served by the next `targets.len()` round-robin selections,
/// in order, when the cursor currently stands at `cursor`.
pub open spec fn rr_window(targets: Seq<u16>, cursor: int) -> Seq<u16> {
    Seq::new(targets.len(), |k: int| rr_selection(targets, cursor, k))
}

/// Round-robin fairness: over a window of as many consecutive selections as
/// there are targets, every configured target is returned exactly once (the
/// window is a rotation of the configured list, so it has the same multiset
/// of targets), and from cursor 0 the window is exactly the configured order;
/// thereafter the rotation repeats with the length of the list as its period.
#[verifier::rlimit(50)]
pub proof fn lemma_round_robin_fairness(targets: Seq<u16>, cursor: int)
    requires
        0 <= cursor < targets.len(),
    ensures
        rr_window(targets, cursor) == targets.subrange(cursor, targets.len() as int)
            + targets.subrange(0, cursor),
        rr_window(targets, cursor).to_multiset() == targets.to_multiset(),
        rr_window(targets, 0) == targets,
{
    let n = targets.len() as int;
    let rot = targets.subrange(cursor, n) + targets.subrange(0, cursor);
    assert forall|k: int| 0 <= k < n implies rr_window(targets, cursor)[k] == rot[k] by {
        if cursor + k < n {
            vstd::arithmetic::div_mod::lemma_small_mod((cursor + k) as nat, n as nat);
        } else {
            vstd::arithmetic::div_mod::lemma_mod_sub_multiples_vanish(cursor + k, n);
            vstd::arithmetic::div_mod::lemma_small_mod((cursor + k - n) as nat, n as nat);
        }
    }
    assert(rr_window(targets, cursor) =~= rot);
    assert(targets =~= targets.subrange(0, cursor) + targets.subrange(cursor, n));
    vstd::seq_lib::lemma_multiset_commutative(targets.subrange(cursor, n), targets.subrange(0, cursor));
    vstd::seq_lib::lemma_multiset_commutative(targets.subrange(0, cursor), targets.subrange(cursor, n));
    assert(rr_window(targets, cursor).to_multiset() == targets.to_multiset()) by {
        assert(rot.to_multiset() == targets.subrange(cursor, n).to_multiset().add(
            targets.subrange(0, cursor).to_multiset(),
        ));
        assert(targets.to_multiset() == targets.subrange(0, cursor).to_multiset().add(
            targets.subrange(cursor, n).to_multiset(),
        ));
        assert(targets.subrange(cursor, n).to_multiset().add(
            targets.subrange(0, cursor).to_multiset(),
        ) =~= targets.subrange(0, cursor).to_multiset().add(
            targets.subrange(cursor, n).to_multiset(),
        ));
    }
    assert forall|k: int| 0 <= k < n implies rr_window(targets, 0)[k] == targets[k] by {
        vstd::arithmetic::div_mod::lemma_small_mod(k as nat, n as nat);
    }
    assert(rr_window(targets, 0) =~= targets);
}

/// Round-robin periodicity: the selection made `k` calls from now is made
/// again `targets.len()` calls later, so after a full rotation the sequence
/// of selections repeats from its start.
pub proof fn lemma_round_robin_period(targets: Seq<u16>, cursor: int, k: int)
    requires
        0 <= cursor < targets.len(),
        0 <= k,
    ensures
        rr_selection(targets, cursor, k + targets.len()) == rr_selection(targets, cursor, k),
{
    let n = targets.len() as int;
    vstd::arithmetic::div_mod::lemma_mod_add_multiples_vanish(cursor + k, n);
}

/// A selection policy: answers which target serves the next request and
/// observes request completion.
pub trait LoadBalancer: Sized {
    /// The configured target ports, in configured order.
    spec fn targets(&self) -> Seq<u16>;

    /// Internal well-formedness of the policy state.
    spec fn wf(&self) -> bool;

    /// What this policy's `select_backend` guarantees, beyond the
    /// trait-level clauses.
    spec fn select_ens(&self, post: &Self, port: u16) -> bool;

    /// What this policy's `on_request_complete` guarantees, beyond the
    /// trait-level clauses.
    spec fn complete_ens(&self, post: &Self, backend: u16) -> bool;

    fn select_backend(&mut self) -> (port: u16)
        requires
            old(self).wf(),
            old(self).targets().len() > 0,
        ensures
            final(self).wf(),
            final(self).targets() == old(self).targets(),
            old(self).targets().contains(port),
            old(self).select_ens(final(self), port),
    ;

    fn on_request_complete(&mut self, backend: u16)
        requires
            old(self).wf(),
        ensures
            final(self).wf(),
            final(self).targets() == old(self).targets(),
            old(self).complete_ens(final(self), backend),
    ;
}

/// Deterministic rotation over the configured targets.
pub struct RoundRobinBalancer {
    pub targets: Vec<u16>,
    pub cursor: usize,
}

impl RoundRobinBalancer {
    pub fn new(backends: Vec<u16>) -> (r: Self)
        ensures
            r.wf(),
            r.targets() == backends@,
            r.cursor == 0,
    {
        RoundRobinBalancer { targets: backends, cursor: 0 }
    }
}

impl LoadBalancer for RoundRobinBalancer {
    open spec fn targets(&self) -> Seq<u16> {
        self.targets@
    }

    open spec fn wf(&self) -> bool {
        self.targets@.len() == 0 || self.cursor < self.targets@.len()
    }

    open spec fn select_ens(&self, post: &Self, port: u16) -> bool {
        &&& port == rr_selection(self.targets@, self.cursor as int, 0)
        &&& post.cursor == (self.cursor + 1) % (self.targets@.len() as int)
    }

    open spec fn complete_ens(&self, post: &Self, backend: u16) -> bool {
        post == self
    }

    fn select_backend(&mut self) -> (port: u16) {
        let n = self.targets.len();
        let port = self.targets[self.cursor];
        self.cursor = if self.cursor + 1 == n {
            0
        } else {
            self.cursor + 1
        };
        proof {
            vstd::arithmetic::div_mod::lemma_small_mod(
                old(self).cursor as nat,
                old(self).targets@.len(),
            );
            if old(self).cursor + 1 == n {
                vstd::arithmetic::div_mod::lemma_mod_self_0(n as int);
            } else {
                vstd::arithmetic::div_mod::lemma_small_mod(
                    (old(self).cursor + 1) as nat,
                    old(self).targets@.len(),
                );
            }
            assert(old(self).targets@.contains(port)) by {
                assert(old(self).targets@[old(self).cursor as int] == port);
            }
        }
        port
    }

    fn on_request_complete(&mut self, backend: u16) {
    }
}

/// First index of the minimum value in a non-empty sequence of counts.
pub open spec fn min_index(s: Seq<usize>) -> int
    recommends
        s.len() > 0,
    decreases s.len(),
{
    if s.len() <= 1 {
        0
    } else {
        let m = min_index(s.drop_last());
        if s.last() < s[m] {
            s.len() - 1
        } else {
            m
        }
    }
}

/// `min_index` names the first position holding the minimum.
pub proof fn lemma_min_index(s: Seq<usize>)
    requires
        s.len() > 0,
    ensures
        0 <= min_index(s) < s.len(),
        forall|i: int| 0 <= i < s.len() ==> s[min_index(s)] <= #[trigger] s[i],
        forall|i: int| 0 <= i < min_index(s) ==> s[min_index(s)] < #[trigger] s[i],
    decreases s.len(),
{
    if s.len() > 1 {
        lemma_min_index(s.drop_last());
        assert(forall|i: int| 0 <= i < s.len() - 1 ==> s.drop_last()[i] == #[trigger] s[i]);
    }
}

/// First index of `x` in `s`, or the length of `s` when `x` does not occur.
pub open spec fn first_index_of(s: Seq<u16>, x: u16) -> int
    decreases s.len(),
{
    if s.len() == 0 {
        0
    } else if s.first() == x {
        0
    } else {
        1 + first_index_of(s.drop_first(), x)
    }
}

/// `first_index_of` names the first occurrence, and the length when absent.
pub proof fn lemma_first_index_of(s: Seq<u16>, x: u16)
    ensures
        0 <= first_index_of(s, x) <= s.len(),
        s.contains(x) <==> first_index_of(s, x) < s.len(),
        first_index_of(s, x) < s.len() ==> s[first_index_of(s, x)] == x,
        forall|i: int| 0 <= i < first_index_of(s, x) ==> s[i] != x,
    decreases s.len(),
{
    if s.len() > 0 && s.first() != x {
        lemma_first_index_of(s.drop_first(), x);
        assert(forall|i: int| 0 <= i < s.len() - 1 ==> s.drop_first()[i] == #[trigger] s[i + 1]);
        assert(s.contains(x) ==> s.drop_first().contains(x)) by {
            if s.contains(x) {
                let w = choose|w: int| 0 <= w < s.len() && s[w] == x;
                assert(s.drop_first()[w - 1] == x);
            }
        }
        assert forall|i: int| 0 <= i < first_index_of(s, x) implies s[i] != x by {
            if i > 0 {
                assert(s.drop_first()[i - 1] == s[i]);
            }
        }
    }
}

/// What can happen to the least-connections in-flight state: a selection, or
/// an observed completion for the target at a given index.
pub enum LcEvent {
    Select,
    Complete(usize),
}

/// One step of the least-connections in-flight state: a selection increments
/// the count of the first least-loaded target (leaving it unchanged only at
/// the machine limit), and an observed completion for the target at index `i`
/// decrements its count, clamped so that it can never go below zero.
pub open spec fn lc_step(counts: Seq<usize>, ev: LcEvent) -> Seq<usize> {
    match ev {
        LcEvent::Select => if counts.len() > 0 {
            let i = min_index(counts);
            if counts[i] < usize::MAX {
                counts.update(i, (counts[i] + 1) as usize)
            } else {
                counts
            }
        } else {
            counts
        },
        LcEvent::Complete(i) => if i < counts.len() && counts[i as int] > 0 {
            counts.update(i as int, (counts[i as int] - 1) as usize)
        } else {
            counts
        },
    }
}

/// The in-flight state after a whole sequence of events.
pub open spec fn lc_run(counts: Seq<usize>, evs: Seq<LcEvent>) -> Seq<usize>
    decreases evs.len(),
{
    if evs.len() == 0 {
        counts
    } else {
        lc_run(lc_step(counts, evs.first()), evs.drop_first())
    }
}

/// A well-formed interleaving of selections and completions: every completion
/// names a target with a positive in-flight count at that moment, and no
/// selection happens while a count stands at the machine limit.
pub open spec fn lc_valid_events(counts: Seq<usize>, evs: Seq<LcEvent>) -> bool
    decreases evs.len(),
{
    evs.len() == 0 || {
        &&& match evs.first() {
            LcEvent::Select => counts.len() > 0 && counts[min_index(counts)] < usize::MAX,
            LcEvent::Complete(i) => i < counts.len() && counts[i as int] > 0,
        }
        &&& lc_valid_events(lc_step(counts, evs.first()), evs.drop_first())
    }
}

pub open spec fn lc_n_selects(evs: Seq<LcEvent>) -> int
    decreases evs.len(),
{
    if evs.len() == 0 {
        0
    } else {
        (if evs.first() is Select {
            1int
        } else {
            0int
        }) + lc_n_selects(evs.drop_first())
    }
}

pub open spec fn lc_n_completes(evs: Seq<LcEvent>) -> int
    decreases evs.len(),
{
    if evs.len() == 0 {
        0
    } else {
        (if evs.first() is Complete {
            1int
        } else {
            0int
        }) + lc_n_completes(evs.drop_first())
    }
}

/// The total number of requests in flight: the sum of the per-target counts.
pub open spec fn sum_counts(s: Seq<usize>) -> int
    decreases s.len(),
{
    if s.len() == 0 {
        0
    } else {
        s.first() + sum_counts(s.drop_first())
    }
}

pub proof fn lemma_sum_counts_update(s: Seq<usize>, i: int, v: usize)
    requires
        0 <= i < s.len(),
    ensures
        sum_counts(s.update(i, v)) == sum_counts(s) - s[i] + v,
    decreases s.len(),
{
    if i == 0 {
        assert(s.update(0, v).drop_first() =~= s.drop_first());
    } else {
        assert(s.update(i, v).drop_first() =~= s.drop_first().update(i - 1, v));
        lemma_sum_counts_update(s.drop_first(), i - 1, v);
    }
}

pub proof fn lemma_sum_counts_nonneg(s: Seq<usize>)
    ensures
        sum_counts(s) >= 0,
    decreases s.len(),
{
    if s.len() > 0 {
        lemma_sum_counts_nonneg(s.drop_first());
    }
}

/// A sequence of counts with sum zero is zero everywhere.
pub proof fn lemma_sum_counts_zero(s: Seq<usize>)
    requires
        sum_counts(s) == 0,
    ensures
        forall|i: int| 0 <= i < s.len() ==> s[i] == 0,
    decreases s.len(),
{
    if s.len() > 0 {
        lemma_sum_counts_nonneg(s.drop_first());
        lemma_sum_counts_zero(s.drop_first());
        assert(forall|i: int| 0 <= i < s.len() - 1 ==> s.drop_first()[i] == #[trigger] s[i + 1]);
        assert(s[0] == 0);
        assert forall|i: int| 0 <= i < s.len() implies s[i] == 0 by {
            if i > 0 {
                assert(s.drop_first()[i - 1] == 0);
            }
        }
    }
}

/// No counter leak: over any well-formed interleaving of selections and
/// completions, the total in-flight count moves by exactly the number of
/// selections minus the number of completions observed, and so it can never
/// go below zero.
pub proof fn lemma_no_counter_leak(counts: Seq<usize>, evs: Seq<LcEvent>)
    requires
        lc_valid_events(counts, evs),
    ensures
        sum_counts(lc_run(counts, evs)) == sum_counts(counts) + lc_n_selects(evs) - lc_n_completes(
            evs,
        ),
    decreases evs.len(),
{
    if evs.len() > 0 {
        let ev = evs.first();
        match ev {
            LcEvent::Select => {
                lemma_min_index(counts);
                lemma_sum_counts_update(counts, min_index(counts), (counts[min_index(counts)] + 1) as usize);
            },
            LcEvent::Complete(i) => {
                lemma_sum_counts_update(counts, i as int, (counts[i as int] - 1) as usize);
            },
        }
        lemma_no_counter_leak(lc_step(counts, ev), evs.drop_first());
    }
}

/// Once every outstanding request has been observed complete — as many
/// completions as selections, starting from an idle state — every per-target
/// in-flight count is back at zero.
pub proof fn lemma_counts_return_to_zero(counts: Seq<usize>, evs: Seq<LcEvent>)
    requires
        lc_valid_events(counts, evs),
        lc_n_selects(evs) == lc_n_completes(evs),
        forall|i: int| 0 <= i < counts.len() ==> counts[i] == 0,
    ensures
        forall|i: int| 0 <= i < lc_run(counts, evs).len() ==> lc_run(counts, evs)[i] == 0,
{
    lemma_no_counter_leak(counts, evs);
    assert(sum_counts(counts) == 0) by {
        lemma_sum_counts_all_zero(counts);
    }
    lemma_sum_counts_zero(lc_run(counts, evs));
}

pub proof fn lemma_sum_counts_all_zero(s: Seq<usize>)
    requires
        forall|i: int| 0 <= i < s.len() ==> s[i] == 0,
    ensures
        sum_counts(s) == 0,
    decreases s.len(),
{
    if s.len() > 0 {
        assert(forall|i: int| 0 <= i < s.len() - 1 ==> s.drop_first()[i] == #[trigger] s[i + 1]);
        lemma_sum_counts_all_zero(s.drop_first());
    }
}

/// No port occurs twice: the configured targets form a set.
pub open spec fn ports_distinct(s: Seq<u16>) -> bool {
    forall|i: int, j: int| 0 <= i < j < s.len() ==> s[i] != s[j]
}

/// A run of consecutive selections with no completion in between.
pub open spec fn lc_selects(k: int) -> Seq<LcEvent> {
    Seq::new(k as nat, |i: int| LcEvent::Select)
}

/// The in-flight counts after `m` selections from an equal load of `c`
/// everywhere: the first `m` targets stand at `c + 1`, the rest at `c`.
pub open spec fn lc_equal_shape(n: int, c: usize, m: int) -> Seq<usize> {
    Seq::new(n as nat, |i: int| if i < m { (c + 1) as usize } else { c })
}

proof fn lemma_lc_equal_shape_min(n: int, c: usize, m: int)
    requires
        0 <= m < n,
        c < usize::MAX,
    ensures
        min_index(lc_equal_shape(n, c, m)) == m,
{
    let s = lc_equal_shape(n, c, m);
    lemma_min_index(s);
    let mi = min_index(s);
    if mi < m {
        assert(s[mi] <= s[m]);
        assert(false);
    }
    if mi > m {
        assert(s[m] > s[mi]);
        assert(false);
    }
}

proof fn lemma_lc_equal_shape_step(n: int, c: usize, m: int)
    requires
        0 <= m < n,
        c < usize::MAX,
    ensures
        lc_step(lc_equal_shape(n, c, m), LcEvent::Select) == lc_equal_shape(n, c, m + 1),
{
    lemma_lc_equal_shape_min(n, c, m);
    assert(lc_step(lc_equal_shape(n, c, m), LcEvent::Select) =~= lc_equal_shape(n, c, m + 1));
}

proof fn lemma_lc_equal_shape_run(n: int, c: usize, m: int, k: int)
    requires
        0 <= m,
        0 <= k,
        m + k <= n,
        c < usize::MAX,
    ensures
        lc_run(lc_equal_shape(n, c, m), lc_selects(k)) == lc_equal_shape(n, c, m + k),
    decreases k,
{
    if k > 0 {
        assert(lc_selects(k).first() is Select);
        assert(lc_selects(k).drop_first() =~= lc_selects(k - 1));
        lemma_lc_equal_shape_step(n, c, m);
        lemma_lc_equal_shape_run(n, c, m + 1, k - 1);
    }
}

/// Least-connections round: from an equal load everywhere, consecutive
/// selections with no completion in between pick index 0, then 1, and so on
/// — ties always break in configured order — so as many consecutive
/// selections as there are targets serve every configured target exactly
/// once, in configured order.
pub proof fn lemma_least_connections_round(counts: Seq<usize>, c: usize, k: int)
    requires
        counts.len() > 0,
        c < usize::MAX,
        forall|i: int| 0 <= i < counts.len() ==> counts[i] == c,
        0 <= k < counts.len(),
    ensures
        lc_run(counts, lc_selects(k)) == lc_equal_shape(counts.len() as int, c, k),
        min_index(lc_run(counts, lc_selects(k))) == k,
{
    let n = counts.len() as int;
    assert(counts =~= lc_equal_shape(n, c, 0));
    lemma_lc_equal_shape_run(n, c, 0, k);
    lemma_lc_equal_shape_min(n, c, k);
}

/// Tracks, per target in configured order, how many selected requests are
/// still in flight, and serves the first least-loaded target.
pub struct LeastConnectionsBalancer {
    pub backends: Vec<u16>,
    pub active: Vec<usize>,
}

impl LeastConnectionsBalancer {
    pub fn new(backends: Vec<u16>) -> (r: Self)
        requires
            ports_distinct(backends@),
        ensures
            r.wf(),
            r.targets() == backends@,
            r.active@.len() == backends@.len(),
            forall|i: int| 0 <= i < r.active@.len() ==> r.active@[i] == 0,
    {
        let n = backends.len();
        let mut active: Vec<usize> = Vec::new();
        let mut j: usize = 0;
        while j < n
            invariant
                j <= n,
                active@.len() == j,
                forall|i: int| 0 <= i < j ==> active@[i] == 0,
            decreases n - j,
        {
            active.push(0);
            j = j + 1;
        }
        LeastConnectionsBalancer { backends, active }
    }
}

impl LoadBalancer for LeastConnectionsBalancer {
    open spec fn targets(&self) -> Seq<u16> {
        self.backends@
    }

    open spec fn wf(&self) -> bool {
        &&& self.active@.len() == self.backends@.len()
        &&& ports_distinct(self.backends@)
    }

    open spec fn select_ens(&self, post: &Self, port: u16) -> bool {
        &&& port == self.backends@[min_index(self.active@)]
        &&& post.active@ == lc_step(self.active@, LcEvent::Select)
    }

    open spec fn complete_ens(&self, post: &Self, backend: u16) -> bool {
        if self.backends@.contains(backend) {
            post.active@ == lc_step(
                self.active@,
                LcEvent::Complete(first_index_of(self.backends@, backend) as usize),
            )
        } else {
            post.active@ == self.active@
        }
    }

    fn select_backend(&mut self) -> (port: u16) {
        let n = self.backends.len();
        let mut best: usize = 0;
        let mut j: usize = 1;
        while j < n
            invariant
                self == old(self),
                n == self.backends@.len(),
                self.active@.len() == n,
                0 < n,
                1 <= j <= n,
                best < j,
                best == min_index(self.active@.take(j as int)),
            decreases n - j,
        {
            proof {
                assert(self.active@.take(j + 1).drop_last() =~= self.active@.take(j as int));
                assert(self.active@.take(j + 1).last() == self.active@[j as int]);
                lemma_min_index(self.active@.take(j as int));
            }
            if self.active[j] < self.active[best] {
                best = j;
            }
            j = j + 1;
        }
        proof {
            assert(self.active@.take(n as int) =~= self.active@);
            lemma_min_index(self.active@);
        }
        let port = self.backends[best];
        let c = self.active[best];
        if c < usize::MAX {
            self.active[best] = c + 1;
        }
        port
    }

    fn on_request_complete(&mut self, backend: u16) {
        let n = self.backends.len();
        let mut j: usize = 0;
        proof {
            lemma_first_index_of(self.backends@, backend);
        }
        while j < n
            invariant
                self == old(self),
                n == self.backends@.len(),
                self.active@.len() == n,
                ports_distinct(self.backends@),
                j <= n,
                forall|i: int| 0 <= i < j ==> self.backends@[i] != backend,
            decreases n - j,
        {
            if self.backends[j] == backend {
                proof {
                    lemma_first_index_of(self.backends@, backend);
                    assert(self.backends@[j as int] == backend);
                    assert(first_index_of(self.backends@, backend) == j);
                }
                let c = self.active[j];
                if c > 0 {
                    self.active[j] = c - 1;
                }
                return;
            }
            j = j + 1;
        }
        proof {
            lemma_first_index_of(self.backends@, backend);
            assert(!self.backends@.contains(backend));
        }
    }
}

} // verus!
