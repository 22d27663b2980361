use vstd::prelude::*;
use crate::load_balancer::LoadBalancer;

verus! {

/// The count recorded for `port`: the count of its entry, or zero when no
/// entry for `port` exists.
pub open spec fn seq_count_of(s: Seq<(u16, usize)>, port: u16) -> int
    decreases s.len(),
{
    if s.len() == 0 {
        0
    } else if s.first().0 == port {
        s.first().1 as int
    } else {
        seq_count_of(s.drop_first(), port)
    }
}

/// The total over all per-target counts.
pub open spec fn sum_entry_counts(s: Seq<(u16, usize)>) -> int
    decreases s.len(),
{
    if s.len() == 0 {
        0
    } else {
        s.first().1 + sum_entry_counts(s.drop_first())
    }
}

/// Entries sorted strictly ascending by port, so each port occurs at most
/// once and a report walks them in ascending order.
pub open spec fn entries_sorted(s: Seq<(u16, usize)>) -> bool {
    forall|i: int, j: int| 0 <= i < j < s.len() ==> s[i].0 < s[j].0
}

/// The share of the total going to a count, in tenths of a percent,
/// rounded down; zero when nothing has been recorded at all.
pub open spec fn percentage_permille(count: int, total: int) -> int {
    if total > 0 {
        count * 1000 / total
    } else {
        0
    }
}

proof fn lemma_sum_entry_counts_update(s: Seq<(u16, usize)>, j: int, e: (u16, usize))
    requires
        0 <= j < s.len(),
    ensures
        sum_entry_counts(s.update(j, e)) == sum_entry_counts(s) - s[j].1 + e.1,
    decreases s.len(),
{
    if j == 0 {
        assert(s.update(0, e).drop_first() =~= s.drop_first());
    } else {
        assert(s.update(j, e).drop_first() =~= s.drop_first().update(j - 1, e));
        lemma_sum_entry_counts_update(s.drop_first(), j - 1, e);
    }
}

proof fn lemma_sum_entry_counts_insert(s: Seq<(u16, usize)>, j: int, e: (u16, usize))
    requires
        0 <= j <= s.len(),
    ensures
        sum_entry_counts(s.insert(j, e)) == sum_entry_counts(s) + e.1,
    decreases s.len(),
{
    if j == 0 {
        assert(s.insert(0, e).drop_first() =~= s);
    } else {
        assert(s.insert(j, e).drop_first() =~= s.drop_first().insert(j - 1, e));
        lemma_sum_entry_counts_insert(s.drop_first(), j - 1, e);
    }
}

/// Every single count is at most the total.
proof fn lemma_entry_le_sum(s: Seq<(u16, usize)>, i: int)
    requires
        0 <= i < s.len(),
    ensures
        s[i].1 <= sum_entry_counts(s),
    decreases s.len(),
{
    if i == 0 {
        lemma_sum_entry_counts_nonneg(s.drop_first());
    } else {
        lemma_entry_le_sum(s.drop_first(), i - 1);
        assert(s.drop_first()[i - 1] == s[i]);
    }
}

proof fn lemma_sum_entry_counts_nonneg(s: Seq<(u16, usize)>)
    ensures
        sum_entry_counts(s) >= 0,
    decreases s.len(),
{
    if s.len() > 0 {
        lemma_sum_entry_counts_nonneg(s.drop_first());
    }
}

/// The count recorded at the first entry for a port is the count of that
/// port.
proof fn lemma_count_of_at(s: Seq<(u16, usize)>, j: int)
    requires
        0 <= j < s.len(),
        forall|i: int| 0 <= i < j ==> s[i].0 != s[j].0,
    ensures
        seq_count_of(s, s[j].0) == s[j].1,
    decreases s.len(),
{
    if j > 0 {
        lemma_count_of_at(s.drop_first(), j - 1);
        assert(forall|i: int| 0 <= i < j - 1 ==> s.drop_first()[i] == #[trigger] s[i + 1]);
        assert(s.drop_first()[j - 1] == s[j]);
    }
}

proof fn lemma_count_of_update(s: Seq<(u16, usize)>, j: int, e: (u16, usize), q: u16)
    requires
        0 <= j < s.len(),
        e.0 == s[j].0,
        forall|i: int| 0 <= i < j ==> s[i].0 != s[j].0,
    ensures
        seq_count_of(s.update(j, e), e.0) == e.1,
        q != e.0 ==> seq_count_of(s.update(j, e), q) == seq_count_of(s, q),
    decreases s.len(),
{
    if j == 0 {
        assert(s.update(0, e).drop_first() =~= s.drop_first());
    } else {
        assert(s.update(j, e).drop_first() =~= s.drop_first().update(j - 1, e));
        assert(forall|i: int| 0 <= i < j - 1 ==> s.drop_first()[i] == #[trigger] s[i + 1]);
        assert(s.drop_first()[j - 1] == s[j]);
        lemma_count_of_update(s.drop_first(), j - 1, e, q);
    }
}

/// A port occurs among the stored entries.
pub open spec fn has_port(s: Seq<(u16, usize)>, port: u16) -> bool
    decreases s.len(),
{
    s.len() > 0 && (s.first().0 == port || has_port(s.drop_first(), port))
}

/// `has_port` holds exactly where an entry with that port exists.
proof fn lemma_has_port_index(s: Seq<(u16, usize)>, q: u16)
    ensures
        has_port(s, q) <==> exists|i: int| 0 <= i < s.len() && (#[trigger] s[i]).0 == q,
    decreases s.len(),
{
    if s.len() > 0 {
        lemma_has_port_index(s.drop_first(), q);
        if has_port(s, q) {
            if s.first().0 == q {
                assert(s[0].0 == q);
            } else {
                let w = choose|w: int|
                    0 <= w < s.drop_first().len() && (#[trigger] s.drop_first()[w]).0 == q;
                assert(s[w + 1].0 == q);
            }
        }
        if exists|i: int| 0 <= i < s.len() && (#[trigger] s[i]).0 == q {
            let w = choose|w: int| 0 <= w < s.len() && (#[trigger] s[w]).0 == q;
            if w > 0 {
                assert(s.drop_first()[w - 1].0 == q);
            }
        }
    }
}

proof fn lemma_has_port_insert(s: Seq<(u16, usize)>, j: int, e: (u16, usize), q: u16)
    requires
        0 <= j <= s.len(),
    ensures
        has_port(s.insert(j, e), q) <==> (q == e.0 || has_port(s, q)),
    decreases s.len(),
{
    if j == 0 {
        assert(s.insert(0, e).drop_first() =~= s);
        assert(s.insert(0, e).first() == e);
    } else {
        assert(s.insert(j, e).drop_first() =~= s.drop_first().insert(j - 1, e));
        assert(s.insert(j, e).first() == s.first());
        lemma_has_port_insert(s.drop_first(), j - 1, e, q);
    }
}

/// When every stored count is zero, every port's count is zero.
proof fn lemma_count_of_all_zero(s: Seq<(u16, usize)>, q: u16)
    requires
        forall|i: int| 0 <= i < s.len() ==> (#[trigger] s[i]).1 == 0,
    ensures
        seq_count_of(s, q) == 0,
    decreases s.len(),
{
    if s.len() > 0 {
        assert(forall|i: int| 0 <= i < s.len() - 1 ==> s.drop_first()[i] == #[trigger] s[i + 1]);
        lemma_count_of_all_zero(s.drop_first(), q);
    }
}

/// A prefix one longer holds one more port.
proof fn lemma_take_push_contains(s: Seq<u16>, k: int, p: u16)
    requires
        0 <= k < s.len(),
    ensures
        s.take(k + 1).contains(p) <==> (p == s[k] || s.take(k).contains(p)),
{
    if s.take(k + 1).contains(p) {
        let w = choose|w: int| 0 <= w < k + 1 && #[trigger] s.take(k + 1)[w] == p;
        if w < k {
            assert(s.take(k)[w] == p);
        }
    }
    if s.take(k).contains(p) {
        let w = choose|w: int| 0 <= w < k && #[trigger] s.take(k)[w] == p;
        assert(s.take(k + 1)[w] == p);
    }
    if p == s[k] {
        assert(s.take(k + 1)[k] == p);
    }
}

/// Cumulative request counts per target, with a running total that always
/// equals the sum of the per-target counts.
pub struct Metrics {
    pub entries: Vec<(u16, usize)>,
    pub total: usize,
}

impl Metrics {
    /// The count recorded so far for a port (zero when none was recorded).
    pub open spec fn count_of(&self, port: u16) -> int {
        seq_count_of(self.entries@, port)
    }

    /// The port is one of the configured targets this aggregator tracks.
    pub open spec fn tracks(&self, port: u16) -> bool {
        has_port(self.entries@, port)
    }

    pub open spec fn wf(&self) -> bool {
        &&& entries_sorted(self.entries@)
        &&& self.total == sum_entry_counts(self.entries@)
    }

    /// Create the aggregator from the configured target set: one zero-count
    /// row per configured port, ascending by port, so that a report names
    /// every configured target from the start.
    pub fn new(backends: Vec<u16>) -> (r: Self)
        ensures
            r.wf(),
            r.total == 0,
            forall|p: u16| r.tracks(p) <==> backends@.contains(p),
            forall|p: u16| r.count_of(p) == 0,
    {
        let mut entries: Vec<(u16, usize)> = Vec::new();
        let mut k: usize = 0;
        while k < backends.len()
            invariant
                k <= backends.len(),
                entries_sorted(entries@),
                sum_entry_counts(entries@) == 0,
                forall|i: int| 0 <= i < entries@.len() ==> (#[trigger] entries@[i]).1 == 0,
                forall|p: u16| has_port(entries@, p) <==> backends@.take(k as int).contains(p),
            decreases backends.len() - k,
        {
            let port = backends[k];
            let n = entries.len();
            let mut j: usize = 0;
            while j < n && entries[j].0 < port
                invariant
                    n == entries@.len(),
                    j <= n,
                    entries_sorted(entries@),
                    forall|i: int| 0 <= i < j ==> (#[trigger] entries@[i]).0 < port,
                decreases n - j,
            {
                j = j + 1;
            }
            let ghost pre = entries@;
            if j < n && entries[j].0 == port {
                proof {
                    lemma_has_port_index(entries@, port);
                    assert forall|p: u16|
                        has_port(entries@, p) <==> #[trigger] backends@.take(
                            k + 1,
                        ).contains(p) by {
                        lemma_take_push_contains(backends@, k as int, p);
                    }
                }
            } else {
                proof {
                    assert(forall|i: int|
                        j <= i < n ==> entries@[j as int].0 <= (#[trigger] entries@[i]).0);
                }
                entries.insert(j, (port, 0));
                proof {
                    lemma_sum_entry_counts_insert(pre, j as int, (port, 0usize));
                    assert forall|p: u16|
                        has_port(entries@, p) <==> #[trigger] backends@.take(
                            k + 1,
                        ).contains(p) by {
                        lemma_has_port_insert(pre, j as int, (port, 0usize), p);
                        lemma_take_push_contains(backends@, k as int, p);
                    }
                }
            }
            k = k + 1;
        }
        proof {
            assert(backends@.take(backends@.len() as int) =~= backends@);
            assert forall|p: u16| seq_count_of(entries@, p) == 0 by {
                lemma_count_of_all_zero(entries@, p);
            }
        }
        Metrics { entries, total: 0 }
    }

    /// Record one routing decision for `backend_port`, which must be one of
    /// the tracked targets: its count and the total each grow by one, no
    /// other target's count moves, and the stored rows keep their ports.
    pub fn record_request(&mut self, backend_port: u16)
        requires
            old(self).wf(),
            old(self).tracks(backend_port),
            old(self).total < usize::MAX,
        ensures
            final(self).wf(),
            final(self).total == old(self).total + 1,
            final(self).count_of(backend_port) == old(self).count_of(backend_port) + 1,
            forall|q: u16| q != backend_port ==> final(self).count_of(q) == old(self).count_of(q),
            final(self).entries@.len() == old(self).entries@.len(),
            forall|i: int|
                0 <= i < final(self).entries@.len() ==> (#[trigger] final(self).entries@[i]).0
                    == old(self).entries@[i].0,
            forall|q: u16| final(self).tracks(q) <==> old(self).tracks(q),
    {
        let n = self.entries.len();
        let mut j: usize = 0;
        while j < n
            invariant
                self == old(self),
                self.wf(),
                self.total < usize::MAX,
                n == self.entries@.len(),
                j <= n,
                forall|i: int| 0 <= i < j ==> (#[trigger] self.entries@[i]).0 != backend_port,
            decreases n - j,
        {
            if self.entries[j].0 == backend_port {
                let c = self.entries[j].1;
                proof {
                    lemma_entry_le_sum(self.entries@, j as int);
                    lemma_count_of_at(self.entries@, j as int);
                }
                self.entries[j] = (backend_port, c + 1);
                self.total = self.total + 1;
                proof {
                    lemma_sum_entry_counts_update(
                        old(self).entries@,
                        j as int,
                        (backend_port, (c + 1) as usize),
                    );
                    assert forall|q: u16| true implies {
                        &&& seq_count_of(self.entries@, backend_port) == c + 1
                        &&& (q != backend_port ==> seq_count_of(self.entries@, q) == seq_count_of(
                            old(self).entries@,
                            q,
                        ))
                    } by {
                        lemma_count_of_update(
                            old(self).entries@,
                            j as int,
                            (backend_port, (c + 1) as usize),
                            q,
                        );
                    }
                    assert(forall|i: int|
                        0 <= i < self.entries@.len() ==> (#[trigger] self.entries@[i]).0 == old(
                            self,
                        ).entries@[i].0);
                    assert forall|q: u16|
                        has_port(self.entries@, q) <==> has_port(old(self).entries@, q) by {
                        lemma_has_port_index(self.entries@, q);
                        lemma_has_port_index(old(self).entries@, q);
                        if has_port(self.entries@, q) {
                            let w = choose|w: int|
                                0 <= w < self.entries@.len() && (#[trigger] self.entries@[w]).0
                                    == q;
                            assert(old(self).entries@[w].0 == q);
                        }
                        if has_port(old(self).entries@, q) {
                            let w = choose|w: int|
                                0 <= w < old(self).entries@.len() && (#[trigger] old(
                                    self,
                                ).entries@[w]).0 == q;
                            assert(self.entries@[w].0 == q);
                        }
                    }
                }
                return;
            }
            j = j + 1;
        }
        proof {
            // the port is tracked, so the scan cannot run off the end
            lemma_has_port_index(old(self).entries@, backend_port);
            assert(false);
        }
    }
}

impl Metrics {
    /// Snapshot for reporting: one row per target that has served requests,
    /// ascending by port, each row carrying the port, its count, and its
    /// share of the total in tenths of a percent (zero when the total is
    /// zero).
    pub fn report(&self) -> (r: Vec<(u16, usize, usize)>)
        requires
            self.wf(),
        ensures
            r@.len() == self.entries@.len(),
            forall|i: int|
                0 <= i < r@.len() ==> {
                    &&& (#[trigger] r@.index(i)).0 == self.entries@[i].0
                    &&& r@.index(i).1 == self.entries@[i].1
                    &&& r@.index(i).2 as int == percentage_permille(
                        self.entries@[i].1 as int,
                        self.total as int,
                    )
                },
    {
        let n = self.entries.len();
        let mut r: Vec<(u16, usize, usize)> = Vec::new();
        let mut j: usize = 0;
        while j < n
            invariant
                self.wf(),
                n == self.entries@.len(),
                j <= n,
                r@.len() == j,
                forall|i: int|
                    0 <= i < j ==> {
                        &&& (#[trigger] r@.index(i)).0 == self.entries@[i].0
                        &&& r@.index(i).1 == self.entries@[i].1
                        &&& r@.index(i).2 as int == percentage_permille(
                            self.entries@[i].1 as int,
                            self.total as int,
                        )
                    },
            decreases n - j,
        {
            let (port, count) = self.entries[j];
            let permille: usize = if self.total > 0 {
                proof {
                    lemma_entry_le_sum(self.entries@, j as int);
                    lemma_permille_le_1000(count as int, self.total as int);
                }
                ((count as u128 * 1000) / self.total as u128) as usize
            } else {
                0
            };
            r.push((port, count, permille));
            j = j + 1;
        }
        r
    }
}

/// A count never exceeding the total claims at most the whole: its share in
/// tenths of a percent is at most a thousand.
proof fn lemma_permille_le_1000(count: int, total: int)
    requires
        0 <= count <= total,
        0 < total,
    ensures
        0 <= count * 1000 / total <= 1000,
{
    vstd::arithmetic::div_mod::lemma_div_pos_is_pos(count * 1000, total);
    assert(count * 1000 <= total * 1000) by (nonlinear_arith)
        requires
            0 <= count <= total,
    ;
    vstd::arithmetic::div_mod::lemma_div_is_ordered(count * 1000, total * 1000, total);
    vstd::arithmetic::div_mod::lemma_div_by_multiple(1000, total);
    assert(total * 1000 == 1000 * total) by (nonlinear_arith);
}

/// The reported shares, in tenths of a percent, summed over all entries.
pub open spec fn sum_permilles(s: Seq<(u16, usize)>, total: int) -> int
    decreases s.len(),
{
    if s.len() == 0 {
        0
    } else {
        percentage_permille(s.first().1 as int, total) + sum_permilles(s.drop_first(), total)
    }
}

/// Division by a positive total loses less than one unit per term.
proof fn lemma_div_sum_bounds(a: int, b: int, t: int)
    requires
        a >= 0,
        b >= 0,
        t > 0,
    ensures
        a / t + b / t <= (a + b) / t,
        (a + b) / t <= a / t + b / t + 1,
{
    let qa = a / t;
    let ra = a % t;
    let qb = b / t;
    let rb = b % t;
    vstd::arithmetic::div_mod::lemma_fundamental_div_mod(a, t);
    vstd::arithmetic::div_mod::lemma_fundamental_div_mod(b, t);
    vstd::arithmetic::div_mod::lemma_mod_bound(a, t);
    vstd::arithmetic::div_mod::lemma_mod_bound(b, t);
    assert(a + b == (qa + qb) * t + (ra + rb)) by (nonlinear_arith)
        requires
            a == t * qa + ra,
            b == t * qb + rb,
    ;
    if ra + rb < t {
        vstd::arithmetic::div_mod::lemma_fundamental_div_mod_converse_div(
            a + b,
            t,
            qa + qb,
            ra + rb,
        );
    } else {
        assert(a + b == (qa + qb + 1) * t + (ra + rb - t)) by (nonlinear_arith)
            requires
                a + b == (qa + qb) * t + (ra + rb),
    ;
        vstd::arithmetic::div_mod::lemma_fundamental_div_mod_converse_div(
            a + b,
            t,
            qa + qb + 1,
            ra + rb - t,
        );
    }
}

proof fn lemma_sum_permilles_bounds(s: Seq<(u16, usize)>, total: int)
    requires
        total > 0,
    ensures
        sum_permilles(s, total) <= sum_entry_counts(s) * 1000 / total,
        sum_entry_counts(s) * 1000 / total <= sum_permilles(s, total) + s.len(),
    decreases s.len(),
{
    if s.len() == 0 {
        assert(0int * 1000 == 0) by (nonlinear_arith);
        vstd::arithmetic::div_mod::lemma_div_of0(total);
    } else {
        let c0 = s.first().1 as int;
        let rest = sum_entry_counts(s.drop_first());
        lemma_sum_permilles_bounds(s.drop_first(), total);
        lemma_sum_entry_counts_nonneg(s.drop_first());
        assert((c0 + rest) * 1000 == c0 * 1000 + rest * 1000) by (nonlinear_arith);
        assert(c0 * 1000 >= 0 && rest * 1000 >= 0) by (nonlinear_arith)
            requires
                c0 >= 0,
                rest >= 0,
        ;
        lemma_div_sum_bounds(c0 * 1000, rest * 1000, total);
    }
}

/// Metrics consistency for the reported shares: whenever anything has been
/// recorded, the shares of the total, in tenths of a percent, sum to a
/// thousand up to rounding — at most one unit is lost per reported row.
pub proof fn lemma_percentages_sum(m: Metrics)
    requires
        m.wf(),
        m.total > 0,
    ensures
        1000 - m.entries@.len() <= sum_permilles(m.entries@, m.total as int) <= 1000,
{
    lemma_sum_permilles_bounds(m.entries@, m.total as int);
    vstd::arithmetic::div_mod::lemma_div_by_multiple(1000, m.total as int);
    assert(m.total as int * 1000 == 1000 * m.total as int) by (nonlinear_arith);
}

/// The routing decision for one inbound request: the chosen target and the
/// method and path to send it, preserved from the inbound request.
pub struct ForwardPlan {
    pub backend_port: u16,
    pub method: String,
    pub path: String,
}

/// Decide where one inbound request goes and record the decision: ask the
/// policy for a target, count the decision against that target, and forward
/// the inbound method and path unchanged. The decision is recorded whatever
/// the later forwarding outcome, since it counts routing decisions made.
pub fn plan_request<L: LoadBalancer>(
    lb: &mut L,
    metrics: &mut Metrics,
    method: String,
    path: String,
) -> (plan: ForwardPlan)
    requires
        old(lb).wf(),
        old(lb).targets().len() > 0,
        old(metrics).wf(),
        old(metrics).total < usize::MAX,
        forall|p: u16| old(lb).targets().contains(p) ==> old(metrics).tracks(p),
    ensures
        final(lb).wf(),
        final(lb).targets() == old(lb).targets(),
        old(lb).targets().contains(plan.backend_port),
        old(lb).select_ens(final(lb), plan.backend_port),
        plan.method@ == method@,
        plan.path@ == path@,
        final(metrics).wf(),
        final(metrics).total == old(metrics).total + 1,
        final(metrics).count_of(plan.backend_port) == old(metrics).count_of(plan.backend_port)
            + 1,
        forall|q: u16|
            q != plan.backend_port ==> final(metrics).count_of(q) == old(metrics).count_of(q),
        forall|q: u16| final(metrics).tracks(q) <==> old(metrics).tracks(q),
{
    let backend_port = lb.select_backend();
    metrics.record_request(backend_port);
    ForwardPlan { backend_port, method, path }
}

} // verus!
