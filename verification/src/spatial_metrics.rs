//! Telemetry counters for spatial entity queries.
use vstd::prelude::*;

verus! {

/// Who asked a spatial query.
#[derive(Debug, Clone, Copy, PartialEq, Eq, Structural, Hash)]
pub enum QueryCaller {
    ItemMerge,
    PushCollision,
    Projectile,
    Explosion,
    BlockInteraction,
    EntitySelector,
    VillagerAi,
    Other,
}

impl QueryCaller {
    /// How many callers are told apart.
    pub const COUNT: usize = 8;

    /// The place of the caller among the per-caller counters.
    pub open spec fn place(self) -> int {
        match self {
            QueryCaller::ItemMerge => 0,
            QueryCaller::PushCollision => 1,
            QueryCaller::Projectile => 2,
            QueryCaller::Explosion => 3,
            QueryCaller::BlockInteraction => 4,
            QueryCaller::EntitySelector => 5,
            QueryCaller::VillagerAi => 6,
            QueryCaller::Other => 7,
        }
    }

    /// The place of the caller among the per-caller counters.
    pub fn index(self) -> (i: usize)
        ensures
            i == self.place(),
            i < QueryCaller::COUNT,
    {
        match self {
            QueryCaller::ItemMerge => 0,
            QueryCaller::PushCollision => 1,
            QueryCaller::Projectile => 2,
            QueryCaller::Explosion => 3,
            QueryCaller::BlockInteraction => 4,
            QueryCaller::EntitySelector => 5,
            QueryCaller::VillagerAi => 6,
            QueryCaller::Other => 7,
        }
    }
}

/// What shape of query was asked.
#[derive(Debug, Clone, Copy, PartialEq, Eq, Structural)]
pub enum QueryKind {
    Aabb,
    Sphere,
    PredicateScan,
}

/// A 64-bit counter after it was raised: counters wrap around.
pub open spec fn raised(counter: u64, by: int) -> u64 {
    ((counter + by) % 0x1_0000_0000_0000_0000) as u64
}

/// The counters of one caller.
#[derive(Debug, Clone, Copy, PartialEq, Eq, Structural)]
pub struct CallerSnapshot {
    pub query_count: u64,
    pub entities_examined: u64,
    pub candidates_returned: u64,
    pub total_duration_ns: u64,
}

impl CallerSnapshot {
    /// All counters at zero.
    pub open spec fn zero() -> CallerSnapshot {
        CallerSnapshot {
            query_count: 0,
            entities_examined: 0,
            candidates_returned: 0,
            total_duration_ns: 0,
        }
    }

    /// The counters after one more query.
    pub open spec fn recorded(self, examined: int, returned: int, duration_ns: int) -> CallerSnapshot {
        CallerSnapshot {
            query_count: raised(self.query_count, 1),
            entities_examined: raised(self.entities_examined, examined),
            candidates_returned: raised(self.candidates_returned, returned),
            total_duration_ns: raised(self.total_duration_ns, duration_ns),
        }
    }
}

impl Default for CallerSnapshot {
    fn default() -> (s: CallerSnapshot)
        ensures
            s == CallerSnapshot::zero(),
    {
        CallerSnapshot {
            query_count: 0,
            entities_examined: 0,
            candidates_returned: 0,
            total_duration_ns: 0,
        }
    }
}

/// A summary of all counters at one moment.
#[derive(Debug, Clone, Copy)]
pub struct SpatialMetricsSnapshot {
    pub total_queries: u64,
    pub total_entities_examined: u64,
    pub total_candidates_returned: u64,
    pub total_duration_ns: u64,
    pub aabb_queries: u64,
    pub sphere_queries: u64,
    pub predicate_queries: u64,
    pub callers: [CallerSnapshot; 8],
}

/// Baseline telemetry metrics for spatial entity queries.
///
/// Records query volume, examined entities count vs. returned candidates, total
/// duration spent in broad entity scans, and caller classification.
#[derive(Debug)]
pub struct SpatialMetrics {
    pub total_queries: u64,
    pub total_entities_examined: u64,
    pub total_candidates_returned: u64,
    pub total_duration_ns: u64,
    pub aabb_queries: u64,
    pub sphere_queries: u64,
    pub predicate_queries: u64,
    pub caller_metrics: [CallerSnapshot; 8],
}

/// The eight caller counters at zero.
fn zero_callers() -> (callers: [CallerSnapshot; 8])
    ensures
        forall|i: int| 0 <= i < 8 ==> #[trigger] callers@[i] == CallerSnapshot::zero(),
{
    let zero = CallerSnapshot::default();
    [zero, zero, zero, zero, zero, zero, zero, zero]
}

impl SpatialMetrics {
    /// The counters of each caller, in the order of `QueryCaller::place`.
    pub open spec fn callers(&self) -> Seq<CallerSnapshot> {
        self.caller_metrics@
    }

    /// Every counter is at zero.
    pub open spec fn is_zero(&self) -> bool {
        &&& self.total_queries == 0
        &&& self.total_entities_examined == 0
        &&& self.total_candidates_returned == 0
        &&& self.total_duration_ns == 0
        &&& self.aabb_queries == 0
        &&& self.sphere_queries == 0
        &&& self.predicate_queries == 0
        &&& self.callers().len() == 8
        &&& forall|i: int| 0 <= i < 8 ==> #[trigger] self.callers()[i] == CallerSnapshot::zero()
    }

    /// Only the number of queries has gone up, by one.
    pub open spec fn counts_one_more_than(&self, before: SpatialMetrics) -> bool {
        &&& self.total_queries == raised(before.total_queries, 1)
        &&& self.total_entities_examined == before.total_entities_examined
        &&& self.total_candidates_returned == before.total_candidates_returned
        &&& self.total_duration_ns == before.total_duration_ns
        &&& self.aabb_queries == before.aabb_queries
        &&& self.sphere_queries == before.sphere_queries
        &&& self.predicate_queries == before.predicate_queries
        &&& self.callers() == before.callers()
    }

    /// The counters of `before` after one more query.
    pub open spec fn records(
        &self,
        before: SpatialMetrics,
        caller: QueryCaller,
        kind: QueryKind,
        examined: int,
        returned: int,
        duration_ns: int,
    ) -> bool {
        &&& self.total_queries == raised(before.total_queries, 1)
        &&& self.total_entities_examined == raised(before.total_entities_examined, examined)
        &&& self.total_candidates_returned == raised(before.total_candidates_returned, returned)
        &&& self.total_duration_ns == raised(before.total_duration_ns, duration_ns)
        &&& self.aabb_queries == raised(
            before.aabb_queries,
            if kind == QueryKind::Aabb { 1 } else { 0 },
        )
        &&& self.sphere_queries == raised(
            before.sphere_queries,
            if kind == QueryKind::Sphere { 1 } else { 0 },
        )
        &&& self.predicate_queries == raised(
            before.predicate_queries,
            if kind == QueryKind::PredicateScan { 1 } else { 0 },
        )
        &&& self.callers() == before.callers().update(
            caller.place(),
            before.callers()[caller.place()].recorded(examined, returned, duration_ns),
        )
    }

    /// The total, the kinds and the callers count the same queries, and every other
    /// total is the sum of its share of each caller.
    pub open spec fn balanced(&self) -> bool {
        &&& self.total_queries == self.aabb_queries + self.sphere_queries + self.predicate_queries
        &&& self.total_queries == sum_of(self.callers(), queries_part())
        &&& self.total_entities_examined == sum_of(self.callers(), examined_part())
        &&& self.total_candidates_returned == sum_of(self.callers(), returned_part())
        &&& self.total_duration_ns == sum_of(self.callers(), duration_part())
    }

    /// Counters at zero.
    pub fn new() -> (m: SpatialMetrics)
        ensures
            m.is_zero(),
            m.total_queries == 0,
            m.total_entities_examined == 0,
            m.total_candidates_returned == 0,
            m.total_duration_ns == 0,
            m.aabb_queries == 0,
            m.sphere_queries == 0,
            m.predicate_queries == 0,
    {
        SpatialMetrics::default()
    }

    /// Count a query of which nothing else is recorded.
    pub fn count_query(&mut self)
        ensures
            final(self).counts_one_more_than(*old(self)),
            final(self).total_queries == (old(self).total_queries + 1) % 0x1_0000_0000_0000_0000,
            final(self).total_entities_examined == old(self).total_entities_examined,
            final(self).callers() == old(self).callers(),
    {
        self.total_queries = self.total_queries.wrapping_add(1);
    }

    /// Record the completion of a spatial query.
    pub fn record_query(
        &mut self,
        caller: QueryCaller,
        kind: QueryKind,
        examined: usize,
        returned: usize,
        duration_ns: u64,
    )
        ensures
            final(self).records(
                *old(self),
                caller,
                kind,
                examined as int,
                returned as int,
                duration_ns as int,
            ),
            final(self).total_queries == (old(self).total_queries + 1) % 0x1_0000_0000_0000_0000,
            final(self).total_entities_examined == (old(self).total_entities_examined + examined)
                % 0x1_0000_0000_0000_0000,
            final(self).total_candidates_returned == (old(self).total_candidates_returned
                + returned) % 0x1_0000_0000_0000_0000,
            final(self).total_duration_ns == (old(self).total_duration_ns + duration_ns)
                % 0x1_0000_0000_0000_0000,
            kind == QueryKind::Aabb ==> final(self).aabb_queries == (old(self).aabb_queries + 1)
                % 0x1_0000_0000_0000_0000,
            kind != QueryKind::Aabb ==> final(self).aabb_queries == old(self).aabb_queries,
            kind == QueryKind::Sphere ==> final(self).sphere_queries == (old(self).sphere_queries
                + 1) % 0x1_0000_0000_0000_0000,
            kind != QueryKind::Sphere ==> final(self).sphere_queries == old(self).sphere_queries,
            kind == QueryKind::PredicateScan
                ==> final(self).predicate_queries == (old(self).predicate_queries
                + 1) % 0x1_0000_0000_0000_0000,
            kind != QueryKind::PredicateScan
                ==> final(self).predicate_queries == old(self).predicate_queries,
            forall|i: int|
                0 <= i < 8 && i != caller.place()
                    ==> #[trigger] final(self).callers()[i] == old(self).callers()[i],
            final(self).callers()[caller.place()].query_count
                == (old(self).callers()[caller.place()].query_count + 1) % 0x1_0000_0000_0000_0000,
            final(self).callers()[caller.place()].entities_examined
                == (old(self).callers()[caller.place()].entities_examined + examined)
                % 0x1_0000_0000_0000_0000,
            final(self).callers()[caller.place()].candidates_returned
                == (old(self).callers()[caller.place()].candidates_returned + returned)
                % 0x1_0000_0000_0000_0000,
            final(self).callers()[caller.place()].total_duration_ns
                == (old(self).callers()[caller.place()].total_duration_ns + duration_ns)
                % 0x1_0000_0000_0000_0000,
    {
        let examined_u64: u64 = examined as u64;
        let returned_u64: u64 = returned as u64;

        self.total_queries = self.total_queries.wrapping_add(1);
        self.total_entities_examined = self.total_entities_examined.wrapping_add(examined_u64);
        self.total_candidates_returned = self.total_candidates_returned.wrapping_add(returned_u64);
        self.total_duration_ns = self.total_duration_ns.wrapping_add(duration_ns);

        match kind {
            QueryKind::Aabb => {
                self.aabb_queries = self.aabb_queries.wrapping_add(1);
            },
            QueryKind::Sphere => {
                self.sphere_queries = self.sphere_queries.wrapping_add(1);
            },
            QueryKind::PredicateScan => {
                self.predicate_queries = self.predicate_queries.wrapping_add(1);
            },
        }

        let i: usize = caller.index();
        let c = self.caller_metrics[i];
        let recorded = CallerSnapshot {
            query_count: c.query_count.wrapping_add(1),
            entities_examined: c.entities_examined.wrapping_add(examined_u64),
            candidates_returned: c.candidates_returned.wrapping_add(returned_u64),
            total_duration_ns: c.total_duration_ns.wrapping_add(duration_ns),
        };
        assert(recorded == c.recorded(examined as int, returned as int, duration_ns as int));
        self.caller_metrics[i] = recorded;
        assert(self.callers() =~= old(self).callers().update(caller.place(), recorded));
    }

    /// Snapshot current metrics into a summary structure.
    pub fn snapshot(&self) -> (s: SpatialMetricsSnapshot)
        ensures
            s.total_queries == self.total_queries,
            s.total_entities_examined == self.total_entities_examined,
            s.total_candidates_returned == self.total_candidates_returned,
            s.total_duration_ns == self.total_duration_ns,
            s.aabb_queries == self.aabb_queries,
            s.sphere_queries == self.sphere_queries,
            s.predicate_queries == self.predicate_queries,
            s.callers@ == self.callers(),
    {
        SpatialMetricsSnapshot {
            total_queries: self.total_queries,
            total_entities_examined: self.total_entities_examined,
            total_candidates_returned: self.total_candidates_returned,
            total_duration_ns: self.total_duration_ns,
            aabb_queries: self.aabb_queries,
            sphere_queries: self.sphere_queries,
            predicate_queries: self.predicate_queries,
            callers: self.caller_metrics,
        }
    }

    /// Reset all metric counters to zero.
    pub fn reset(&mut self)
        ensures
            final(self).is_zero(),
            final(self).total_queries == 0,
            final(self).total_entities_examined == 0,
            final(self).total_candidates_returned == 0,
            final(self).total_duration_ns == 0,
            final(self).aabb_queries == 0,
            final(self).sphere_queries == 0,
            final(self).predicate_queries == 0,
    {
        self.total_queries = 0;
        self.total_entities_examined = 0;
        self.total_candidates_returned = 0;
        self.total_duration_ns = 0;
        self.aabb_queries = 0;
        self.sphere_queries = 0;
        self.predicate_queries = 0;
        self.caller_metrics = zero_callers();
    }
}

impl Default for SpatialMetrics {
    fn default() -> (m: SpatialMetrics)
        ensures
            m.is_zero(),
    {
        SpatialMetrics {
            total_queries: 0,
            total_entities_examined: 0,
            total_candidates_returned: 0,
            total_duration_ns: 0,
            aabb_queries: 0,
            sphere_queries: 0,
            predicate_queries: 0,
            caller_metrics: zero_callers(),
        }
    }
}

/// The queries of a caller.
pub open spec fn queries_part() -> spec_fn(CallerSnapshot) -> int {
    |c: CallerSnapshot| c.query_count as int
}

/// The entities examined for a caller.
pub open spec fn examined_part() -> spec_fn(CallerSnapshot) -> int {
    |c: CallerSnapshot| c.entities_examined as int
}

/// The candidates returned to a caller.
pub open spec fn returned_part() -> spec_fn(CallerSnapshot) -> int {
    |c: CallerSnapshot| c.candidates_returned as int
}

/// The time spent for a caller.
pub open spec fn duration_part() -> spec_fn(CallerSnapshot) -> int {
    |c: CallerSnapshot| c.total_duration_ns as int
}

/// The sum of a counter over all callers.
pub open spec fn sum_of(callers: Seq<CallerSnapshot>, part: spec_fn(CallerSnapshot) -> int) -> int
    decreases callers.len(),
{
    if callers.len() == 0 {
        0
    } else {
        sum_of(callers.drop_last(), part) + part(callers.last())
    }
}

proof fn lemma_update_adds(
    callers: Seq<CallerSnapshot>,
    part: spec_fn(CallerSnapshot) -> int,
    i: int,
    c: CallerSnapshot,
)
    requires
        0 <= i < callers.len(),
        forall|c: CallerSnapshot| 0 <= #[trigger] part(c),
    ensures
        sum_of(callers.update(i, c), part) == sum_of(callers, part) - part(callers[i]) + part(c),
        part(callers[i]) <= sum_of(callers, part),
        0 <= sum_of(callers, part),
    decreases callers.len(),
{
    let after = callers.update(i, c);
    assert(0 <= part(callers.last()));
    if i < callers.len() - 1 {
        lemma_update_adds(callers.drop_last(), part, i, c);
        assert(after.drop_last() =~= callers.drop_last().update(i, c));
        assert(callers.drop_last()[i] == callers[i]);
    } else {
        assert(after.drop_last() =~= callers.drop_last());
        if callers.len() > 1 {
            lemma_update_adds(callers.drop_last(), part, 0, c);
        } else {
            assert(sum_of(callers.drop_last(), part) == 0);
        }
    }
}

proof fn lemma_zero_sums(callers: Seq<CallerSnapshot>, part: spec_fn(CallerSnapshot) -> int)
    requires
        forall|i: int| 0 <= i < callers.len() ==> #[trigger] callers[i] == CallerSnapshot::zero(),
        part(CallerSnapshot::zero()) == 0,
    ensures
        sum_of(callers, part) == 0,
    decreases callers.len(),
{
    if callers.len() > 0 {
        lemma_zero_sums(callers.drop_last(), part);
        assert(callers.last() == callers[callers.len() - 1]);
    }
}

/// Counters at zero are balanced, and recording a query keeps them so: it counts once
/// in the total, once among the kinds and once among the callers, and what it adds to
/// a total it adds to its caller. Holds until a total wraps around.
pub proof fn law_counters_agree(
    before: SpatialMetrics,
    after: SpatialMetrics,
    caller: QueryCaller,
    kind: QueryKind,
    examined: int,
    returned: int,
    duration_ns: int,
)
    requires
        0 <= examined,
        0 <= returned,
        0 <= duration_ns,
        before.total_queries < u64::MAX,
        before.total_entities_examined + examined <= u64::MAX,
        before.total_candidates_returned + returned <= u64::MAX,
        before.total_duration_ns + duration_ns <= u64::MAX,
    ensures
        before.is_zero() ==> before.balanced(),
        before.balanced() && after.records(before, caller, kind, examined, returned, duration_ns)
            ==> after.balanced(),
{
    if before.is_zero() {
        lemma_zero_sums(before.callers(), queries_part());
        lemma_zero_sums(before.callers(), examined_part());
        lemma_zero_sums(before.callers(), returned_part());
        lemma_zero_sums(before.callers(), duration_part());
    }
    if before.balanced() && after.records(before, caller, kind, examined, returned, duration_ns) {
        lemma_kinds_agree(before, after, caller, kind, examined, returned, duration_ns);
        lemma_sums_agree(before, after, caller, kind, examined, returned, duration_ns);
    }
}

proof fn lemma_raised(counter: u64, by: int)
    requires
        0 <= by,
        counter + by <= u64::MAX,
    ensures
        raised(counter, by) == counter + by,
{
}

proof fn lemma_kinds_agree(
    before: SpatialMetrics,
    after: SpatialMetrics,
    caller: QueryCaller,
    kind: QueryKind,
    examined: int,
    returned: int,
    duration_ns: int,
)
    requires
        before.total_queries < u64::MAX,
        before.balanced(),
        after.records(before, caller, kind, examined, returned, duration_ns),
    ensures
        after.total_queries == after.aabb_queries + after.sphere_queries + after.predicate_queries,
        after.total_queries == before.total_queries + 1,
{
    lemma_raised(before.total_queries, 1);
    lemma_raised(before.aabb_queries, if kind == QueryKind::Aabb { 1 } else { 0 });
    lemma_raised(before.sphere_queries, if kind == QueryKind::Sphere { 1 } else { 0 });
    lemma_raised(before.predicate_queries, if kind == QueryKind::PredicateScan { 1 } else { 0 });
}

proof fn lemma_sums_agree(
    before: SpatialMetrics,
    after: SpatialMetrics,
    caller: QueryCaller,
    kind: QueryKind,
    examined: int,
    returned: int,
    duration_ns: int,
)
    requires
        0 <= examined,
        0 <= returned,
        0 <= duration_ns,
        before.total_queries < u64::MAX,
        before.total_entities_examined + examined <= u64::MAX,
        before.total_candidates_returned + returned <= u64::MAX,
        before.total_duration_ns + duration_ns <= u64::MAX,
        before.balanced(),
        after.records(before, caller, kind, examined, returned, duration_ns),
    ensures
        after.total_queries == sum_of(after.callers(), queries_part()),
        after.total_entities_examined == sum_of(after.callers(), examined_part()),
        after.total_candidates_returned == sum_of(after.callers(), returned_part()),
        after.total_duration_ns == sum_of(after.callers(), duration_part()),
{
    let i = caller.place();
    let c = before.callers()[i].recorded(examined, returned, duration_ns);
    lemma_raised(before.total_queries, 1);
    lemma_raised(before.total_entities_examined, examined);
    lemma_raised(before.total_candidates_returned, returned);
    lemma_raised(before.total_duration_ns, duration_ns);
    lemma_share_grows(before.callers(), queries_part(), i, 1, c);
    lemma_share_grows(before.callers(), examined_part(), i, examined, c);
    lemma_share_grows(before.callers(), returned_part(), i, returned, c);
    lemma_share_grows(before.callers(), duration_part(), i, duration_ns, c);
}

/// Where a caller's share grows without wrapping, the sum grows by as much.
proof fn lemma_share_grows(
    callers: Seq<CallerSnapshot>,
    part: spec_fn(CallerSnapshot) -> int,
    i: int,
    by: int,
    c: CallerSnapshot,
)
    requires
        0 <= i < callers.len(),
        forall|c: CallerSnapshot| 0 <= #[trigger] part(c),
        0 <= by,
        sum_of(callers, part) + by <= u64::MAX,
        part(c) == (part(callers[i]) + by) % 0x1_0000_0000_0000_0000,
    ensures
        sum_of(callers.update(i, c), part) == sum_of(callers, part) + by,
{
    lemma_update_adds(callers, part, i, c);
}

/// A query as it is recorded.
pub struct QueryRecord {
    pub caller: QueryCaller,
    pub kind: QueryKind,
    pub examined: int,
    pub returned: int,
    pub duration_ns: int,
}

/// What the counters stand at.
pub struct CountersModel {
    pub total_queries: u64,
    pub total_entities_examined: u64,
    pub total_candidates_returned: u64,
    pub total_duration_ns: u64,
    pub aabb_queries: u64,
    pub sphere_queries: u64,
    pub predicate_queries: u64,
    pub callers: Seq<CallerSnapshot>,
}

impl View for SpatialMetrics {
    type V = CountersModel;

    open spec fn view(&self) -> CountersModel {
        CountersModel {
            total_queries: self.total_queries,
            total_entities_examined: self.total_entities_examined,
            total_candidates_returned: self.total_candidates_returned,
            total_duration_ns: self.total_duration_ns,
            aabb_queries: self.aabb_queries,
            sphere_queries: self.sphere_queries,
            predicate_queries: self.predicate_queries,
            callers: self.callers(),
        }
    }
}

impl CountersModel {
    /// The counters after one more query.
    pub open spec fn recorded(self, r: QueryRecord) -> CountersModel {
        CountersModel {
            total_queries: raised(self.total_queries, 1),
            total_entities_examined: raised(self.total_entities_examined, r.examined),
            total_candidates_returned: raised(self.total_candidates_returned, r.returned),
            total_duration_ns: raised(self.total_duration_ns, r.duration_ns),
            aabb_queries: raised(
                self.aabb_queries,
                if r.kind == QueryKind::Aabb { 1 } else { 0 },
            ),
            sphere_queries: raised(
                self.sphere_queries,
                if r.kind == QueryKind::Sphere { 1 } else { 0 },
            ),
            predicate_queries: raised(
                self.predicate_queries,
                if r.kind == QueryKind::PredicateScan { 1 } else { 0 },
            ),
            callers: Seq::new(
                8,
                |i: int|
                    if i == r.caller.place() {
                        self.callers[i].recorded(r.examined, r.returned, r.duration_ns)
                    } else {
                        self.callers[i]
                    },
            ),
        }
    }

    /// The counters after several queries, one after the other.
    pub open spec fn after_all(self, records: Seq<QueryRecord>) -> CountersModel {
        records.fold_left(self, |m: CountersModel, r: QueryRecord| m.recorded(r))
    }
}

/// Recording a query is what the model does.
pub proof fn lemma_records(before: SpatialMetrics, after: SpatialMetrics, r: QueryRecord)
    ensures
        after.records(before, r.caller, r.kind, r.examined, r.returned, r.duration_ns) <==> after@
            == before@.recorded(r),
{
    let callers = before@.recorded(r).callers;
    let i = r.caller.place();
    assert(callers =~= before.callers().update(
        i,
        before.callers()[i].recorded(r.examined, r.returned, r.duration_ns),
    ));
}

proof fn lemma_raises_commute(counter: u64, a: int, b: int)
    ensures
        raised(raised(counter, a), b) == raised(raised(counter, b), a),
        raised(raised(counter, a), b) == raised(counter, a + b),
{
    let m = 0x1_0000_0000_0000_0000int;
    vstd::arithmetic::div_mod::lemma_add_mod_noop_right(b, counter + a, m);
    vstd::arithmetic::div_mod::lemma_add_mod_noop_right(a, counter + b, m);
}

/// The counters do not depend on the order in which queries are recorded.
pub proof fn law_order_of_records_does_not_matter(
    before: CountersModel,
    one: Seq<QueryRecord>,
    other: Seq<QueryRecord>,
)
    requires
        one.to_multiset() == other.to_multiset(),
    ensures
        before.after_all(one) == before.after_all(other),
{
    let f = |m: CountersModel, r: QueryRecord| m.recorded(r);
    assert forall|x: QueryRecord, y: QueryRecord, v: CountersModel| #[trigger]
        f(f(v, x), y) == f(f(v, y), x) by {
        let (a, b) = (v.recorded(x).recorded(y), v.recorded(y).recorded(x));
        lemma_raises_commute(v.total_entities_examined, x.examined, y.examined);
        lemma_raises_commute(v.total_candidates_returned, x.returned, y.returned);
        lemma_raises_commute(v.total_duration_ns, x.duration_ns, y.duration_ns);
        lemma_raises_commute(
            v.aabb_queries,
            if x.kind == QueryKind::Aabb { 1 } else { 0 },
            if y.kind == QueryKind::Aabb { 1 } else { 0 },
        );
        lemma_raises_commute(
            v.sphere_queries,
            if x.kind == QueryKind::Sphere { 1 } else { 0 },
            if y.kind == QueryKind::Sphere { 1 } else { 0 },
        );
        lemma_raises_commute(
            v.predicate_queries,
            if x.kind == QueryKind::PredicateScan { 1 } else { 0 },
            if y.kind == QueryKind::PredicateScan { 1 } else { 0 },
        );
        assert forall|i: int| 0 <= i < 8 implies a.callers[i] == b.callers[i] by {
            let c = v.callers[i];
            lemma_raises_commute(c.entities_examined, x.examined, y.examined);
            lemma_raises_commute(c.candidates_returned, x.returned, y.returned);
            lemma_raises_commute(c.total_duration_ns, x.duration_ns, y.duration_ns);
        }
        assert(a.callers =~= b.callers);
        assert(a == b);
    }
    vstd::seq_lib::lemma_fold_left_permutation(one, other, f, before);
}

/// Every caller has counters of its own.
pub proof fn law_callers_have_places_of_their_own(a: QueryCaller, b: QueryCaller)
    ensures
        0 <= a.place() < 8,
        a.place() == b.place() ==> a == b,
{
}

} // verus!
