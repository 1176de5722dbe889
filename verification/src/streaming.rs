//! One control cycle of the streaming manager.

use crate::config::TerrainConfig;
use crate::coord::spec_chunk_index;
use crate::coord::ChunkCoord;
use crate::desired::desired_chunks;
use crate::desired::desired_order;
use crate::desired::lemma_desired_order;
use crate::desired::no_later;
use crate::desired::serve_order;
use crate::registry::ChunkRecord;
use crate::registry::ChunkRegistry;
use crate::registry::ChunkState;
use vstd::prelude::*;
use vstd::relations::sorted_by;

verus! {

/// The chunks of `order` that are neither resident nor in flight, in the
/// order of `order`.
pub open spec fn missing(registry: &ChunkRegistry, order: Seq<ChunkCoord>) -> Seq<ChunkCoord> {
    order.filter(|c: ChunkCoord| registry.absent(c))
}

/// The builds one cycle submits for an observer in chunk `center`: of the
/// chunks within `radius` that are neither resident nor in flight, the
/// `budget` nearest, nearest first; all of them where they are fewer.
pub open spec fn planned(
    registry: &ChunkRegistry,
    center: ChunkCoord,
    radius: int,
    budget: nat,
) -> Seq<ChunkCoord> {
    let m = missing(registry, desired_order(center, radius));
    if m.len() <= budget {
        m
    } else {
        m.take(budget as int)
    }
}

/// Every chunk within `radius` of `center` is resident or in flight.
pub open spec fn settled(registry: &ChunkRegistry, center: ChunkCoord, radius: int) -> bool {
    forall|c: ChunkCoord| #[trigger] c.within(center, radius) ==> !registry.absent(c)
}

/// What one cycle does to a registry, for an observer in chunk `center`:
/// the builds submitted are the planned ones, and they are pending
/// afterwards; the chunks evicted are the resident ones beyond `radius`,
/// and they alone are resident no more.
pub open spec fn cycle_outcome(
    before: &ChunkRegistry,
    after: &ChunkRegistry,
    center: ChunkCoord,
    radius: int,
    budget: nat,
    submitted: Seq<ChunkCoord>,
    evicted: Seq<ChunkRecord>,
) -> bool {
    &&& submitted == planned(before, center, radius, budget)
    &&& after.pending() == before.pending().union(submitted.to_set())
    &&& after.loaded() == before.loaded().restrict(
        Set::new(|c: ChunkCoord| c.within(center, radius)),
    )
    &&& evicted.no_duplicates()
    &&& forall|r: ChunkRecord|
        evicted.contains(r) <==> (before.loaded().contains_key(r.coord) && before.loaded()[r.coord]
            == r && !r.coord.within(center, radius))
}

/// The chunk that holds an observer at `(pos_x, pos_z)`.
pub open spec fn observer_chunk(pos_x: i32, pos_z: i32, chunk_size: u32) -> ChunkCoord {
    ChunkCoord {
        x: spec_chunk_index(pos_x, chunk_size) as i32,
        z: spec_chunk_index(pos_z, chunk_size) as i32,
    }
}

/// What one cycle decided.
pub struct CyclePlan {
    /// Coordinates to build, nearest first. Each is now pending.
    pub submitted: Vec<ChunkCoord>,
    /// Records of the chunks that left residence, in no particular order.
    pub evicted: Vec<ChunkRecord>,
}

/// One build, as it is handed to a worker.
#[derive(Clone, Copy, Debug, PartialEq, Eq, Structural)]
pub struct BuildRequest {
    /// The chunk to build.
    pub coord: ChunkCoord,
    /// Cells along the chunk's edge.
    pub resolution: u32,
    /// Whether the heights are kept for a collision shape.
    pub create_collider: bool,
}

impl BuildRequest {
    /// The request for chunk `coord` and an observer at `(pos_x, pos_z)`.
    pub open spec fn spec_for_observer(
        cfg: &TerrainConfig,
        coord: ChunkCoord,
        pos_x: i32,
        pos_z: i32,
    ) -> BuildRequest {
        BuildRequest {
            coord,
            resolution: cfg.resolution_for(coord, pos_x, pos_z),
            create_collider: cfg.resolution_for(coord, pos_x, pos_z) != cfg.lod_far_resolution,
        }
    }

    /// Makes the request for a submitted chunk and an observer at
    /// `(pos_x, pos_z)`: the resolution goes by the distance from the
    /// observer to the chunk's centre.
    pub fn for_observer(cfg: &TerrainConfig, coord: ChunkCoord, pos_x: i32, pos_z: i32) -> (req:
        BuildRequest)
        ensures
            req == BuildRequest::spec_for_observer(cfg, coord, pos_x, pos_z),
    {
        let lod = cfg.select_lod_for(&coord, pos_x, pos_z);
        BuildRequest { coord, resolution: lod.resolution, create_collider: lod.create_collider }
    }

    /// The record under which the finished chunk becomes resident, once
    /// its mesh is carried by `entity`.
    pub fn completed(&self, entity: u64) -> (rec: ChunkRecord)
        ensures
            rec == (ChunkRecord {
                coord: self.coord,
                res: self.resolution,
                entity,
                has_collider: self.create_collider,
            }),
    {
        ChunkRecord {
            coord: self.coord,
            res: self.resolution,
            entity,
            has_collider: self.create_collider,
        }
    }
}

/// What one cycle decided for an observer at a position.
pub struct TerrainUpdate {
    /// Builds to hand to the workers, nearest first. The coordinate of
    /// each is now pending.
    pub builds: Vec<BuildRequest>,
    /// Records of the chunks that left residence, in no particular order.
    pub evicted: Vec<ChunkRecord>,
}

/// Idempotence: around an observer that has not moved, a registry in which
/// every wanted chunk is resident or in flight has nothing submitted,
/// whatever the budget.
pub proof fn lemma_settled_plans_nothing(
    registry: &ChunkRegistry,
    center: ChunkCoord,
    radius: int,
    budget: nat,
)
    requires
        settled(registry, center, radius),
    ensures
        planned(registry, center, radius, budget) == Seq::<ChunkCoord>::empty(),
{
    let order = desired_order(center, radius);
    let pred = |c: ChunkCoord| registry.absent(c);
    let m = order.filter(pred);
    if radius >= 0 {
        lemma_desired_order(center, radius);
    }
    if m.len() > 0 {
        order.lemma_filter_pred(pred, 0);
        lemma_filter_from(order, pred, 0);
        assert(order.contains(m[0]));
        assert(m[0].within(center, radius));
    }
    assert(m =~= Seq::<ChunkCoord>::empty());
}

/// Every element of a filtered sequence comes from the sequence.
proof fn lemma_filter_from(s: Seq<ChunkCoord>, pred: spec_fn(ChunkCoord) -> bool, i: int)
    requires
        0 <= i < s.filter(pred).len(),
    ensures
        s.contains(s.filter(pred)[i]),
    decreases s.len(),
{
    reveal(Seq::filter);
    if s.len() > 0 {
        let sub = s.drop_last().filter(pred);
        if i < sub.len() {
            lemma_filter_from(s.drop_last(), pred, i);
            let j = choose|j: int| 0 <= j < s.drop_last().len() && s.drop_last()[j] == sub[i];
            assert(s[j] == sub[i]);
        } else {
            assert(s[s.len() - 1] == s.filter(pred)[i]);
        }
    }
}

/// Filtering keeps a sequence free of duplicates.
proof fn lemma_filter_no_duplicates(s: Seq<ChunkCoord>, pred: spec_fn(ChunkCoord) -> bool)
    requires
        s.no_duplicates(),
    ensures
        s.filter(pred).no_duplicates(),
    decreases s.len(),
{
    reveal(Seq::filter);
    if s.len() > 0 {
        let sub = s.drop_last().filter(pred);
        lemma_filter_no_duplicates(s.drop_last(), pred);
        if pred(s.last()) {
            assert forall|i: int, j: int|
                0 <= i < sub.len() + 1 && 0 <= j < sub.len() + 1 && i != j implies sub.push(
                s.last(),
            )[i] != sub.push(s.last())[j] by {
                if i < sub.len() && j == sub.len() {
                    lemma_filter_from(s.drop_last(), pred, i);
                    let k = choose|k: int|
                        0 <= k < s.drop_last().len() && s.drop_last()[k] == sub[i];
                    assert(s[k] != s[s.len() - 1]);
                }
                if j < sub.len() && i == sub.len() {
                    lemma_filter_from(s.drop_last(), pred, j);
                    let k = choose|k: int|
                        0 <= k < s.drop_last().len() && s.drop_last()[k] == sub[j];
                    assert(s[k] != s[s.len() - 1]);
                }
            }
        }
    }
}

/// Filtering keeps a sequence in order.
proof fn lemma_filter_sorted(
    s: Seq<ChunkCoord>,
    pred: spec_fn(ChunkCoord) -> bool,
    r: spec_fn(ChunkCoord, ChunkCoord) -> bool,
)
    requires
        sorted_by(s, r),
    ensures
        sorted_by(s.filter(pred), r),
    decreases s.len(),
{
    reveal(Seq::filter);
    if s.len() > 0 {
        let sub = s.drop_last().filter(pred);
        lemma_filter_sorted(s.drop_last(), pred, r);
        if pred(s.last()) {
            assert forall|i: int, j: int| 0 <= i < j < sub.len() + 1 implies #[trigger] r(
                sub.push(s.last())[i],
                sub.push(s.last())[j],
            ) by {
                if j == sub.len() {
                    lemma_filter_from(s.drop_last(), pred, i);
                    let k = choose|k: int|
                        0 <= k < s.drop_last().len() && s.drop_last()[k] == sub[i];
                    assert(r(s[k], s[s.len() - 1]));
                } else {
                    assert(r(sub[i], sub[j]));
                }
            }
        }
    }
}

/// What is planned: chunks within the radius that are neither resident
/// nor in flight, each once, nearest first, no more than the budget; and
/// where the budget is not used up, all such chunks.
pub proof fn lemma_planned(registry: &ChunkRegistry, center: ChunkCoord, radius: int, budget: nat)
    ensures
        planned(registry, center, radius, budget).len() <= budget,
        planned(registry, center, radius, budget).no_duplicates(),
        forall|i: int, j: int|
            0 <= i < j < planned(registry, center, radius, budget).len() ==> no_later(
                #[trigger] planned(registry, center, radius, budget)[i],
                #[trigger] planned(registry, center, radius, budget)[j],
                center,
            ),
        forall|i: int|
            0 <= i < planned(registry, center, radius, budget).len() ==> {
                &&& (#[trigger] planned(registry, center, radius, budget)[i]).within(
                    center,
                    radius,
                )
                &&& registry.absent(planned(registry, center, radius, budget)[i])
            },
        planned(registry, center, radius, budget).len() < budget ==> forall|c: ChunkCoord|
            #![trigger c.within(center, radius)]
            c.within(center, radius) && registry.absent(c) ==> planned(
                registry,
                center,
                radius,
                budget,
            ).contains(c),
{
    let order = desired_order(center, radius);
    let pred = |c: ChunkCoord| registry.absent(c);
    let m = order.filter(pred);
    let p = planned(registry, center, radius, budget);
    if radius >= 0 {
        lemma_desired_order(center, radius);
    }
    lemma_filter_no_duplicates(order, pred);
    assert(sorted_by(order, serve_order(center))) by {
        if radius >= 0 {
            assert forall|i: int, j: int| 0 <= i < j < order.len() implies #[trigger] serve_order(
                center,
            )(order[i], order[j]) by {
                assert(no_later(order[i], order[j], center));
            }
        }
    }
    lemma_filter_sorted(order, pred, serve_order(center));
    assert forall|i: int, j: int| 0 <= i < j < p.len() implies no_later(
        #[trigger] p[i],
        #[trigger] p[j],
        center,
    ) by {
        assert(p[i] == m[i] && p[j] == m[j]);
        assert(serve_order(center)(m[i], m[j]));
    }
    assert forall|i: int| 0 <= i < p.len() implies {
        &&& (#[trigger] p[i]).within(center, radius)
        &&& registry.absent(p[i])
    } by {
        assert(p[i] == m[i]);
        order.lemma_filter_pred(pred, i);
        lemma_filter_from(order, pred, i);
    }
    if p.len() < budget {
        assert(p == m);
        assert forall|c: ChunkCoord|
            #![trigger c.within(center, radius)]
            c.within(center, radius) && registry.absent(c) implies p.contains(c) by {
            assert(order.contains(c));
            let i = choose|i: int| 0 <= i < order.len() && order[i] == c;
            order.lemma_filter_contains(pred, i);
        }
    }
}

/// The transitions of one cycle: a coordinate that is submitted goes from
/// `NotPresent` to `Pending`, a resident one beyond the radius from
/// `Loaded` to `NotPresent`, and every other coordinate stays as it is.
pub proof fn lemma_cycle_transitions(
    before: &ChunkRegistry,
    after: &ChunkRegistry,
    center: ChunkCoord,
    radius: int,
    budget: nat,
    submitted: Seq<ChunkCoord>,
    evicted: Seq<ChunkRecord>,
    c: ChunkCoord,
)
    requires
        before.apart(),
        cycle_outcome(before, after, center, radius, budget, submitted, evicted),
    ensures
        submitted.contains(c) ==> before.state(c) == ChunkState::NotPresent && after.state(c)
            == ChunkState::Pending,
        before.state(c) == ChunkState::Loaded && !c.within(center, radius) ==> after.state(c)
            == ChunkState::NotPresent,
        !submitted.contains(c) && !(before.state(c) == ChunkState::Loaded && !c.within(
            center,
            radius,
        )) ==> after.state(c) == before.state(c),
{
    lemma_planned(before, center, radius, budget);
    if submitted.contains(c) {
        let i = choose|i: int| 0 <= i < submitted.len() && submitted[i] == c;
        assert(before.absent(submitted[i]));
        assert(submitted.to_set().contains(c));
    } else {
        assert(!submitted.to_set().contains(c));
    }
    assert(before.loaded().dom().contains(c) == before.loaded().contains_key(c));
}

/// Chooses the builds to submit in this cycle, without changing the
/// registry.
pub fn plan_submissions(
    registry: &ChunkRegistry,
    center: &ChunkCoord,
    radius: i32,
    budget: usize,
) -> (out: Vec<ChunkCoord>)
    ensures
        out@ == planned(registry, *center, radius as int, budget as nat),
{
    let desired = desired_chunks(center, radius);
    let ghost pred = |c: ChunkCoord| registry.absent(c);
    let mut out: Vec<ChunkCoord> = Vec::new();
    let mut i: usize = 0;
    proof {
        assert(desired@.take(0) =~= Seq::<ChunkCoord>::empty());
        reveal(Seq::filter);
    }
    while i < desired.len() && out.len() < budget
        invariant
            0 <= i <= desired.len(),
            pred == (|c: ChunkCoord| registry.absent(c)),
            out@ == desired@.take(i as int).filter(pred),
            out.len() <= budget,
        decreases desired.len() - i,
    {
        let coord = desired[i];
        let state = registry.state_of(&coord);
        proof {
            assert(desired@.take(i + 1) =~= desired@.take(i as int).push(coord));
            desired@.take(i as int).lemma_filter_push(coord, pred);
        }
        if state == ChunkState::NotPresent {
            out.push(coord);
        }
        i = i + 1;
    }
    proof {
        let head = desired@.take(i as int);
        let tail = desired@.skip(i as int);
        assert(desired@ =~= head + tail);
        Seq::filter_distributes_over_add(head, tail, pred);
        let m = desired@.filter(pred);
        assert(m == out@ + tail.filter(pred));
        if i == desired.len() {
            assert(tail =~= Seq::<ChunkCoord>::empty());
            reveal(Seq::filter);
            assert(tail.filter(pred) =~= Seq::<ChunkCoord>::empty());
            assert(m =~= out@);
        } else {
            assert(out@.len() == budget);
            assert(m.take(budget as int) =~= out@);
        }
    }
    out
}

impl ChunkRegistry {
    /// Runs one control cycle for an observer in chunk `center`.
    ///
    /// Of the chunks within Chebyshev distance `radius` that are neither
    /// resident nor in flight, the `budget` nearest are marked pending and
    /// returned, nearest first; the rest wait for a later cycle. Every
    /// resident chunk farther away than `radius` is evicted and its record
    /// returned.
    pub fn update_cycle(&mut self, center: &ChunkCoord, radius: i32, budget: usize) -> (plan:
        CyclePlan)
        ensures
            cycle_outcome(
                old(self),
                final(self),
                *center,
                radius as int,
                budget as nat,
                plan.submitted@,
                plan.evicted@,
            ),
            final(self).apart(),
            forall|c: ChunkCoord| #[trigger]
                final(self).loaded().contains_key(c) ==> c.within(*center, radius as int),
            plan.submitted@.len() < budget ==> settled(final(self), *center, radius as int),
            settled(old(self), *center, radius as int) ==> plan.submitted@.len() == 0,
    {
        let submitted = plan_submissions(&*self, center, radius, budget);
        let ghost before_pending = self.pending();
        let ghost before_loaded = self.loaded();
        proof {
            lemma_planned(&*self, *center, radius as int, budget as nat);
            if settled(&*self, *center, radius as int) {
                lemma_settled_plans_nothing(&*self, *center, radius as int, budget as nat);
            }
            assert(submitted@.take(0).to_set() =~= Set::<ChunkCoord>::empty());
            assert(before_pending.union(Set::<ChunkCoord>::empty()) =~= before_pending);
        }
        let mut i: usize = 0;
        while i < submitted.len()
            invariant
                0 <= i <= submitted.len(),
                self.loaded() == before_loaded,
                self.pending() == before_pending.union(submitted@.take(i as int).to_set()),
                forall|k: int|
                    0 <= k < submitted@.len() ==> !before_loaded.contains_key(
                        #[trigger] submitted@[k],
                    ),
            decreases submitted.len() - i,
        {
            let coord = submitted[i];
            self.submit(coord);
            proof {
                assert(submitted@.take(i + 1) =~= submitted@.take(i as int).push(coord));
                submitted@.take(i as int).lemma_push_to_set_commute(coord);
                assert(self.pending() =~= before_pending.union(
                    submitted@.take(i + 1).to_set(),
                ));
            }
            i = i + 1;
        }
        proof {
            assert(submitted@.take(i as int) =~= submitted@);
        }
        let evicted = self.evict_outside(center, radius);
        proof {
            if submitted@.len() < budget {
                assert forall|c: ChunkCoord| #[trigger]
                    c.within(*center, radius as int) implies !self.absent(c) by {
                    if !before_loaded.contains_key(c) && !before_pending.contains(c) {
                        assert(submitted@.contains(c));
                        assert(submitted@.to_set().contains(c));
                    }
                }
            }
        }
        CyclePlan { submitted, evicted }
    }
}

/// Runs one control cycle for an observer at `(pos_x, pos_z)`.
///
/// The observer's chunk is the one that holds the position. Of the chunks
/// within the view radius of it that are neither resident nor in flight,
/// the nearest are marked pending, as many as the budget of a cycle
/// allows, and a build is requested for each, at the resolution that its
/// distance from the observer calls for. Every resident chunk beyond the
/// view radius is evicted.
pub fn update_terrain_chunks(
    registry: &mut ChunkRegistry,
    cfg: &TerrainConfig,
    pos_x: i32,
    pos_z: i32,
) -> (update: TerrainUpdate)
    requires
        cfg.chunk_size > 0,
    ensures
        cycle_outcome(
            old(registry),
            final(registry),
            observer_chunk(pos_x, pos_z, cfg.chunk_size),
            cfg.view_radius_chunks as int,
            cfg.max_spawn_per_frame as nat,
            update.builds@.map_values(|b: BuildRequest| b.coord),
            update.evicted@,
        ),
        forall|i: int|
            0 <= i < update.builds@.len() ==> #[trigger] update.builds@[i]
                == BuildRequest::spec_for_observer(cfg, update.builds@[i].coord, pos_x, pos_z),
        final(registry).apart(),
        forall|c: ChunkCoord| #[trigger]
            final(registry).loaded().contains_key(c) ==> c.within(
                observer_chunk(pos_x, pos_z, cfg.chunk_size),
                cfg.view_radius_chunks as int,
            ),
        update.builds@.len() < cfg.max_spawn_per_frame ==> settled(
            final(registry),
            observer_chunk(pos_x, pos_z, cfg.chunk_size),
            cfg.view_radius_chunks as int,
        ),
        settled(
            old(registry),
            observer_chunk(pos_x, pos_z, cfg.chunk_size),
            cfg.view_radius_chunks as int,
        ) ==> update.builds@.len() == 0,
{
    let center = ChunkCoord::containing(pos_x, pos_z, cfg.chunk_size);
    let plan = registry.update_cycle(&center, cfg.view_radius_chunks, cfg.max_spawn_per_frame);
    let mut builds: Vec<BuildRequest> = Vec::new();
    let mut i: usize = 0;
    while i < plan.submitted.len()
        invariant
            0 <= i <= plan.submitted.len(),
            builds@.len() == i,
            forall|k: int|
                0 <= k < i ==> #[trigger] builds@[k] == BuildRequest::spec_for_observer(
                    cfg,
                    plan.submitted@[k],
                    pos_x,
                    pos_z,
                ),
        decreases plan.submitted.len() - i,
    {
        builds.push(BuildRequest::for_observer(cfg, plan.submitted[i], pos_x, pos_z));
        i = i + 1;
    }
    proof {
        assert(builds@.map_values(|b: BuildRequest| b.coord) =~= plan.submitted@);
    }
    TerrainUpdate { builds, evicted: plan.evicted }
}

} // verus!
