//! The registry of resident and in-flight chunks.

use crate::coord::ChunkCoord;
use std::collections::HashMap;
use std::collections::HashSet;
use vstd::prelude::*;
use vstd::std_specs::iter::IteratorSpec;

verus! {

broadcast use vstd::std_specs::hash::group_hash_axioms;

/// What the engine keeps of a resident chunk.
#[derive(Clone, Copy, Debug, PartialEq, Eq, Structural)]
pub struct ChunkRecord {
    /// Where the chunk lies.
    pub coord: ChunkCoord,
    /// Vertices per edge the chunk was built with.
    pub res: u32,
    /// Handle of the world entity that carries the chunk's mesh.
    pub entity: u64,
    /// Whether a collision shape was attached.
    pub has_collider: bool,
}

/// In a map whose records sit under the key of their own coordinate, the
/// record found for a coordinate carries that coordinate.
proof fn lemma_filed(m: Map<u64, ChunkRecord>)
    requires
        forall|k: u64| #[trigger] m.contains_key(k) ==> m[k].coord.spec_key() == k,
    ensures
        forall|c: ChunkCoord| #[trigger]
            m.contains_key(c.spec_key()) ==> m[c.spec_key()].coord == c,
{
    assert forall|c: ChunkCoord| #[trigger] m.contains_key(c.spec_key()) implies m[c.spec_key()].coord
        == c by {
        ChunkCoord::lemma_key_injective(m[c.spec_key()].coord, c);
    }
}

/// A finite set of keys and the set of the coordinates that have those
/// keys are of one size.
proof fn lemma_same_size(keys: Set<u64>, coords: Set<ChunkCoord>)
    requires
        keys.finite(),
        forall|c: ChunkCoord| coords.contains(c) <==> keys.contains(c.spec_key()),
    ensures
        coords.finite(),
        coords.len() == keys.len(),
{
    let f = |k: u64| ChunkCoord::of_key(k);
    assert forall|k1: u64, k2: u64|
        keys.contains(k1) && keys.contains(k2) && #[trigger] f(k1) == #[trigger] f(
            k2,
        ) implies k1 == k2 by {
        ChunkCoord::lemma_key_round_trip(f(k1), k1);
        ChunkCoord::lemma_key_round_trip(f(k2), k2);
    }
    assert forall|c: ChunkCoord| keys.map(f).contains(c) <==> coords.contains(c) by {
        ChunkCoord::lemma_key_round_trip(c, 0);
        if keys.map(f).contains(c) {
            let k = choose|k: u64| keys.contains(k) && c == f(k);
            ChunkCoord::lemma_key_round_trip(c, k);
        }
        if coords.contains(c) {
            assert(keys.contains(c.spec_key()) && f(c.spec_key()) == c);
        }
    }
    assert(keys.map(f) =~= coords);
    vstd::set_lib::lemma_map_size(keys, coords, f);
}

/// Resident chunks by coordinate.
pub struct LoadedChunks {
    map: HashMap<u64, ChunkRecord>,
}

impl LoadedChunks {
    #[verifier::type_invariant]
    spec fn keyed_by_coord(self) -> bool {
        forall|k: u64| #[trigger]
            self.map@.contains_key(k) ==> self.map@[k].coord.spec_key() == k
    }

    /// The resident chunks as a map from coordinate to record.
    pub closed spec fn view(&self) -> Map<ChunkCoord, ChunkRecord> {
        Map::new(
            |c: ChunkCoord| self.map@.contains_key(c.spec_key()),
            |c: ChunkCoord| self.map@[c.spec_key()],
        )
    }

    /// Every record is filed under its own coordinate. This holds of every
    /// value at every moment.
    pub open spec fn indexed(&self) -> bool {
        forall|c: ChunkCoord| #[trigger] self@.contains_key(c) ==> self@[c].coord == c
    }

    /// A registry with no resident chunk.
    pub fn new() -> (r: LoadedChunks)
        ensures
            r@ == Map::<ChunkCoord, ChunkRecord>::empty(),
            r.indexed(),
    {
        let r = LoadedChunks { map: HashMap::new() };
        assert(r@ =~= Map::<ChunkCoord, ChunkRecord>::empty());
        r
    }

    /// Tells whether a chunk is resident at `coord`.
    pub fn contains(&self, coord: &ChunkCoord) -> (b: bool)
        ensures
            b == self@.contains_key(*coord),
    {
        let k = coord.key();
        self.map.contains_key(&k)
    }

    /// Counts the resident chunks.
    pub fn len(&self) -> (n: usize)
        ensures
            self@.dom().finite(),
            n == self@.dom().len(),
    {
        proof {
            lemma_same_size(self.map@.dom(), self@.dom());
        }
        self.map.len()
    }

    /// The record of the chunk resident at `coord`, if there is one.
    pub fn get(&self, coord: &ChunkCoord) -> (r: Option<ChunkRecord>)
        ensures
            r == (if self@.contains_key(*coord) {
                Some(self@[*coord])
            } else {
                None
            }),
            self.indexed(),
    {
        proof {
            use_type_invariant(self);
            lemma_filed(self.map@);
        }
        let k = coord.key();
        match self.map.get(&k) {
            Some(rec) => Some(*rec),
            None => None,
        }
    }

    /// Takes the chunk at `coord` out, and returns its record if there was
    /// one.
    pub fn remove(&mut self, coord: &ChunkCoord) -> (r: Option<ChunkRecord>)
        ensures
            final(self)@ == old(self)@.remove(*coord),
            r == (if old(self)@.contains_key(*coord) {
                Some(old(self)@[*coord])
            } else {
                None
            }),
            final(self).indexed(),
    {
        proof {
            use_type_invariant(&*self);
            lemma_filed(self.map@);
        }
        let k = coord.key();
        let mut map: HashMap<u64, ChunkRecord> = HashMap::new();
        std::mem::swap(&mut map, &mut self.map);
        let r = map.remove(&k);
        self.map = map;
        proof {
            assert forall|c: ChunkCoord| c.spec_key() == k implies c == *coord by {
                ChunkCoord::lemma_key_injective(c, *coord);
            }
            assert(self@ =~= old(self)@.remove(*coord));
        }
        r
    }

    /// Records `rec` as the resident chunk at its coordinate, in place of
    /// any chunk recorded there before.
    pub fn insert(&mut self, rec: ChunkRecord)
        ensures
            final(self)@ == old(self)@.insert(rec.coord, rec),
            final(self).indexed(),
    {
        proof {
            use_type_invariant(&*self);
            lemma_filed(self.map@);
        }
        let k = rec.coord.key();
        let mut map: HashMap<u64, ChunkRecord> = HashMap::new();
        std::mem::swap(&mut map, &mut self.map);
        map.insert(k, rec);
        self.map = map;
        proof {
            assert forall|c: ChunkCoord| c.spec_key() == k implies c == rec.coord by {
                ChunkCoord::lemma_key_injective(c, rec.coord);
            }
            assert(self@ =~= old(self)@.insert(rec.coord, rec));
        }
    }

    /// The records of the resident chunks outside the square of radius
    /// `radius` around `center`, each once, in no particular order.
    pub fn outside(&self, center: &ChunkCoord, radius: i32) -> (out: Vec<ChunkRecord>)
        ensures
            out@.no_duplicates(),
            forall|r: ChunkRecord|
                out@.contains(r) <==> (self@.contains_key(r.coord) && self@[r.coord] == r
                    && !r.coord.within(*center, radius as int)),
            self.indexed(),
    {
        proof {
            use_type_invariant(self);
            lemma_filed(self.map@);
        }
        let mut out: Vec<ChunkRecord> = Vec::new();
        let ghost ks: Seq<u64> = self.map.keys().remaining().unref();
        let ghost mut n: int = 0;
        assert(ks.no_duplicates());
        for k in it: self.map.keys()
            invariant
                forall|k: u64| #[trigger]
                    self.map@.contains_key(k) ==> self.map@[k].coord.spec_key() == k,
                it.seq().unref() == ks,
                n == it.index(),
                0 <= n <= ks.len(),
                ks.no_duplicates(),
                ks.to_set() == self.map@.dom(),
                forall|j: int|
                    0 <= j < out@.len() ==> {
                        &&& self.map@.contains_key(#[trigger] out@[j].coord.spec_key())
                        &&& self.map@[out@[j].coord.spec_key()] == out@[j]
                        &&& !out@[j].coord.within(*center, radius as int)
                        &&& exists|i: int|
                            0 <= i < n && #[trigger] ks[i] == out@[j].coord.spec_key()
                    },
                forall|i: int|
                    0 <= i < n && !self.map@[#[trigger] ks[i]].coord.within(
                        *center,
                        radius as int,
                    ) ==> out@.contains(self.map@[ks[i]]),
                out@.no_duplicates(),
        {
            assert(ks[n] == *k);
            assert(ks.to_set().contains(*k));
            let rec = *self.map.get(k).unwrap();
            let ghost prev = out@;
            if !rec.coord.is_within(center, radius) {
                out.push(rec);
                proof {
                    assert forall|a: int, b: int|
                        0 <= a < out@.len() && 0 <= b < out@.len() && a != b implies out@[a]
                        != out@[b] by {
                        if a == prev.len() || b == prev.len() {
                            let j = if a == prev.len() {
                                b
                            } else {
                                a
                            };
                            let i = choose|i: int|
                                0 <= i < n && #[trigger] ks[i] == prev[j].coord.spec_key();
                            assert(ks[i] != ks[n]);
                        }
                    }
                }
            }
            proof {
                assert forall|i: int|
                    0 <= i < n + 1 && !self.map@[#[trigger] ks[i]].coord.within(
                        *center,
                        radius as int,
                    ) implies out@.contains(self.map@[ks[i]]) by {
                    if i < n {
                        let w = choose|w: int| 0 <= w < prev.len() && prev[w] == self.map@[ks[i]];
                        assert(out@[w] == prev[w]);
                    } else {
                        assert(out@[prev.len() as int] == rec);
                    }
                }
                assert forall|j: int| 0 <= j < out@.len() implies {
                    &&& self.map@.contains_key(#[trigger] out@[j].coord.spec_key())
                    &&& self.map@[out@[j].coord.spec_key()] == out@[j]
                    &&& !out@[j].coord.within(*center, radius as int)
                    &&& exists|i: int|
                        0 <= i < n + 1 && #[trigger] ks[i] == out@[j].coord.spec_key()
                } by {
                    if j < prev.len() {
                        assert(out@[j] == prev[j]);
                        let i = choose|i: int|
                            0 <= i < n && #[trigger] ks[i] == prev[j].coord.spec_key();
                        assert(ks[i] == out@[j].coord.spec_key());
                    } else {
                        assert(ks[n] == out@[j].coord.spec_key());
                    }
                }
                n = n + 1;
            }
        }
        proof {
            assert(n == ks.len());
            assert forall|r: ChunkRecord|
                (self@.contains_key(r.coord) && self@[r.coord] == r && !r.coord.within(
                    *center,
                    radius as int,
                )) implies out@.contains(r) by {
                let k = r.coord.spec_key();
                assert(ks.to_set().contains(k));
                let i = choose|i: int| 0 <= i < ks.len() && ks[i] == k;
                assert(ks[i] == k);
            }
            assert forall|r: ChunkRecord| out@.contains(r) implies (self@.contains_key(r.coord)
                && self@[r.coord] == r && !r.coord.within(*center, radius as int)) by {
                let j = choose|j: int| 0 <= j < out@.len() && out@[j] == r;
                assert(self.map@.contains_key(out@[j].coord.spec_key()));
            }
        }
        out
    }
}

/// Coordinates of the chunks whose build is in flight.
pub struct InProgressChunks {
    set: HashSet<u64>,
}

impl InProgressChunks {
    #[verifier::type_invariant]
    spec fn countable(self) -> bool {
        self.set@.finite()
    }

    /// The coordinates in flight, as a set.
    pub closed spec fn view(&self) -> Set<ChunkCoord> {
        Set::new(|c: ChunkCoord| self.set@.contains(c.spec_key()))
    }

    /// A set with no build in flight.
    pub fn new() -> (r: InProgressChunks)
        ensures
            r@ == Set::<ChunkCoord>::empty(),
    {
        let r = InProgressChunks { set: HashSet::new() };
        assert(r@ =~= Set::<ChunkCoord>::empty());
        r
    }

    /// Tells whether a build for `coord` is in flight.
    pub fn contains(&self, coord: &ChunkCoord) -> (b: bool)
        ensures
            b == self@.contains(*coord),
    {
        let k = coord.key();
        self.set.contains(&k)
    }

    /// Counts the builds in flight.
    pub fn len(&self) -> (n: usize)
        ensures
            self@.finite(),
            n == self@.len(),
    {
        proof {
            use_type_invariant(self);
            lemma_same_size(self.set@, self@);
        }
        self.set.len()
    }

    /// Adds `coord`; returns whether it was new.
    pub fn insert(&mut self, coord: ChunkCoord) -> (fresh: bool)
        ensures
            final(self)@ == old(self)@.insert(coord),
            fresh == !old(self)@.contains(coord),
    {
        proof {
            use_type_invariant(&*self);
        }
        let k = coord.key();
        let mut set: HashSet<u64> = HashSet::new();
        std::mem::swap(&mut set, &mut self.set);
        let fresh = set.insert(k);
        self.set = set;
        proof {
            assert forall|c: ChunkCoord| c.spec_key() == k implies c == coord by {
                ChunkCoord::lemma_key_injective(c, coord);
            }
            assert(self@ =~= old(self)@.insert(coord));
        }
        fresh
    }

    /// Takes `coord` out; returns whether it was there.
    pub fn remove(&mut self, coord: &ChunkCoord) -> (found: bool)
        ensures
            final(self)@ == old(self)@.remove(*coord),
            found == old(self)@.contains(*coord),
    {
        proof {
            use_type_invariant(&*self);
        }
        let k = coord.key();
        let mut set: HashSet<u64> = HashSet::new();
        std::mem::swap(&mut set, &mut self.set);
        let found = set.remove(&k);
        self.set = set;
        proof {
            assert forall|c: ChunkCoord| c.spec_key() == k implies c == *coord by {
                ChunkCoord::lemma_key_injective(c, *coord);
            }
            assert(self@ =~= old(self)@.remove(*coord));
        }
        found
    }
}

/// Where a coordinate stands in the life cycle of its chunk.
#[derive(Clone, Copy, Debug, PartialEq, Eq, Structural)]
pub enum ChunkState {
    /// No chunk, and no build under way.
    NotPresent,
    /// A build was submitted and has not been merged yet.
    Pending,
    /// The chunk is resident.
    Loaded,
}

/// The two registries of one streaming manager: the resident chunks and
/// the builds in flight. No coordinate is ever in both.
pub struct ChunkRegistry {
    loaded: LoadedChunks,
    in_progress: InProgressChunks,
}

impl ChunkRegistry {
    #[verifier::type_invariant]
    spec fn never_both(self) -> bool {
        &&& forall|c: ChunkCoord|
            #![trigger self.loaded@.contains_key(c)]
            #![trigger self.in_progress@.contains(c)]
            !(self.loaded@.contains_key(c) && self.in_progress@.contains(c))
        &&& self.loaded.indexed()
    }

    /// The resident chunks.
    pub closed spec fn loaded(&self) -> Map<ChunkCoord, ChunkRecord> {
        self.loaded@
    }

    /// The coordinates whose build is in flight.
    pub closed spec fn pending(&self) -> Set<ChunkCoord> {
        self.in_progress@
    }

    /// The state of coordinate `c`.
    pub open spec fn state(&self, c: ChunkCoord) -> ChunkState {
        if self.loaded().contains_key(c) {
            ChunkState::Loaded
        } else if self.pending().contains(c) {
            ChunkState::Pending
        } else {
            ChunkState::NotPresent
        }
    }

    /// Whether the chunk at `c` is neither resident nor in flight.
    pub open spec fn absent(&self, c: ChunkCoord) -> bool {
        !self.loaded().contains_key(c) && !self.pending().contains(c)
    }

    /// No coordinate is both resident and in flight, and every record is
    /// filed under its own coordinate. This holds of every registry at
    /// every moment; each operation states it of the registry it leaves
    /// behind.
    pub open spec fn apart(&self) -> bool {
        &&& self.loaded().dom().disjoint(self.pending())
        &&& forall|c: ChunkCoord| #[trigger]
            self.loaded().contains_key(c) ==> self.loaded()[c].coord == c
    }

    /// A registry in which every coordinate is `NotPresent`.
    pub fn new() -> (r: ChunkRegistry)
        ensures
            r.loaded() == Map::<ChunkCoord, ChunkRecord>::empty(),
            r.pending() == Set::<ChunkCoord>::empty(),
            r.apart(),
    {
        ChunkRegistry { loaded: LoadedChunks::new(), in_progress: InProgressChunks::new() }
    }

    /// Reports the state of `coord`.
    pub fn state_of(&self, coord: &ChunkCoord) -> (s: ChunkState)
        ensures
            s == self.state(*coord),
            self.apart(),
    {
        proof {
            use_type_invariant(self);
        }
        if self.loaded.contains(coord) {
            ChunkState::Loaded
        } else if self.in_progress.contains(coord) {
            ChunkState::Pending
        } else {
            ChunkState::NotPresent
        }
    }

    /// Counts the resident chunks.
    pub fn loaded_count(&self) -> (n: usize)
        ensures
            self.loaded().dom().finite(),
            n == self.loaded().dom().len(),
    {
        self.loaded.len()
    }

    /// Counts the builds in flight.
    pub fn pending_count(&self) -> (n: usize)
        ensures
            self.pending().finite(),
            n == self.pending().len(),
    {
        self.in_progress.len()
    }

    /// The record of the chunk resident at `coord`, if there is one.
    pub fn record(&self, coord: &ChunkCoord) -> (r: Option<ChunkRecord>)
        ensures
            r == (if self.loaded().contains_key(*coord) {
                Some(self.loaded()[*coord])
            } else {
                None
            }),
    {
        self.loaded.get(coord)
    }

    /// Marks `coord` as submitted for building: `NotPresent` becomes
    /// `Pending`. A coordinate that is already pending or loaded is left as
    /// it is, and the call returns `false`.
    pub fn submit(&mut self, coord: ChunkCoord) -> (accepted: bool)
        ensures
            accepted == old(self).absent(coord),
            final(self).loaded() == old(self).loaded(),
            final(self).pending() == (if accepted {
                old(self).pending().insert(coord)
            } else {
                old(self).pending()
            }),
            final(self).apart(),
    {
        proof {
            use_type_invariant(&*self);
        }
        if self.loaded.contains(&coord) || self.in_progress.contains(&coord) {
            false
        } else {
            let mut pending = InProgressChunks::new();
            std::mem::swap(&mut pending, &mut self.in_progress);
            pending.insert(coord);
            self.in_progress = pending;
            true
        }
    }

    /// Merges a finished build: `Pending` becomes `Loaded`, with `rec` as
    /// the chunk's record. A build whose coordinate is not pending is
    /// refused: the registry is left as it is, and the call returns `false`.
    pub fn finalize(&mut self, rec: ChunkRecord) -> (accepted: bool)
        ensures
            accepted == old(self).pending().contains(rec.coord),
            final(self).loaded() == (if accepted {
                old(self).loaded().insert(rec.coord, rec)
            } else {
                old(self).loaded()
            }),
            final(self).pending() == (if accepted {
                old(self).pending().remove(rec.coord)
            } else {
                old(self).pending()
            }),
            final(self).apart(),
    {
        proof {
            use_type_invariant(&*self);
        }
        if !self.in_progress.contains(&rec.coord) {
            false
        } else {
            let mut pending = InProgressChunks::new();
            std::mem::swap(&mut pending, &mut self.in_progress);
            pending.remove(&rec.coord);
            self.in_progress = pending;
            let mut loaded = LoadedChunks::new();
            std::mem::swap(&mut loaded, &mut self.loaded);
            loaded.insert(rec);
            self.loaded = loaded;
            true
        }
    }

    /// Gives up a build that will never complete: `Pending` becomes
    /// `NotPresent`, so that a later cycle submits the coordinate again.
    /// Returns whether `coord` was pending.
    pub fn abandon(&mut self, coord: &ChunkCoord) -> (found: bool)
        ensures
            found == old(self).pending().contains(*coord),
            final(self).loaded() == old(self).loaded(),
            final(self).pending() == old(self).pending().remove(*coord),
            final(self).apart(),
    {
        proof {
            use_type_invariant(&*self);
        }
        let mut pending = InProgressChunks::new();
        std::mem::swap(&mut pending, &mut self.in_progress);
        let found = pending.remove(coord);
        self.in_progress = pending;
        found
    }

    /// Evicts every resident chunk farther than `radius` from `center` in
    /// Chebyshev distance: `Loaded` becomes `NotPresent`. Returns the
    /// records of the evicted chunks, each once, in no particular order.
    /// Builds in flight are not touched.
    pub fn evict_outside(&mut self, center: &ChunkCoord, radius: i32) -> (evicted: Vec<
        ChunkRecord,
    >)
        ensures
            final(self).pending() == old(self).pending(),
            final(self).loaded() == old(self).loaded().restrict(
                Set::new(|c: ChunkCoord| c.within(*center, radius as int)),
            ),
            forall|c: ChunkCoord| #[trigger]
                final(self).loaded().contains_key(c) ==> c.within(*center, radius as int),
            evicted@.no_duplicates(),
            forall|r: ChunkRecord|
                evicted@.contains(r) <==> (old(self).loaded().contains_key(r.coord) && old(
                    self,
                ).loaded()[r.coord] == r && !r.coord.within(*center, radius as int)),
            final(self).apart(),
    {
        proof {
            use_type_invariant(&*self);
        }
        let ghost before = self.loaded@;
        let evicted = self.loaded.outside(center, radius);
        proof {
            assert forall|j: int| 0 <= j < evicted@.len() implies before.contains_key(
                (#[trigger] evicted@[j]).coord,
            ) by {
                assert(evicted@.contains(evicted@[j]));
            }
        }
        let mut loaded = LoadedChunks::new();
        std::mem::swap(&mut loaded, &mut self.loaded);
        let mut i: usize = 0;
        while i < evicted.len()
            invariant
                0 <= i <= evicted.len(),
                forall|j: int|
                    0 <= j < evicted@.len() ==> before.contains_key(
                        (#[trigger] evicted@[j]).coord,
                    ),
                forall|c: ChunkCoord|
                    loaded@.contains_key(c) <==> (before.contains_key(c) && !(exists|j: int|
                        0 <= j < i && (#[trigger] evicted@[j]).coord == c)),
                forall|c: ChunkCoord| loaded@.contains_key(c) ==> loaded@[c] == before[c],
                loaded.indexed(),
            decreases evicted.len() - i,
        {
            let ghost prev = loaded@;
            let coord = evicted[i].coord;
            loaded.remove(&coord);
            proof {
                assert forall|c: ChunkCoord|
                    loaded@.contains_key(c) <==> (before.contains_key(c) && !(exists|j: int|
                        0 <= j < i + 1 && (#[trigger] evicted@[j]).coord == c)) by {
                    if c == coord {
                        assert(evicted@[i as int].coord == c);
                    } else if prev.contains_key(c) {
                        assert(loaded@.contains_key(c));
                    }
                }
            }
            i = i + 1;
        }
        proof {
            let keep = Set::new(|c: ChunkCoord| c.within(*center, radius as int));
            assert forall|c: ChunkCoord|
                loaded@.contains_key(c) <==> (before.contains_key(c) && keep.contains(c)) by {
                if before.contains_key(c) && !c.within(*center, radius as int) {
                    let r = before[c];
                    assert(evicted@.contains(r));
                    let j = choose|j: int| 0 <= j < evicted@.len() && evicted@[j] == r;
                    assert(evicted@[j].coord == c);
                }
                if before.contains_key(c) && c.within(*center, radius as int) {
                    if exists|j: int| 0 <= j < i && (#[trigger] evicted@[j]).coord == c {
                        let j = choose|j: int| 0 <= j < i && (#[trigger] evicted@[j]).coord == c;
                        assert(evicted@.contains(evicted@[j]));
                    }
                }
            }
            assert(loaded@ =~= before.restrict(keep));
        }
        self.loaded = loaded;
        evicted
    }

    /// Forgets everything, as a change of the terrain's source demands:
    /// every coordinate becomes `NotPresent`. Returns the records of the
    /// chunks that were resident, each once, in no particular order.
    pub fn invalidate(&mut self) -> (dropped: Vec<ChunkRecord>)
        ensures
            final(self).loaded() == Map::<ChunkCoord, ChunkRecord>::empty(),
            final(self).pending() == Set::<ChunkCoord>::empty(),
            dropped@.no_duplicates(),
            forall|r: ChunkRecord|
                dropped@.contains(r) <==> (old(self).loaded().contains_key(r.coord) && old(
                    self,
                ).loaded()[r.coord] == r),
            final(self).apart(),
    {
        let origin = ChunkCoord { x: 0, z: 0 };
        let dropped = self.loaded.outside(&origin, -1);
        self.loaded = LoadedChunks::new();
        self.in_progress = InProgressChunks::new();
        dropped
    }
}

} // verus!
