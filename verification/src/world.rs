//! The placement store and its single gated insertion point.
//!
//! A [`SurfaceWorld`] holds the body registry and the table of placed
//! colliders. Entities enter only through [`SurfaceWorld::try_place`], which
//! rejects any candidate whose occupied arc overlaps an existing one on the
//! same body, and leave only through [`SurfaceWorld::remove_entity`], which
//! drops the placement/collider pair atomically.

use vstd::prelude::*;
use crate::angle::{AngularScalar, PERIOD};
use crate::collision::{colliding, is_colliding};
use crate::storage::ResourceKind;
use crate::storage::Storage;
use crate::surface::{Body, PlacedCollider, SurfaceCollider, SurfacePlacement, MAX_COORD};

verus! {

/// What a placed collider stands for, with the fields only that kind carries.
#[derive(Clone, Copy, PartialEq, Eq, Structural, Debug)]
pub enum OccupantKind {
    /// A natural resource producing the given kind when worked.
    Resource(ResourceKind),
    /// A building, carrying its storage.
    Building(Storage),
    /// An agent that was given an occupied arc.
    Agent,
    /// A blocking region that agents cannot traverse.
    Obstacle,
}

/// Tag for the water-surface visual of a body. Water regions enter the
/// verified core only as [`OccupantKind::Obstacle`] entries; this tag carries
/// nothing the core reads and exists for callers that pair those entries with
/// their rendering.
#[derive(Clone, Copy, PartialEq, Eq, Structural, Debug)]
pub struct WaterPlanetMaterial;

/// One row of the placement table: an entity, its occupied arc, and its kind.
#[derive(Clone, Copy, PartialEq, Eq, Structural, Debug)]
pub struct SurfaceEntry {
    pub id: u64,
    pub placed: PlacedCollider,
    pub kind: OccupantKind,
}

/// Why a placement was refused.
#[derive(Clone, Copy, PartialEq, Eq, Structural, Debug)]
pub enum PlacementError {
    /// The referenced body is not registered.
    NoSuchBody,
    /// The candidate's occupied arc overlaps an existing one on the body.
    Overlapping,
}

/// Whether some entry in the table collides with the candidate.
pub open spec fn overlaps_spec(es: Seq<SurfaceEntry>, candidate: PlacedCollider) -> bool {
    exists|i: int| 0 <= i < es.len() && colliding(#[trigger] es[i].placed, candidate)
}

/// Whether the registry holds a body with the given id.
pub open spec fn has_body_spec(bodies: Seq<Body>, id: u64) -> bool {
    exists|i: int| 0 <= i < bodies.len() && (#[trigger] bodies[i]).id == id
}

/// All entry ids are pairwise distinct.
pub open spec fn entry_ids_distinct(es: Seq<SurfaceEntry>) -> bool {
    forall|i: int, j: int|
        0 <= i < j < es.len() ==> (#[trigger] es[i]).id != (#[trigger] es[j]).id
}

/// The table with every entry of the given id dropped, order kept.
pub open spec fn remove_id_spec(es: Seq<SurfaceEntry>, id: u64) -> Seq<SurfaceEntry>
    decreases es.len(),
{
    if es.len() == 0 {
        Seq::empty()
    } else {
        let pre = remove_id_spec(es.drop_last(), id);
        if es.last().id == id {
            pre
        } else {
            pre.push(es.last())
        }
    }
}

/// Dropping an id keeps every other entry: each remaining entry occurs in the
/// table it came from, distinct ids stay distinct, and an id bound is kept.
pub proof fn lemma_remove_id_keeps_shape(es: Seq<SurfaceEntry>, id: u64, bound: int)
    requires
        entry_ids_distinct(es),
        forall|i: int| 0 <= i < es.len() ==> (#[trigger] es[i]).id < bound,
    ensures
        entry_ids_distinct(remove_id_spec(es, id)),
        forall|k: int|
            0 <= k < remove_id_spec(es, id).len() ==> es.contains(
                #[trigger] remove_id_spec(es, id)[k],
            ),
        forall|k: int|
            0 <= k < remove_id_spec(es, id).len() ==> (#[trigger] remove_id_spec(es, id)[k]).id
                < bound,
        forall|k: int|
            0 <= k < remove_id_spec(es, id).len() ==> (#[trigger] remove_id_spec(es, id)[k]).id
                != id,
    decreases es.len(),
{
    if es.len() > 0 {
        let head = es.drop_last();
        assert(entry_ids_distinct(head));
        lemma_remove_id_keeps_shape(head, id, bound);
        let pre = remove_id_spec(head, id);
        assert forall|k: int| 0 <= k < pre.len() implies es.contains(pre[k]) by {
            assert(head.contains(pre[k]));
            let i = choose|i: int| 0 <= i < head.len() && head[i] == pre[k];
            assert(es[i] == pre[k]);
        }
        if es.last().id != id {
            let r = pre.push(es.last());
            assert forall|k: int| 0 <= k < r.len() implies es.contains(r[k]) by {
                if k < pre.len() {
                    assert(es.contains(pre[k]));
                } else {
                    assert(es[es.len() - 1] == r[k]);
                }
            }
            assert forall|i: int, j: int| 0 <= i < j < r.len() implies r[i].id != r[j].id by {
                if j < pre.len() {
                } else {
                    assert(head.contains(pre[i]));
                    let w = choose|w: int| 0 <= w < head.len() && head[w] == pre[i];
                    assert(es[w].id != es.last().id);
                }
            }
        }
    }
}

/// Dropping an id that occurs nowhere leaves the table unchanged.
pub proof fn lemma_remove_id_absent(es: Seq<SurfaceEntry>, id: u64)
    requires
        forall|i: int| 0 <= i < es.len() ==> (#[trigger] es[i]).id != id,
    ensures
        remove_id_spec(es, id) == es,
    decreases es.len(),
{
    if es.len() > 0 {
        lemma_remove_id_absent(es.drop_last(), id);
        assert(remove_id_spec(es, id) =~= es);
    }
}

/// Law: no ghost collisions. When a candidate that overlapped nothing is
/// placed (as `try_place` does on success, appending an entry with a fresh
/// id) and that entry is then removed (as `remove_entity` does), the table is
/// back to what it was, and the candidate's former arc again overlaps
/// nothing.
pub proof fn lemma_no_ghost_collision(es: Seq<SurfaceEntry>, entry: SurfaceEntry)
    requires
        !overlaps_spec(es, entry.placed),
        forall|i: int| 0 <= i < es.len() ==> (#[trigger] es[i]).id != entry.id,
    ensures
        remove_id_spec(es.push(entry), entry.id) == es,
        !overlaps_spec(remove_id_spec(es.push(entry), entry.id), entry.placed),
{
    let pushed = es.push(entry);
    assert(pushed.drop_last() =~= es);
    lemma_remove_id_absent(es, entry.id);
}

/// The body registry and the placement table, with the single insertion
/// point every placement must pass.
pub struct SurfaceWorld {
    pub(crate) bodies: Vec<Body>,
    pub(crate) entries: Vec<SurfaceEntry>,
    pub(crate) next_id: u64,
}

impl SurfaceWorld {
    /// The registered bodies, in registration order.
    pub closed spec fn bodies_view(self) -> Seq<Body> {
        self.bodies@
    }

    /// The placement table, in insertion order.
    pub closed spec fn entries_view(self) -> Seq<SurfaceEntry> {
        self.entries@
    }

    /// The next identity to hand out.
    pub closed spec fn next_id_spec(self) -> int {
        self.next_id as int
    }

    /// Well-formedness: bodies are bounded and distinct, every identity ever
    /// handed out is below the allocation counter, and entry ids are
    /// pairwise distinct.
    pub open spec fn wf(self) -> bool {
        &&& forall|i: int| 0 <= i < self.bodies_view().len() ==> (#[trigger] self.bodies_view()[i]).wf()
        &&& forall|i: int, j: int|
            0 <= i < j < self.bodies_view().len() ==> (#[trigger] self.bodies_view()[i]).id != (
            #[trigger] self.bodies_view()[j]).id
        &&& forall|i: int|
            0 <= i < self.bodies_view().len() ==> (#[trigger] self.bodies_view()[i]).id
                < self.next_id_spec()
        &&& entry_ids_distinct(self.entries_view())
        &&& forall|i: int|
            0 <= i < self.entries_view().len() ==> (#[trigger] self.entries_view()[i]).id
                < self.next_id_spec()
    }

    /// Inside the crate the views are the fields.
    pub(crate) proof fn lemma_view_fields(&self)
        ensures
            self.bodies_view() == self.bodies@,
            self.entries_view() == self.entries@,
            self.next_id_spec() == self.next_id as int,
    {
    }

    /// An empty world: no bodies, no placements.
    pub fn new() -> (result: Self)
        ensures
            result.wf(),
            result.bodies_view() == Seq::<Body>::empty(),
            result.entries_view() == Seq::<SurfaceEntry>::empty(),
            result.next_id_spec() == 0,
    {
        SurfaceWorld { bodies: Vec::new(), entries: Vec::new(), next_id: 0 }
    }

    /// Whether identities are left to hand out. The id space is finite; the
    /// gate and the body registry stop before it is exhausted.
    pub fn id_space_open(&self) -> (r: bool)
        ensures
            r == (self.next_id_spec() < u64::MAX),
    {
        self.next_id < u64::MAX
    }

    /// Registers a body and returns its identity.
    pub fn add_body(&mut self, center_x: i64, center_y: i64, radius: u32) -> (id: u64)
        requires
            old(self).wf(),
            old(self).next_id_spec() < u64::MAX,
            -MAX_COORD <= center_x <= MAX_COORD,
            -MAX_COORD <= center_y <= MAX_COORD,
            radius <= MAX_COORD,
        ensures
            final(self).wf(),
            id as int == old(self).next_id_spec(),
            final(self).bodies_view() == old(self).bodies_view().push(
                Body { id, center_x, center_y, radius },
            ),
            final(self).entries_view() == old(self).entries_view(),
            final(self).next_id_spec() == old(self).next_id_spec() + 1,
    {
        let id = self.next_id;
        self.next_id = self.next_id + 1;
        self.bodies.push(Body::new(id, center_x, center_y, radius));
        proof {
            let bs = final(self).bodies_view();
            let old_bs = old(self).bodies_view();
            assert forall|i: int, j: int| 0 <= i < j < bs.len() implies (#[trigger] bs[i]).id != (
            #[trigger] bs[j]).id by {
                if j < old_bs.len() {
                    assert(old_bs[i].id != old_bs[j].id);
                } else {
                    assert(old_bs[i].id < id);
                }
            }
            assert forall|i: int| 0 <= i < bs.len() implies (#[trigger] bs[i]).wf() && bs[i].id
                < final(self).next_id_spec() by {
                if i < old_bs.len() {
                    assert(old_bs[i].wf() && old_bs[i].id < old(self).next_id_spec());
                }
            }
        }
        id
    }

    /// Whether a body with the given id is registered.
    pub fn has_body(&self, body: u64) -> (r: bool)
        ensures
            r == has_body_spec(self.bodies_view(), body),
    {
        let n = self.bodies.len();
        for i in 0..n
            invariant
                n == self.bodies_view().len(),
                forall|j: int| 0 <= j < i ==> (#[trigger] self.bodies_view()[j]).id != body,
        {
            if self.bodies[i].id == body {
                return true;
            }
        }
        false
    }

    /// Whether a candidate's occupied arc collides with any placed collider
    /// on the same body.
    pub fn overlaps_anything(&self, candidate: &PlacedCollider) -> (r: bool)
        ensures
            r == overlaps_spec(self.entries_view(), *candidate),
    {
        let n = self.entries.len();
        for i in 0..n
            invariant
                n == self.entries_view().len(),
                forall|j: int|
                    0 <= j < i ==> !colliding(
                        (#[trigger] self.entries_view()[j]).placed,
                        *candidate,
                    ),
        {
            if is_colliding(&self.entries[i].placed, candidate) {
                return true;
            }
        }
        false
    }

    /// The single gated insertion point. Rejects a candidate whose body is
    /// unknown or whose occupied arc overlaps an existing placement on the
    /// body; otherwise creates the entry atomically and returns its fresh
    /// identity.
    pub fn try_place(&mut self, placed: PlacedCollider, kind: OccupantKind) -> (r: Result<
        u64,
        PlacementError,
    >)
        requires
            old(self).wf(),
            old(self).next_id_spec() < u64::MAX,
        ensures
            final(self).wf(),
            match r {
                Ok(id) => {
                    &&& has_body_spec(old(self).bodies_view(), placed.placement.body)
                    &&& !overlaps_spec(old(self).entries_view(), placed)
                    &&& id as int == old(self).next_id_spec()
                    &&& forall|i: int|
                        0 <= i < old(self).entries_view().len() ==> (#[trigger] old(
                            self,
                        ).entries_view()[i]).id != id
                    &&& final(self).entries_view() == old(self).entries_view().push(
                        SurfaceEntry { id, placed, kind },
                    )
                    &&& final(self).bodies_view() == old(self).bodies_view()
                    &&& final(self).next_id_spec() == old(self).next_id_spec() + 1
                },
                Err(PlacementError::NoSuchBody) => {
                    &&& !has_body_spec(old(self).bodies_view(), placed.placement.body)
                    &&& *final(self) == *old(self)
                },
                Err(PlacementError::Overlapping) => {
                    &&& has_body_spec(old(self).bodies_view(), placed.placement.body)
                    &&& overlaps_spec(old(self).entries_view(), placed)
                    &&& *final(self) == *old(self)
                },
            },
    {
        if !self.has_body(placed.placement.body) {
            return Err(PlacementError::NoSuchBody);
        }
        if self.overlaps_anything(&placed) {
            return Err(PlacementError::Overlapping);
        }
        let id = self.next_id;
        self.next_id = self.next_id + 1;
        self.entries.push(SurfaceEntry { id, placed, kind });
        proof {
            let es = final(self).entries_view();
            let old_es = old(self).entries_view();
            assert forall|i: int, j: int| 0 <= i < j < es.len() implies (#[trigger] es[i]).id != (
            #[trigger] es[j]).id by {
                if j < old_es.len() {
                    assert(old_es[i].id != old_es[j].id);
                } else {
                    assert(old_es[i].id < id);
                }
            }
        }
        Ok(id)
    }

    /// Drops the entry with the given id, placement and collider together;
    /// reports whether one was found. Everything else is kept in order.
    pub fn remove_entity(&mut self, id: u64) -> (removed: bool)
        requires
            old(self).wf(),
        ensures
            final(self).wf(),
            final(self).entries_view() == remove_id_spec(old(self).entries_view(), id),
            final(self).bodies_view() == old(self).bodies_view(),
            final(self).next_id_spec() == old(self).next_id_spec(),
            removed == exists|i: int|
                0 <= i < old(self).entries_view().len() && (#[trigger] old(
                    self,
                ).entries_view()[i]).id == id,
    {
        let ghost old_es = self.entries@;
        let mut kept: Vec<SurfaceEntry> = Vec::new();
        let mut found = false;
        let n = self.entries.len();
        for i in 0..n
            invariant
                n == old_es.len(),
                *self == *old(self),
                old_es == old(self).entries_view(),
                kept@ == remove_id_spec(old_es.take(i as int), id),
                found == exists|j: int| 0 <= j < i && (#[trigger] old_es[j]).id == id,
        {
            let e = self.entries[i];
            proof {
                assert(old_es.take(i as int + 1).drop_last() =~= old_es.take(i as int));
                assert(old_es.take(i as int + 1).last() == old_es[i as int]);
            }
            if e.id == id {
                found = true;
            } else {
                kept.push(e);
            }
        }
        proof {
            assert(old_es.take(n as int) =~= old_es);
            lemma_remove_id_keeps_shape(old_es, id, old(self).next_id_spec());
        }
        self.entries = kept;
        proof {
            let es = final(self).entries_view();
            let removed_es = remove_id_spec(old_es, id);
            assert(es == removed_es);
            let bound = final(self).next_id_spec();
            assert forall|i: int| 0 <= i < es.len() implies (#[trigger] es[i]).id < bound by {
                assert(removed_es[i].id < old(self).next_id_spec());
            }
            let bs = final(self).bodies_view();
            assert(bs == old(self).bodies_view());
            assert forall|i: int| 0 <= i < bs.len() implies (#[trigger] bs[i]).wf() && bs[i].id
                < bound by {
                assert(old(self).bodies_view()[i].wf());
                assert(old(self).bodies_view()[i].id < old(self).next_id_spec());
            }
            assert forall|i: int, j: int| 0 <= i < j < bs.len() implies (#[trigger] bs[i]).id != (
            #[trigger] bs[j]).id by {
                assert(old(self).bodies_view()[i].id != old(self).bodies_view()[j].id);
            }
        }
        found
    }

    /// Uniformly samples angles on the body and returns the first whose
    /// candidate collider of the given width overlaps nothing, or `None`
    /// after `max_tries` colliding samples. On a body with no placements at
    /// all, one try suffices, so some angle is always returned.
    pub fn get_random_valid_placement(&self, body: u64, width: u32, max_tries: u32) -> (r: Option<
        AngularScalar,
    >)
        ensures
            match r {
                Some(pos) => !overlaps_spec(
                    self.entries_view(),
                    PlacedCollider {
                        placement: SurfacePlacement { body, position: pos },
                        collider: SurfaceCollider { width },
                    },
                ),
                None => true,
            },
            (max_tries >= 1 && forall|i: int|
                0 <= i < self.entries_view().len() ==> (#[trigger] self.entries_view()[i]).placed.placement.body
                    != body) ==> r.is_some(),
    {
        for t in 0..max_tries
            invariant
                t == 0 || exists|i: int|
                    0 <= i < self.entries_view().len() && (#[trigger] self.entries_view()[i]).placed.placement.body
                        == body,
        {
            let sample = random_angle();
            let position = AngularScalar::new(sample as i64);
            let candidate = PlacedCollider {
                placement: SurfacePlacement { body, position },
                collider: SurfaceCollider { width },
            };
            if !self.overlaps_anything(&candidate) {
                return Some(position);
            }
            proof {
                let i = choose|i: int|
                    0 <= i < self.entries_view().len() && colliding(
                        #[trigger] self.entries_view()[i].placed,
                        candidate,
                    );
                assert(self.entries_view()[i].placed.placement.body == body);
            }
        }
        None
    }
}

/// Relies on rand's `thread_rng` and `Rng::gen_range`: sampling over the
/// half-open range `0..PERIOD` returns a value below `PERIOD` (the range is
/// never empty, so the call does not panic).
#[verifier::external_body]
fn random_angle() -> (r: u32)
    ensures
        r < PERIOD,
{
    rand::Rng::gen_range(&mut rand::thread_rng(), 0..PERIOD)
}

} // verus!
