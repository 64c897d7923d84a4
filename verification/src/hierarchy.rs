//! The transform hierarchy store and propagator.
//!
//! Entities are rows with a generation tag, so a stale handle to a
//! recycled row is detected.  Each alive entity owns at most one local
//! transform and at most one parent edge; the edge relation is kept
//! acyclic, witnessed by a stored visitation order in which every parent
//! precedes its children.  [`TransformSystem::propagate`] walks that
//! order and recomputes the world transform of every entity whose local
//! transform, or an ancestor's, changed since the last walk.
use vstd::prelude::*;

use crate::bits::{bitset_add, bitset_clear, bitset_contains, bitset_items, bitset_new, elems,
    strictly_ascending, MAX_INDEX};
use crate::transform::{in_finite_range, mat_prod, Transform};
use crate::Error;

verus! {

/// A stable entity handle: a row index and the generation the row had
/// when the handle was issued.
#[derive(Debug, Clone, Copy, PartialEq, Eq, Structural)]
pub struct Entity {
    pub index: u32,
    pub generation: u32,
}

/// The parent component: a directed edge from the owning entity to
/// `entity`.
#[derive(Debug, Clone, Copy, PartialEq, Eq, Structural)]
pub struct Parent {
    pub entity: Entity,
}

impl Parent {
    pub fn new(entity: Entity) -> (r: Parent)
        ensures
            r.entity == entity,
    {
        Parent { entity }
    }
}

/// The hierarchy store and transform propagator.
pub struct TransformSystem {
    pub generations: Vec<u32>,
    pub alive: Vec<bool>,
    pub locals: Vec<Option<Transform>>,
    pub globals: Vec<Option<Transform>>,
    pub parents: Vec<Option<u32>>,
    pub order: Vec<u32>,
    pub free_rows: Vec<u32>,
    pub local_modified: hibitset::BitSet,
    pub global_modified: hibitset::BitSet,
}

impl TransformSystem {
    pub open spec fn nrows(&self) -> int {
        self.alive@.len() as int
    }

    pub open spec fn alive_row(&self, i: int) -> bool {
        0 <= i < self.nrows() && self.alive@[i]
    }

    /// The handle `e` names a live row: the row exists, is alive, and
    /// the generations match.
    pub open spec fn is_alive_spec(&self, e: Entity) -> bool {
        &&& (e.index as int) < self.nrows()
        &&& self.alive@[e.index as int]
        &&& self.generations@[e.index as int] == e.generation
    }

    pub open spec fn local_of(&self, i: int) -> Option<Transform> {
        self.locals@[i]
    }

    pub open spec fn global_of(&self, i: int) -> Option<Transform> {
        self.globals@[i]
    }

    pub open spec fn parent_of(&self, i: int) -> Option<u32> {
        self.parents@[i]
    }

    /// Row ids marked since the last propagation: a changed local
    /// transform or a changed parent edge.
    pub open spec fn marked(&self, i: int) -> bool {
        elems(&self.local_modified).contains(i as u32)
    }

    /// Row ids whose world transform the last propagation recomputed.
    pub open spec fn dirty_global(&self, i: int) -> bool {
        elems(&self.global_modified).contains(i as u32)
    }

    /// Structural well-formedness: rows line up; the stored visitation
    /// order enumerates exactly the alive rows, each once, parents
    /// first; parent edges stay among alive rows; dead rows carry
    /// nothing; stored transforms are well-shaped and finite.
    pub open spec fn wf_core(&self) -> bool {
        &&& self.generations@.len() == self.nrows()
        &&& self.locals@.len() == self.nrows()
        &&& self.globals@.len() == self.nrows()
        &&& self.parents@.len() == self.nrows()
        &&& self.nrows() <= MAX_INDEX
        &&& self.order@.no_duplicates()
        &&& (forall|x: u32| self.order@.contains(x) <==> self.alive_row(x as int))
        &&& (forall|k: int|
            0 <= k < self.order@.len() && #[trigger] self.parents@[self.order@[k] as int] is Some
                ==> exists|k2: int|
                0 <= k2 < k && self.order@[k2] == self.parents@[self.order@[k] as int]->Some_0)
        &&& (forall|i: int|
            0 <= i < self.nrows() && #[trigger] self.parents@[i] is Some ==> {
                let p = self.parents@[i]->Some_0;
                &&& self.alive@[i]
                &&& (p as int) < self.nrows()
                &&& self.alive@[p as int]
                &&& p != i
            })
        &&& (forall|i: int|
            0 <= i < self.nrows() && !self.alive@[i] ==> #[trigger] self.locals@[i] is None
                && self.globals@[i] is None && self.parents@[i] is None)
        &&& (forall|i: int|
            0 <= i < self.nrows() && #[trigger] self.locals@[i] is Some ==> self.locals@[i]->Some_0.wf()
                && self.locals@[i]->Some_0.is_finite_spec())
        &&& (forall|i: int|
            0 <= i < self.nrows() && #[trigger] self.globals@[i] is Some
                ==> self.globals@[i]->Some_0.wf() && self.globals@[i]->Some_0.is_finite_spec())
    }

    /// Whether following parent edges from row `f` reaches row `t`.
    pub open spec fn reaches(&self, f: int, t: int) -> bool
        decreases self.order@.index_of(f as u32),
        when self.wf_core() && self.alive_row(f)
    {
        f == t || {
            match self.parents@[f] {
                Some(p) => {
                    proof {
                        lemma_parent_pos(*self, f);
                    }
                    self.reaches(p as int, t)
                },
                None => false,
            }
        }
    }

    /// The world transform a row must have: its local transform,
    /// composed under its parent's world transform when the parent
    /// carries a local transform of its own.
    pub open spec fn world_of(&self, i: int) -> Seq<int>
        decreases self.order@.index_of(i as u32),
        when self.wf_core() && self.alive_row(i) && self.locals@[i] is Some
    {
        match self.parents@[i] {
            Some(p) => if self.locals@[p as int] is Some {
                proof {
                    lemma_parent_pos(*self, i);
                }
                mat_prod(self.world_of(p as int), self.locals@[i]->Some_0.view_entries())
            } else {
                self.locals@[i]->Some_0.view_entries()
            },
            None => self.locals@[i]->Some_0.view_entries(),
        }
    }

    /// Whether row `i`'s world transform is out of date: its own local
    /// transform changed, or that of an ancestor it composes under.
    pub open spec fn anc_marked(&self, i: int) -> bool
        decreases self.order@.index_of(i as u32),
        when self.wf_core() && self.alive_row(i)
    {
        self.marked(i) || {
            match self.parents@[i] {
                Some(p) => if self.locals@[p as int] is Some {
                    proof {
                        lemma_parent_pos(*self, i);
                    }
                    self.anc_marked(p as int)
                } else {
                    false
                },
                None => false,
            }
        }
    }

    /// Between walks, every entity that no mark reaches still has the
    /// world transform the current edges and locals demand.
    pub open spec fn clean_ok(&self) -> bool {
        forall|i: int|
            self.alive_row(i) && #[trigger] self.locals@[i] is Some && !self.anc_marked(i) ==> {
                &&& self.globals@[i] is Some
                &&& self.globals@[i]->Some_0.view_entries() == self.world_of(i)
            }
    }

    pub open spec fn wf(&self) -> bool {
        &&& self.wf_core()
        &&& self.clean_ok()
    }

    /// Creates an empty store.
    pub fn new() -> (r: TransformSystem)
        ensures
            r.wf(),
            r.nrows() == 0,
            r.order@.len() == 0,
    {
        let r = TransformSystem {
            generations: Vec::new(),
            alive: Vec::new(),
            locals: Vec::new(),
            globals: Vec::new(),
            parents: Vec::new(),
            order: Vec::new(),
            free_rows: Vec::new(),
            local_modified: bitset_new(),
            global_modified: bitset_new(),
        };
        proof {
            assert forall|x: u32| r.order@.contains(x) implies r.alive_row(x as int) by {}
        }
        r
    }

    /// Whether the handle still names a live entity.
    pub fn is_alive(&self, e: Entity) -> (r: bool)
        requires
            self.wf(),
        ensures
            r == self.is_alive_spec(e),
    {
        (e.index as usize) < self.alive.len() && self.alive[e.index as usize]
            && self.generations[e.index as usize] == e.generation
    }

    /// Creates a new entity with no transform, no parent and no mesh
    /// membership, reusing a recycled row under a fresh generation when
    /// one is free.
    pub fn create_entity(&mut self) -> (r: Result<Entity, Error>)
        requires
            old(self).wf(),
        ensures
            final(self).wf(),
            match r {
                Ok(e) => {
                    &&& final(self).is_alive_spec(e)
                    &&& !old(self).is_alive_spec(e)
                    &&& !old(self).alive_row(e.index as int)
                    &&& old(self).nrows() <= final(self).nrows() <= old(self).nrows() + 1
                    &&& final(self).local_of(e.index as int) is None
                    &&& final(self).parent_of(e.index as int) is None
                    &&& forall|i: int|
                        0 <= i < old(self).nrows() && i != e.index ==> {
                            &&& #[trigger] final(self).alive@[i] == old(self).alive@[i]
                            &&& final(self).locals@[i] == old(self).locals@[i]
                            &&& final(self).globals@[i] == old(self).globals@[i]
                            &&& final(self).parents@[i] == old(self).parents@[i]
                            &&& final(self).generations@[i] == old(self).generations@[i]
                        }
                    &&& forall|e2: Entity|
                        old(self).is_alive_spec(e2) ==> #[trigger] final(self).is_alive_spec(e2)
                },
                Err(err) => {
                    &&& err == Error::CapacityExceeded
                    &&& *final(self) == *old(self)
                    &&& old(self).nrows() >= MAX_INDEX
                },
            },
    {
        // A recycled row comes back under a bumped generation.
        let n_free = self.free_rows.len();
        if n_free > 0 {
            let row = self.free_rows[n_free - 1];
            let i = row as usize;
            if i < self.alive.len() && !self.alive[i] && self.generations[i] < u32::MAX {
                let ghost pre = *self;
                self.free_rows.pop();
                let genr = self.generations[i] + 1;
                self.generations[i] = genr;
                self.alive[i] = true;
                self.order.push(row);
                let e = Entity { index: row, generation: genr };
                proof {
                    lemma_wake_row(pre, *self, row);
                }
                return Ok(e);
            }
            // A stale free-list entry names a row that is not
            // recyclable; append a fresh row instead.
        }
        if self.alive.len() >= MAX_INDEX as usize {
            return Err(Error::CapacityExceeded);
        }
        let row: u32 = self.alive.len() as u32;
        let ghost pre = *self;
        self.generations.push(0);
        self.alive.push(true);
        self.locals.push(None);
        self.globals.push(None);
        self.parents.push(None);
        self.order.push(row);
        let e = Entity { index: row, generation: 0 };
        proof {
            lemma_append_row(pre, *self, row);
        }
        Ok(e)
    }

    /// Records a new local transform for a live entity and marks it
    /// modified; rejects a dead handle and a non-finite transform, in
    /// that order, changing nothing.
    pub fn set_local(&mut self, e: Entity, t: Transform) -> (r: Result<(), Error>)
        requires
            old(self).wf(),
        ensures
            final(self).wf(),
            r is Ok <==> old(self).is_alive_spec(e) && t.wf() && t.is_finite_spec(),
            match r {
                Ok(()) => {
                    &&& final(self).local_of(e.index as int) == Some(t)
                    &&& final(self).marked(e.index as int)
                    &&& final(self).nrows() == old(self).nrows()
                    &&& final(self).alive@ == old(self).alive@
                    &&& final(self).generations@ == old(self).generations@
                    &&& final(self).parents@ == old(self).parents@
                    &&& final(self).globals@ == old(self).globals@
                    &&& final(self).order@ == old(self).order@
                    &&& forall|i: int|
                        0 <= i < old(self).nrows() && i != e.index
                            ==> #[trigger] final(self).locals@[i] == old(self).locals@[i]
                    &&& forall|i: int|
                        0 <= i < old(self).nrows() && i != e.index ==> (#[trigger] final(self).marked(i) <==> old(self).marked(i))
                },
                Err(err) => {
                    &&& *final(self) == *old(self)
                    &&& (err == Error::DeadEntity <==> !old(self).is_alive_spec(e))
                    &&& (err == Error::NonFiniteTransform <==> old(self).is_alive_spec(e) && !(
                    t.wf() && t.is_finite_spec()))
                },
            },
    {
        if !self.is_alive(e) {
            return Err(Error::DeadEntity);
        }
        if !(t.entries.len() == 16 && t.is_finite()) {
            return Err(Error::NonFiniteTransform);
        }
        let ghost pre = *self;
        let i = e.index as usize;
        self.locals[i] = Some(t);
        bitset_add(&mut self.local_modified, e.index);
        proof {
            lemma_set_local_ok(pre, *self, e.index);
        }
        Ok(())
    }

    /// Whether following parent edges from row `from` reaches row
    /// `target`; used to refuse an edge that would close a cycle.
    pub fn reaches_row(&self, from: u32, target: u32) -> (r: bool)
        requires
            self.wf(),
            self.alive_row(from as int),
        ensures
            r == self.reaches(from as int, target as int),
    {
        let mut cur: u32 = from;
        loop
            invariant
                self.wf(),
                self.alive_row(cur as int),
                self.reaches(from as int, target as int) == self.reaches(
                    cur as int,
                    target as int,
                ),
            decreases self.order@.index_of(cur),
        {
            if cur == target {
                return true;
            }
            match self.parents[cur as usize] {
                Some(q) => {
                    proof {
                        lemma_parent_pos(*self, cur as int);
                    }
                    cur = q;
                },
                None => {
                    proof {
                        assert(!self.reaches(cur as int, target as int));
                    }
                    return false;
                },
            }
        }
    }

    /// What a successful parent update changes: the one edge, a mark on
    /// the entity, and nothing else but the internal visitation order.
    pub open spec fn set_parent_rel(
        pre: TransformSystem,
        post: TransformSystem,
        e: Entity,
        pnew: Option<u32>,
    ) -> bool {
        &&& post.alive@ == pre.alive@
        &&& post.generations@ == pre.generations@
        &&& post.locals@ == pre.locals@
        &&& post.globals@ == pre.globals@
        &&& post.parents@ == pre.parents@.update(e.index as int, pnew)
        &&& elems(&post.local_modified) == elems(&pre.local_modified).insert(e.index)
        &&& post.global_modified == pre.global_modified
    }

    /// Updates an entity's parent edge.  A dead entity or parent is
    /// rejected; an edge that would close a cycle — the new parent being
    /// the entity itself or one of its descendants — is rejected with
    /// `CyclicParent`.  Rejection leaves the hierarchy unchanged.  On
    /// success the edge is replaced and the entity is marked, so the
    /// next propagation recomputes its subtree.
    pub fn set_parent(&mut self, e: Entity, parent: Option<Entity>) -> (r: Result<(), Error>)
        requires
            old(self).wf(),
        ensures
            final(self).wf(),
            match r {
                Ok(()) => {
                    &&& old(self).is_alive_spec(e)
                    &&& match parent {
                        Some(p) => {
                            &&& old(self).is_alive_spec(p)
                            &&& !old(self).reaches(p.index as int, e.index as int)
                            &&& Self::set_parent_rel(*old(self), *final(self), e, Some(p.index))
                        },
                        None => Self::set_parent_rel(*old(self), *final(self), e, None),
                    }
                },
                Err(err) => {
                    &&& *final(self) == *old(self)
                    &&& (err == Error::DeadEntity || err == Error::CyclicParent)
                    &&& (err == Error::DeadEntity <==> !old(self).is_alive_spec(e) || (
                    parent is Some && !old(self).is_alive_spec(parent->Some_0)))
                    &&& (err == Error::CyclicParent <==> old(self).is_alive_spec(e) && parent is Some
                        && old(self).is_alive_spec(parent->Some_0) && old(self).reaches(
                        parent->Some_0.index as int,
                        e.index as int,
                    ))
                },
            },
    {
        if !self.is_alive(e) {
            return Err(Error::DeadEntity);
        }
        let pe = match parent {
            Some(p) => {
                if !self.is_alive(p) {
                    return Err(Error::DeadEntity);
                }
                p
            },
            None => {
                // Dropping the edge never invalidates the stored order:
                // it only removes a constraint.
                let ghost pre = *self;
                self.parents[e.index as usize] = None;
                bitset_add(&mut self.local_modified, e.index);
                proof {
                    lemma_reparent_wf(pre, *self, e.index, None);
                }
                return Ok(());
            },
        };
        // Walk the new parent's ancestor chain; hitting `e` means the
        // edge would close a cycle.
        if self.reaches_row(pe.index, e.index) {
            return Err(Error::CyclicParent);
        }
        // No cycle.  Mark the subtree of `e`, then rebuild the order as
        // the untouched rows followed by the subtree, preserving the
        // relative order of each part.
        let n: usize = self.alive.len();
        let mut in_sub: Vec<bool> = Vec::new();
        while in_sub.len() < n
            invariant
                in_sub@.len() <= n,
                forall|j: int| 0 <= j < in_sub@.len() ==> !in_sub@[j],
            decreases n - in_sub@.len(),
        {
            in_sub.push(false);
        }
        let olen: usize = self.order.len();
        let mut k: usize = 0;
        while k < olen
            invariant
                self.wf(),
                *self == *old(self),
                self.is_alive_spec(e),
                n == self.nrows(),
                olen == self.order@.len(),
                k <= olen,
                in_sub@.len() == n,
                forall|k2: int|
                    0 <= k2 < k ==> #[trigger] in_sub@[self.order@[k2] as int] == self.reaches(
                        self.order@[k2] as int,
                        e.index as int,
                    ),
                forall|j: int|
                    0 <= j < n && !(exists|k2: int| 0 <= k2 < k && self.order@[k2] == j)
                        ==> !in_sub@[j],
            decreases olen - k,
        {
            let i: u32 = self.order[k];
            proof {
                assert(self.order@.contains(i));
                assert(self.alive_row(i as int));
                lemma_index_of_unique(self.order@, i, k as int);
            }
            let is_sub: bool = if i == e.index {
                true
            } else {
                match self.parents[i as usize] {
                    Some(q) => {
                        proof {
                            lemma_parent_pos(*self, i as int);
                            let k2 = self.order@.index_of(q);
                            assert(in_sub@[self.order@[k2] as int] == self.reaches(
                                q as int,
                                e.index as int,
                            ));
                        }
                        in_sub[q as usize]
                    },
                    None => false,
                }
            };
            let ghost prev_in_sub = in_sub@;
            in_sub[i as usize] = is_sub;
            proof {
                assert(is_sub == self.reaches(i as int, e.index as int));
                assert forall|k2: int|
                    0 <= k2 < k + 1 implies #[trigger] in_sub@[self.order@[k2] as int]
                        == self.reaches(self.order@[k2] as int, e.index as int) by {
                    assert(self.order@[k as int] == i);
                    if k2 < k {
                        assert(self.order@.contains(self.order@[k2]));
                        assert(self.alive_row(self.order@[k2] as int));
                        if self.order@[k2] == i {
                            lemma_index_of_unique(self.order@, i, k2);
                            lemma_index_of_unique(self.order@, i, k as int);
                            assert(false);
                        }
                        assert(in_sub@[self.order@[k2] as int]
                            == prev_in_sub[self.order@[k2] as int]);
                    }
                }
            }
            k = k + 1;
        }
        // Split the order into the untouched part and the subtree.
        let mut rest: Vec<u32> = Vec::new();
        let mut sub: Vec<u32> = Vec::new();
        let mut k: usize = 0;
        while k < olen
            invariant
                self.wf(),
                *self == *old(self),
                self.is_alive_spec(e),
                n == self.nrows(),
                olen == self.order@.len(),
                k <= olen,
                in_sub@.len() == n,
                forall|k2: int|
                    0 <= k2 < olen ==> #[trigger] in_sub@[self.order@[k2] as int] == self.reaches(
                        self.order@[k2] as int,
                        e.index as int,
                    ),
                forall|x: u32|
                    #[trigger] rest@.contains(x) <==> exists|k2: int|
                        0 <= k2 < k && self.order@[k2] == x && !self.reaches(
                            x as int,
                            e.index as int,
                        ),
                forall|x: u32|
                    #[trigger] sub@.contains(x) <==> exists|k2: int|
                        0 <= k2 < k && self.order@[k2] == x && self.reaches(
                            x as int,
                            e.index as int,
                        ),
                forall|j: int|
                    0 <= j < rest@.len() ==> self.order@.index_of(#[trigger] rest@[j]) < k
                        && self.order@.contains(rest@[j]),
                forall|j: int|
                    0 <= j < sub@.len() ==> self.order@.index_of(#[trigger] sub@[j]) < k
                        && self.order@.contains(sub@[j]),
                forall|j1: int, j2: int|
                    0 <= j1 < j2 < rest@.len() ==> self.order@.index_of(rest@[j1])
                        < self.order@.index_of(rest@[j2]),
                forall|j1: int, j2: int|
                    0 <= j1 < j2 < sub@.len() ==> self.order@.index_of(sub@[j1])
                        < self.order@.index_of(sub@[j2]),
            decreases olen - k,
        {
            let i: u32 = self.order[k];
            proof {
                assert(self.order@.contains(i));
                assert(self.alive_row(i as int));
                lemma_index_of_unique(self.order@, i, k as int);
                assert(in_sub@[self.order@[k as int] as int] == self.reaches(
                    i as int,
                    e.index as int,
                ));
            }
            let ghost prev_rest = rest@;
            let ghost prev_sub = sub@;
            if in_sub[i as usize] {
                sub.push(i);
                proof {
                    assert forall|x: u32| #[trigger] sub@.contains(x) implies exists|k2: int|
                        0 <= k2 < k + 1 && self.order@[k2] == x && self.reaches(
                            x as int,
                            e.index as int,
                        ) by {
                        if x == i {
                            assert(self.order@[k as int] == x);
                        } else {
                            lemma_push_contains(prev_sub, i, x);
                        }
                    }
                    assert forall|x: u32|
                        (exists|k2: int|
                            0 <= k2 < k + 1 && self.order@[k2] == x && self.reaches(
                                x as int,
                                e.index as int,
                            )) implies #[trigger] sub@.contains(x) by {
                        if x == i {
                            assert(sub@[sub@.len() - 1] == i);
                        } else {
                            let k2 = choose|k2: int|
                                0 <= k2 < k + 1 && self.order@[k2] == x && self.reaches(
                                    x as int,
                                    e.index as int,
                                );
                            assert(k2 != k);
                            assert(prev_sub.contains(x));
                            let j = choose|j: int| 0 <= j < prev_sub.len() && prev_sub[j] == x;
                            assert(sub@[j] == x);
                        }
                    }
                    assert forall|j: int|
                        0 <= j < sub@.len() implies self.order@.index_of(#[trigger] sub@[j]) < k
                        + 1 && self.order@.contains(sub@[j]) by {
                        if j < prev_sub.len() {
                            assert(sub@[j] == prev_sub[j]);
                        } else {
                            assert(sub@[j] == i);
                        }
                    }
                    assert forall|j1: int, j2: int|
                        0 <= j1 < j2 < sub@.len() implies self.order@.index_of(sub@[j1])
                        < self.order@.index_of(sub@[j2]) by {
                        if j2 < prev_sub.len() {
                            assert(sub@[j1] == prev_sub[j1] && sub@[j2] == prev_sub[j2]);
                        } else {
                            assert(sub@[j2] == i);
                            assert(sub@[j1] == prev_sub[j1]);
                            assert(self.order@.index_of(prev_sub[j1]) < k);
                        }
                    }
                    assert(rest@ == prev_rest);
                }
            } else {
                rest.push(i);
                proof {
                    assert forall|x: u32| #[trigger] rest@.contains(x) implies exists|k2: int|
                        0 <= k2 < k + 1 && self.order@[k2] == x && !self.reaches(
                            x as int,
                            e.index as int,
                        ) by {
                        if x == i {
                            assert(self.order@[k as int] == x);
                        } else {
                            lemma_push_contains(prev_rest, i, x);
                        }
                    }
                    assert forall|x: u32|
                        (exists|k2: int|
                            0 <= k2 < k + 1 && self.order@[k2] == x && !self.reaches(
                                x as int,
                                e.index as int,
                            )) implies #[trigger] rest@.contains(x) by {
                        if x == i {
                            assert(rest@[rest@.len() - 1] == i);
                        } else {
                            let k2 = choose|k2: int|
                                0 <= k2 < k + 1 && self.order@[k2] == x && !self.reaches(
                                    x as int,
                                    e.index as int,
                                );
                            assert(k2 != k);
                            assert(prev_rest.contains(x));
                            let j = choose|j: int| 0 <= j < prev_rest.len() && prev_rest[j] == x;
                            assert(rest@[j] == x);
                        }
                    }
                    assert forall|j: int|
                        0 <= j < rest@.len() implies self.order@.index_of(#[trigger] rest@[j]) < k
                        + 1 && self.order@.contains(rest@[j]) by {
                        if j < prev_rest.len() {
                            assert(rest@[j] == prev_rest[j]);
                        } else {
                            assert(rest@[j] == i);
                        }
                    }
                    assert forall|j1: int, j2: int|
                        0 <= j1 < j2 < rest@.len() implies self.order@.index_of(rest@[j1])
                        < self.order@.index_of(rest@[j2]) by {
                        if j2 < prev_rest.len() {
                            assert(rest@[j1] == prev_rest[j1] && rest@[j2] == prev_rest[j2]);
                        } else {
                            assert(rest@[j2] == i);
                            assert(rest@[j1] == prev_rest[j1]);
                            assert(self.order@.index_of(prev_rest[j1]) < k);
                        }
                    }
                    assert(sub@ == prev_sub);
                }
            }
            k = k + 1;
        }
        // Concatenate and commit.
        let ghost rest_seq = rest@;
        let ghost sub_seq = sub@;
        let mut new_order = rest;
        let mut k: usize = 0;
        while k < sub.len()
            invariant
                k <= sub@.len(),
                sub@ == sub_seq,
                new_order@ == rest_seq + sub_seq.subrange(0, k as int),
            decreases sub@.len() - k,
        {
            new_order.push(sub[k]);
            proof {
                assert(rest_seq + sub_seq.subrange(0, k as int + 1) =~= (rest_seq
                    + sub_seq.subrange(0, k as int)).push(sub_seq[k as int]));
            }
            k = k + 1;
        }
        proof {
            assert(sub_seq.subrange(0, sub_seq.len() as int) =~= sub_seq);
            assert(new_order@ == rest_seq + sub_seq);
        }
        let ghost pre = *self;
        self.parents[e.index as usize] = Some(pe.index);
        self.order = new_order;
        bitset_add(&mut self.local_modified, e.index);
        proof {
            lemma_reorder_wf(pre, *self, e.index, pe.index, rest_seq, sub_seq);
        }
        Ok(())
    }

    /// Deletes a live entity: its children become roots for the next
    /// propagation (each marked, so their stale world transforms are
    /// recomputed rather than reused), the row is cleared, recycled and
    /// leaves the visitation order.  A dead handle is rejected.
    pub fn delete_entity(&mut self, e: Entity) -> (r: Result<(), Error>)
        requires
            old(self).wf(),
        ensures
            final(self).wf(),
            r is Ok <==> old(self).is_alive_spec(e),
            match r {
                Err(err) => err == Error::DeadEntity && *final(self) == *old(self),
                Ok(()) => {
                    &&& !final(self).is_alive_spec(e)
                    &&& final(self).nrows() == old(self).nrows()
                    &&& final(self).alive@ == old(self).alive@.update(e.index as int, false)
                    &&& final(self).generations@ == old(self).generations@
                    &&& final(self).locals@[e.index as int] is None
                    &&& final(self).globals@[e.index as int] is None
                    &&& final(self).parents@[e.index as int] is None
                    &&& forall|i: int|
                        0 <= i < old(self).nrows() && i != e.index ==> {
                            &&& #[trigger] final(self).locals@[i] == old(self).locals@[i]
                            &&& final(self).globals@[i] == old(self).globals@[i]
                            &&& final(self).parents@[i] == (
                            if old(self).parents@[i] == Some(e.index) {
                                None
                            } else {
                                old(self).parents@[i]
                            })
                        }
                    &&& forall|i: int|
                        0 <= i < old(self).nrows() && old(self).parents@[i] == Some(e.index)
                            ==> #[trigger] final(self).marked(i)
                    &&& forall|id: u32|
                        elems(&old(self).local_modified).contains(id) ==> elems(
                            &final(self).local_modified,
                        ).contains(id)
                },
            },
    {
        if !self.is_alive(e) {
            return Err(Error::DeadEntity);
        }
        let idx: u32 = e.index;
        let n: usize = self.alive.len();
        // Children of the deleted entity become roots, marked so their
        // next world transform is recomputed from their locals alone.
        let mut j: usize = 0;
        while j < n
            invariant
                self.wf(),
                j <= n,
                n == self.nrows(),
                self.alive_row(idx as int),
                idx == e.index,
                self.alive@ == old(self).alive@,
                self.generations@ == old(self).generations@,
                self.locals@ == old(self).locals@,
                self.globals@ == old(self).globals@,
                self.order@ == old(self).order@,
                self.global_modified == old(self).global_modified,
                self.parents@.len() == n,
                forall|i: int|
                    0 <= i < j ==> #[trigger] self.parents@[i] == (if old(self).parents@[i]
                        == Some(idx) {
                        None
                    } else {
                        old(self).parents@[i]
                    }),
                forall|i: int| j <= i < n ==> #[trigger] self.parents@[i] == old(self).parents@[i],
                forall|i: int|
                    0 <= i < j && old(self).parents@[i] == Some(idx) ==> #[trigger] self.marked(i),
                forall|id: u32|
                    elems(&old(self).local_modified).contains(id) ==> elems(
                        &self.local_modified,
                    ).contains(id),
            decreases n - j,
        {
            let is_child = match self.parents[j] {
                Some(q) => q == idx,
                None => false,
            };
            if is_child {
                let ghost prev = *self;
                self.parents[j] = None;
                bitset_add(&mut self.local_modified, j as u32);
                proof {
                    assert(prev.alive_row(j as int));
                    lemma_reparent_wf(prev, *self, j as u32, None);
                    assert forall|i: int|
                        0 <= i < j + 1 implies #[trigger] self.parents@[i] == (if old(self).parents@[i] == Some(idx) {
                            None
                        } else {
                            old(self).parents@[i]
                        }) by {
                        if i != j {
                            assert(self.parents@[i] == prev.parents@[i]);
                        }
                    }
                    assert forall|i: int|
                        0 <= i < j + 1 && old(self).parents@[i] == Some(idx) implies #[trigger] self
                        .marked(i) by {
                        if i != j {
                            assert(prev.marked(i));
                        }
                    }
                    assert forall|id: u32|
                        elems(&old(self).local_modified).contains(id) implies elems(
                        &self.local_modified,
                    ).contains(id) by {
                        assert(elems(&prev.local_modified).contains(id));
                    }
                }
            }
            j = j + 1;
        }
        // Clear the entity's own edge, then its transforms, then the row.
        let ghost prev2 = *self;
        self.parents[idx as usize] = None;
        bitset_add(&mut self.local_modified, idx);
        proof {
            lemma_reparent_wf(prev2, *self, idx, None);
        }
        let ghost prev3 = *self;
        self.locals[idx as usize] = None;
        self.globals[idx as usize] = None;
        proof {
            lemma_clear_row_transforms(prev3, *self, idx);
        }
        // Remove the row from the visitation order.
        proof {
            assert(self.order@.contains(idx));
        }
        let k: usize = Self::find_position(&self.order, idx);
        let ghost prev4 = *self;
        self.order.remove(k);
        self.alive[idx as usize] = false;
        self.free_rows.push(idx);
        proof {
            lemma_kill_row(prev4, *self, idx, k as int);
            assert forall|i: int|
                0 <= i < old(self).nrows() && old(self).parents@[i] == Some(idx) implies
                #[trigger] self.marked(i) by {
                assert(prev2.marked(i));
                assert(prev3.marked(i));
                assert(prev4.marked(i));
            }
        }
        Ok(())
    }

    /// Walks the visitation order, parents before children, and
    /// recomputes the world transform of every entity whose own local
    /// transform changed or that composes under a changed ancestor.
    /// Returns the recomputed entity ids, ascending.  When a derived
    /// transform leaves the finite range the walk reports
    /// `NonFiniteTransform` and nothing is applied, so no partial state
    /// is observable.
    pub fn propagate(&mut self) -> (r: Result<Vec<u32>, Error>)
        requires
            old(self).wf(),
        ensures
            final(self).wf(),
            match r {
                Ok(dirty) => {
                    &&& final(self).alive@ == old(self).alive@
                    &&& final(self).generations@ == old(self).generations@
                    &&& final(self).locals@ == old(self).locals@
                    &&& final(self).parents@ == old(self).parents@
                    &&& final(self).order@ == old(self).order@
                    // Every entity's world transform is consistent with
                    // the current edges and locals.
                    &&& forall|i: int|
                        final(self).alive_row(i) && #[trigger] final(self).locals@[i] is Some ==> {
                            &&& final(self).globals@[i] is Some
                            &&& final(self).globals@[i]->Some_0.view_entries() == old(self).world_of(i)
                        }
                    // Untouched rows keep their stored value.
                    &&& forall|i: int|
                        0 <= i < old(self).nrows() && !(old(self).alive_row(i) && old(self).locals@[i] is Some && old(self).anc_marked(i)) ==> #[trigger] final(self).globals@[i] == old(self).globals@[i]
                    // The returned ids are exactly the recomputed rows:
                    // those with a changed local or changed ancestor.
                    &&& strictly_ascending(dirty@)
                    &&& forall|id: u32|
                        dirty@.contains(id) <==> (old(self).alive_row(id as int) && old(self).locals@[id as int] is Some && old(self).anc_marked(id as int))
                    &&& forall|id: u32|
                        #[trigger] final(self).dirty_global(id as int) <==> dirty@.contains(id)
                    &&& elems(&final(self).local_modified) == Set::<u32>::empty()
                },
                Err(err) => {
                    &&& err == Error::NonFiniteTransform
                    &&& *final(self) == *old(self)
                    &&& exists|i: int|
                        old(self).alive_row(i) && #[trigger] old(self).locals@[i] is Some && !
                        in_finite_range(old(self).world_of(i))
                },
            },
            r is Ok <==> (forall|i: int|
                old(self).alive_row(i) && #[trigger] old(self).locals@[i] is Some
                    ==> in_finite_range(old(self).world_of(i))),
    {
        let n: usize = self.alive.len();
        let olen: usize = self.order.len();
        let mut scratch: Vec<Option<Transform>> = Vec::new();
        while scratch.len() < n
            invariant
                scratch@.len() <= n,
                forall|j: int| 0 <= j < scratch@.len() ==> #[trigger] scratch@[j] is None,
            decreases n - scratch@.len(),
        {
            scratch.push(None);
        }
        let mut new_dirty: hibitset::BitSet = bitset_new();
        let mut k: usize = 0;
        while k < olen
            invariant
                self.wf(),
                *self == *old(self),
                n == self.nrows(),
                olen == self.order@.len(),
                k <= olen,
                scratch@.len() == n,
                forall|id: u32|
                    elems(&new_dirty).contains(id) <==> (seen(self.order@, k as int, id)
                        && self.locals@[id as int] is Some && self.anc_marked(id as int)),
                forall|j: int|
                    0 <= j < n ==> (#[trigger] scratch@[j] is Some <==> (seen(
                        self.order@,
                        k as int,
                        j as u32,
                    ) && self.locals@[j] is Some && self.anc_marked(j))),
                forall|j: int|
                    0 <= j < n && #[trigger] scratch@[j] is Some ==> {
                        &&& scratch@[j]->Some_0.wf()
                        &&& scratch@[j]->Some_0.is_finite_spec()
                        &&& scratch@[j]->Some_0.view_entries() == self.world_of(j)
                    },
                forall|j: int|
                    0 <= j < n && seen(self.order@, k as int, j as u32)
                        && #[trigger] self.locals@[j] is Some ==> in_finite_range(self.world_of(j)),
            decreases olen - k,
        {
            let i: u32 = self.order[k];
            let iu = i as usize;
            proof {
                assert(self.order@.contains(i));
                assert(self.alive_row(i as int));
                lemma_index_of_unique(self.order@, i, k as int);
                assert(!seen(self.order@, k as int, i)) by {
                    if seen(self.order@, k as int, i) {
                        let k2 = choose|k2: int| 0 <= k2 < k && self.order@[k2] == i;
                        lemma_index_of_unique(self.order@, i, k2);
                    }
                }
            }
            let ghost prev_scratch = scratch@;
            let ghost prev_dirty_set = elems(&new_dirty);
            let mut pushed: bool = false;
            match &self.locals[iu] {
                Some(loc) => {
                    let self_dirty = bitset_contains(&self.local_modified, i);
                    let parent_dirty = match self.parents[iu] {
                        Some(p) => bitset_contains(&new_dirty, p),
                        None => false,
                    };
                    proof {
                        match self.parents@[i as int] {
                            Some(p) => {
                                lemma_parent_pos(*self, i as int);
                                assert(seen(self.order@, k as int, p)) by {
                                    let kp = self.order@.index_of(p);
                                    assert(0 <= kp < k && self.order@[kp] == p);
                                }
                            },
                            None => {},
                        }
                        assert((self_dirty || parent_dirty) == self.anc_marked(i as int));
                    }
                    if self_dirty || parent_dirty {
                        let newt: Transform = match self.parents[iu] {
                            Some(p) => {
                                let pu = p as usize;
                                proof {
                                    lemma_parent_pos(*self, i as int);
                                }
                                if self.locals[pu].is_some() {
                                    let prod = if parent_dirty {
                                        match &scratch[pu] {
                                            Some(pg) => pg.multiply(loc),
                                            None => {
                                                proof {
                                                    assert(false);
                                                }
                                                Err(Error::NonFiniteTransform)
                                            },
                                        }
                                    } else {
                                        proof {
                                            assert(!self.anc_marked(p as int));
                                        }
                                        match &self.globals[pu] {
                                            Some(pg) => pg.multiply(loc),
                                            None => {
                                                proof {
                                                    assert(false);
                                                }
                                                Err(Error::NonFiniteTransform)
                                            },
                                        }
                                    };
                                    match prod {
                                        Ok(t) => t,
                                        Err(err) => {
                                            proof {
                                                assert(self.world_of(i as int) == mat_prod(
                                                    self.world_of(p as int),
                                                    self.locals@[i as int]->Some_0.view_entries(),
                                                ));
                                                assert(!in_finite_range(self.world_of(i as int)));
                                            }
                                            return Err(err);
                                        },
                                    }
                                } else {
                                    loc.duplicate()
                                }
                            },
                            None => loc.duplicate(),
                        };
                        proof {
                            assert(newt.view_entries() == self.world_of(i as int));
                            assert(newt.wf() && newt.is_finite_spec());
                            assert(in_finite_range(self.world_of(i as int))) by {
                                assert forall|q: int| 0 <= q < 16 implies -crate::transform::ENTRY_LIMIT
                                    <= #[trigger] self.world_of(i as int)[q]
                                    <= crate::transform::ENTRY_LIMIT by {
                                    assert(self.world_of(i as int)[q] == newt.view_entries()[q]);
                                    assert(newt.view_entries()[q] == newt.entries@[q] as int);
                                }
                            }
                        }
                        scratch[iu] = Some(newt);
                        bitset_add(&mut new_dirty, i);
                        pushed = true;
                    }
                },
                None => {},
            }
            proof {
                assert forall|id: u32|
                    elems(&new_dirty).contains(id) <==> (seen(self.order@, k + 1, id)
                        && self.locals@[id as int] is Some && self.anc_marked(id as int)) by {
                    assert(seen(self.order@, k + 1, id) == (seen(self.order@, k as int, id) || id
                        == i)) by {
                        assert(self.order@[k as int] == i);
                        if seen(self.order@, k + 1, id) && !(id == i) {
                            let k2 = choose|k2: int| 0 <= k2 < k + 1 && self.order@[k2] == id;
                            assert(0 <= k2 < k && self.order@[k2] == id);
                        }
                        if seen(self.order@, k as int, id) {
                            let k2 = choose|k2: int| 0 <= k2 < k && self.order@[k2] == id;
                            assert(0 <= k2 < k + 1 && self.order@[k2] == id);
                        }
                    }
                    if pushed {
                        assert(elems(&new_dirty) == prev_dirty_set.insert(i));
                    } else {
                        assert(elems(&new_dirty) == prev_dirty_set);
                    }
                }
                assert forall|j: int|
                    0 <= j < n implies (#[trigger] scratch@[j] is Some <==> (seen(
                    self.order@,
                    k + 1,
                    j as u32,
                ) && self.locals@[j] is Some && self.anc_marked(j))) by {
                    assert(seen(self.order@, k + 1, j as u32) == (seen(
                        self.order@,
                        k as int,
                        j as u32,
                    ) || j == i as int)) by {
                        assert(self.order@[k as int] == i);
                        if seen(self.order@, k + 1, j as u32) && !(j == i as int) {
                            let k2 = choose|k2: int| 0 <= k2 < k + 1 && self.order@[k2] == j as u32;
                            assert(0 <= k2 < k && self.order@[k2] == j as u32);
                        }
                        if seen(self.order@, k as int, j as u32) {
                            let k2 = choose|k2: int| 0 <= k2 < k && self.order@[k2] == j as u32;
                            assert(0 <= k2 < k + 1 && self.order@[k2] == j as u32);
                        }
                    }
                    if j != i as int {
                        assert(scratch@[j] == prev_scratch[j]);
                    }
                }
                assert forall|j: int|
                    0 <= j < n && seen(self.order@, k + 1, j as u32)
                        && #[trigger] self.locals@[j] is Some implies in_finite_range(
                    self.world_of(j),
                ) by {
                    if j == i as int {
                        if !self.anc_marked(j) {
                            assert(self.globals@[j] is Some);
                            assert(self.globals@[j]->Some_0.view_entries() == self.world_of(j));
                            assert forall|q: int| 0 <= q < 16 implies
                                -crate::transform::ENTRY_LIMIT <= #[trigger] self.world_of(j)[q]
                                <= crate::transform::ENTRY_LIMIT by {
                                assert(self.world_of(j)[q]
                                    == self.globals@[j]->Some_0.entries@[q] as int);
                            }
                        }
                    } else {
                        assert(seen(self.order@, k as int, j as u32)) by {
                            let k2 = choose|k2: int| 0 <= k2 < k + 1 && self.order@[k2] == j as u32;
                            assert(self.order@[k as int] == i);
                            assert(0 <= k2 < k && self.order@[k2] == j as u32);
                        }
                    }
                }
            }
            k = k + 1;
        }
        // Commit: the recomputed transforms replace the stored ones.
        let ghost scratch0 = scratch@;
        let ghost dirty_set = elems(&new_dirty);
        let mut j: usize = 0;
        while j < n
            invariant
                j <= n,
                n == self.nrows() == old(self).nrows(),
                self.alive@ == old(self).alive@,
                self.generations@ == old(self).generations@,
                self.locals@ == old(self).locals@,
                self.parents@ == old(self).parents@,
                self.order@ == old(self).order@,
                self.local_modified == old(self).local_modified,
                self.global_modified == old(self).global_modified,
                self.free_rows@ == old(self).free_rows@,
                scratch@.len() == n,
                self.globals@.len() == n,
                forall|j2: int| j <= j2 < n ==> #[trigger] scratch@[j2] == scratch0[j2],
                forall|j2: int|
                    0 <= j2 < j ==> #[trigger] self.globals@[j2] == (if scratch0[j2] is Some {
                        scratch0[j2]
                    } else {
                        old(self).globals@[j2]
                    }),
                forall|j2: int|
                    j <= j2 < n ==> #[trigger] self.globals@[j2] == old(self).globals@[j2],
            decreases n - j,
        {
            let mut taken: Option<Transform> = None;
            core::mem::swap(&mut taken, &mut scratch[j]);
            match taken {
                Some(t) => {
                    self.globals[j] = Some(t);
                },
                None => {},
            }
            j = j + 1;
        }
        bitset_clear(&mut self.local_modified);
        self.global_modified = new_dirty;
        let out = bitset_items(&self.global_modified);
        proof {
            lemma_propagate_final(*old(self), *self, scratch0, dirty_set);
            crate::bits::lemma_items_card(out@, dirty_set);
            assert forall|id: u32|
                out@.contains(id) <==> (old(self).alive_row(id as int) && old(self).locals@[id
                as int] is Some && old(self).anc_marked(id as int)) by {
                if dirty_set.contains(id) {
                    let k2 = choose|k2: int|
                        0 <= k2 < old(self).order@.len() && old(self).order@[k2] == id;
                    assert(old(self).order@.contains(id));
                }
                if old(self).alive_row(id as int) && old(self).locals@[id as int] is Some && old(self).anc_marked(id as int) {
                    assert(old(self).order@.contains(id));
                    let k2 = choose|k2: int|
                        0 <= k2 < old(self).order@.len() && old(self).order@[k2] == id;
                    assert(seen(old(self).order@, old(self).order@.len() as int, id));
                }
            }
            assert forall|i: int|
                old(self).alive_row(i) && #[trigger] old(self).locals@[i] is Some implies
                in_finite_range(old(self).world_of(i)) by {
                assert(old(self).order@.contains(i as u32));
                let k2 = choose|k2: int|
                    0 <= k2 < old(self).order@.len() && old(self).order@[k2] == i as u32;
                assert(seen(old(self).order@, old(self).order@.len() as int, i as u32));
            }
        }
        Ok(out)
    }

    /// The position of a row in the visitation order.
    fn find_position(v: &Vec<u32>, x: u32) -> (r: usize)
        requires
            v@.contains(x),
        ensures
            r < v@.len(),
            v@[r as int] == x,
    {
        let mut k: usize = 0;
        while k < v.len()
            invariant
                k <= v@.len(),
                v@.contains(x),
                forall|k2: int| 0 <= k2 < k ==> v@[k2] != x,
            decreases v@.len() - k,
        {
            if v[k] == x {
                return k;
            }
            k = k + 1;
        }
        proof {
            let k2 = choose|k2: int| 0 <= k2 < v@.len() && v@[k2] == x;
            assert(false);
        }
        0
    }

    /// The most recently computed world transform of a row, if any.
    pub fn global_of_entity(&self, e: Entity) -> (r: Option<&Transform>)
        requires
            self.wf(),
            self.is_alive_spec(e),
        ensures
            match r {
                Some(t) => self.global_of(e.index as int) == Some(*t),
                None => self.global_of(e.index as int) is None,
            },
    {
        match &self.globals[e.index as usize] {
            Some(t) => Some(t),
            None => None,
        }
    }
}

/// An element of a pushed sequence other than the new last element was
/// already there.
proof fn lemma_push_contains(s: Seq<u32>, x: u32, y: u32)
    requires
        s.push(x).contains(y),
        y != x,
    ensures
        s.contains(y),
{
    let k = choose|k: int| 0 <= k < s.push(x).len() && s.push(x)[k] == y;
    assert(s.push(x)[s.len() as int] == x);
    assert(k != s.len());
    assert(s[k] == y);
}

/// Appending an element a sequence does not hold keeps it duplicate
/// free.
proof fn lemma_push_no_dup(s: Seq<u32>, x: u32)
    requires
        s.no_duplicates(),
        !s.contains(x),
    ensures
        s.push(x).no_duplicates(),
{
    assert forall|k1: int, k2: int|
        0 <= k1 < k2 < s.push(x).len() implies s.push(x)[k1] != s.push(x)[k2] by {
        if k2 == s.len() {
            if s[k1] == x {
                assert(s.contains(x));
            }
        }
    }
}

/// Clearing a parent edge only removes an ordering constraint: the
/// stored order remains valid and the marked row covers the change.
proof fn lemma_reparent_wf(
    pre: TransformSystem,
    post: TransformSystem,
    row: u32,
    pnew: Option<u32>,
)
    requires
        pre.wf(),
        pre.alive_row(row as int),
        pnew is None,
        post.alive@ == pre.alive@,
        post.generations@ == pre.generations@,
        post.locals@ == pre.locals@,
        post.globals@ == pre.globals@,
        post.parents@ == pre.parents@.update(row as int, pnew),
        post.order@ == pre.order@,
        elems(&post.local_modified) == elems(&pre.local_modified).insert(row),
        post.global_modified == pre.global_modified,
    ensures
        post.wf(),
        TransformSystem::set_parent_rel(pre, post, Entity { index: row, generation: 0 }, pnew),
{
    assert forall|x: u32| post.order@.contains(x) <==> post.alive_row(x as int) by {
        assert(pre.order@.contains(x) <==> pre.alive_row(x as int));
    }
    assert forall|k: int|
        0 <= k < post.order@.len() && #[trigger] post.parents@[post.order@[k] as int] is Some
            implies exists|k2: int|
        0 <= k2 < k && post.order@[k2] == post.parents@[post.order@[k] as int]->Some_0 by {
        assert(post.parents@[row as int] is None);
        assert(post.order@.contains(post.order@[k]));
        assert(post.alive_row(post.order@[k] as int));
        assert((post.order@[k] as int) < post.parents@.len());
        assert(post.order@[k] != row);
        assert(post.parents@[post.order@[k] as int] == pre.parents@[pre.order@[k] as int]);
        let k2 = choose|k2: int|
            0 <= k2 < k && pre.order@[k2] == pre.parents@[pre.order@[k] as int]->Some_0;
        assert(post.order@[k2] == pre.order@[k2]);
    }
    assert(post.wf_core());
    lemma_clean_preserved(pre, post, Set::<u32>::empty().insert(row));
}

/// After moving the subtree of `erow` to the back of the order and
/// pointing `erow` at `prow`, the order is again a parents-first
/// enumeration of the alive rows, and the marked row covers the change.
proof fn lemma_reorder_wf(
    pre: TransformSystem,
    post: TransformSystem,
    erow: u32,
    prow: u32,
    rest_seq: Seq<u32>,
    sub_seq: Seq<u32>,
)
    requires
        pre.wf(),
        pre.alive_row(erow as int),
        pre.alive_row(prow as int),
        !pre.reaches(prow as int, erow as int),
        forall|x: u32|
            #[trigger] rest_seq.contains(x) <==> pre.order@.contains(x) && !pre.reaches(
                x as int,
                erow as int,
            ),
        forall|x: u32|
            #[trigger] sub_seq.contains(x) <==> pre.order@.contains(x) && pre.reaches(
                x as int,
                erow as int,
            ),
        forall|j: int|
            0 <= j < rest_seq.len() ==> pre.order@.contains(#[trigger] rest_seq[j]),
        forall|j: int|
            0 <= j < sub_seq.len() ==> pre.order@.contains(#[trigger] sub_seq[j]),
        forall|j1: int, j2: int|
            0 <= j1 < j2 < rest_seq.len() ==> pre.order@.index_of(rest_seq[j1])
                < pre.order@.index_of(rest_seq[j2]),
        forall|j1: int, j2: int|
            0 <= j1 < j2 < sub_seq.len() ==> pre.order@.index_of(sub_seq[j1])
                < pre.order@.index_of(sub_seq[j2]),
        post.alive@ == pre.alive@,
        post.generations@ == pre.generations@,
        post.locals@ == pre.locals@,
        post.globals@ == pre.globals@,
        post.parents@ == pre.parents@.update(erow as int, Some(prow)),
        post.order@ == rest_seq + sub_seq,
        elems(&post.local_modified) == elems(&pre.local_modified).insert(erow),
        post.global_modified == pre.global_modified,
    ensures
        post.wf(),
{
    let rlen = rest_seq.len() as int;
    let slen = sub_seq.len() as int;
    assert(prow != erow);
    assert(rest_seq.contains(prow)) by {
        assert(pre.order@.contains(prow));
    }
    assert(sub_seq.contains(erow)) by {
        assert(pre.order@.contains(erow));
        assert(pre.reaches(erow as int, erow as int));
    }
    // Elements of the two halves are position-unique.
    assert forall|j1: int, j2: int|
        0 <= j1 < j2 < rlen implies rest_seq[j1] != rest_seq[j2] by {
        assert(pre.order@.index_of(rest_seq[j1]) < pre.order@.index_of(rest_seq[j2]));
    }
    assert forall|j1: int, j2: int|
        0 <= j1 < j2 < slen implies sub_seq[j1] != sub_seq[j2] by {
        assert(pre.order@.index_of(sub_seq[j1]) < pre.order@.index_of(sub_seq[j2]));
    }
    assert forall|k1: int, k2: int|
        0 <= k1 < k2 < post.order@.len() implies post.order@[k1] != post.order@[k2] by {
        if k1 < rlen && k2 >= rlen {
            let x = post.order@[k1];
            if post.order@[k1] == post.order@[k2] {
                assert(rest_seq[k1] == x);
                assert(rest_seq.contains(x));
                assert(sub_seq[k2 - rlen] == x);
                assert(sub_seq.contains(x));
                assert(false);
            }
        }
    }
    assert(post.order@.no_duplicates());
    // The new order still enumerates exactly the alive rows.
    assert forall|x: u32| post.order@.contains(x) implies post.alive_row(x as int) by {
        let k = choose|k: int| 0 <= k < post.order@.len() && post.order@[k] == x;
        if k < rlen {
            assert(rest_seq[k] == x);
            assert(rest_seq.contains(x));
        } else {
            assert(sub_seq[k - rlen] == x);
            assert(sub_seq.contains(x));
        }
        assert(pre.order@.contains(x));
        assert(pre.alive_row(x as int));
    }
    assert forall|x: u32| post.alive_row(x as int) implies post.order@.contains(x) by {
        assert(pre.alive_row(x as int));
        assert(pre.order@.contains(x));
        if pre.reaches(x as int, erow as int) {
            assert(sub_seq.contains(x));
            let j = choose|j: int| 0 <= j < slen && sub_seq[j] == x;
            assert(post.order@[rlen + j] == x);
        } else {
            assert(rest_seq.contains(x));
            let j = choose|j: int| 0 <= j < rlen && rest_seq[j] == x;
            assert(post.order@[j] == x);
        }
    }
    // Every parent still precedes its children.
    assert forall|k: int|
        0 <= k < post.order@.len() && #[trigger] post.parents@[post.order@[k] as int] is Some
            implies exists|k2: int|
        0 <= k2 < k && post.order@[k2] == post.parents@[post.order@[k] as int]->Some_0 by {
        let x = post.order@[k];
        if x == erow {
            // The new parent sits in the untouched half.
            assert(k >= rlen) by {
                if k < rlen {
                    assert(rest_seq[k] == erow);
                    assert(rest_seq.contains(erow));
                    assert(pre.reaches(erow as int, erow as int));
                }
            }
            let j = choose|j: int| 0 <= j < rlen && rest_seq[j] == prow;
            assert(post.order@[j] == prow);
            assert(0 <= j < k && post.order@[j] == post.parents@[x as int]->Some_0);
        } else {
            assert(post.order@.contains(x)) by {
                assert(post.order@[k] == x);
            }
            assert(post.alive_row(x as int));
            assert(pre.alive_row(x as int));
            assert(pre.order@.contains(x));
            assert((x as int) < pre.parents@.len());
            assert(post.parents@[x as int] == pre.parents@[x as int]);
            let q = pre.parents@[x as int]->Some_0;
            lemma_parent_pos(pre, x as int);
            assert(pre.alive_row(q as int));
            assert(pre.order@.contains(q));
            if k < rlen {
                assert(rest_seq[k] == x);
                assert(rest_seq.contains(x));
                assert(!pre.reaches(x as int, erow as int));
                assert(!pre.reaches(q as int, erow as int)) by {
                    if pre.reaches(q as int, erow as int) {
                        assert(pre.reaches(x as int, erow as int));
                    }
                }
                assert(rest_seq.contains(q));
                let j = choose|j: int| 0 <= j < rlen && rest_seq[j] == q;
                assert(j < k) by {
                    if j >= k {
                        if j > k {
                            assert(pre.order@.index_of(rest_seq[k]) < pre.order@.index_of(
                                rest_seq[j],
                            ));
                            lemma_index_of_lt(pre.order@, q, x);
                        } else {
                            assert(q == x);
                        }
                    }
                }
                assert(post.order@[j] == q);
            } else {
                assert(sub_seq[k - rlen] == x);
                assert(sub_seq.contains(x));
                assert(pre.reaches(x as int, erow as int));
                assert(pre.reaches(q as int, erow as int)) by {
                    assert(x != erow);
                }
                assert(sub_seq.contains(q));
                let j = choose|j: int| 0 <= j < slen && sub_seq[j] == q;
                assert(j < k - rlen) by {
                    if j >= k - rlen {
                        if j > k - rlen {
                            assert(pre.order@.index_of(sub_seq[k - rlen]) < pre.order@.index_of(
                                sub_seq[j],
                            ));
                            lemma_index_of_lt(pre.order@, q, x);
                        } else {
                            assert(q == x);
                        }
                    }
                }
                assert(post.order@[rlen + j] == q);
                assert(0 <= rlen + j < k);
            }
        }
    }
    assert(post.wf_core());
    lemma_clean_preserved(pre, post, Set::<u32>::empty().insert(erow));
}

/// The parent of a row precedes it; `index_of` respects that, so the
/// two positions cannot be swapped.
proof fn lemma_index_of_lt(s: Seq<u32>, q: u32, x: u32)
    requires
        s.no_duplicates(),
        s.contains(q),
        s.contains(x),
        s.index_of(x) < s.index_of(q),
    ensures
        !(exists|k2: int| 0 <= k2 < s.index_of(x) && s[k2] == q),
{
    let iq = s.index_of(q);
    assert(0 <= iq < s.len() && s[iq] == q);
    if exists|k2: int| 0 <= k2 < s.index_of(x) && s[k2] == q {
        let k2 = choose|k2: int| 0 <= k2 < s.index_of(x) && s[k2] == q;
        lemma_index_of_unique(s, q, k2);
    }
}

/// Re-parenting and deletion change edges at marked rows only; every
/// row no mark reaches keeps its world transform demand.  `changed` is
/// the set of rows whose local, edge or global data may differ, each of
/// them marked in `post`.
proof fn lemma_clean_preserved(pre: TransformSystem, post: TransformSystem, changed: Set<u32>)
    requires
        pre.wf_core(),
        pre.clean_ok(),
        post.wf_core(),
        forall|i: int|
            post.alive_row(i) && !changed.contains(i as u32) ==> pre.alive_row(i)
                && post.locals@[i] == pre.locals@[i] && post.parents@[i] == pre.parents@[i]
                && post.globals@[i] == pre.globals@[i],
        forall|i: int|
            post.alive_row(i) && !changed.contains(i as u32) && #[trigger] post.parents@[i] is Some
                && post.locals@[post.parents@[i]->Some_0 as int] is None ==> pre.alive_row(
                post.parents@[i]->Some_0 as int,
            ) && pre.locals@[post.parents@[i]->Some_0 as int] is None,
        forall|id: u32|
            elems(&pre.local_modified).contains(id) ==> elems(&post.local_modified).contains(id),
        forall|id: u32|
            changed.contains(id) ==> elems(&post.local_modified).contains(id),
    ensures
        post.clean_ok(),
{
    assert forall|i: int|
        post.alive_row(i) && #[trigger] post.locals@[i] is Some && !post.anc_marked(i) implies {
        &&& post.globals@[i] is Some
        &&& post.globals@[i]->Some_0.view_entries() == post.world_of(i)
    } by {
        lemma_clean_at(pre, post, changed, i, post.order@.index_of(i as u32));
    }
}

/// The inductive step of [`lemma_clean_preserved`], walking one row's
/// ancestor chain.
proof fn lemma_clean_at(
    pre: TransformSystem,
    post: TransformSystem,
    changed: Set<u32>,
    i: int,
    fuel: int,
)
    requires
        pre.wf_core(),
        pre.clean_ok(),
        post.wf_core(),
        forall|j: int|
            post.alive_row(j) && !changed.contains(j as u32) ==> pre.alive_row(j)
                && post.locals@[j] == pre.locals@[j] && post.parents@[j] == pre.parents@[j]
                && post.globals@[j] == pre.globals@[j],
        forall|i: int|
            post.alive_row(i) && !changed.contains(i as u32) && #[trigger] post.parents@[i] is Some
                && post.locals@[post.parents@[i]->Some_0 as int] is None ==> pre.alive_row(
                post.parents@[i]->Some_0 as int,
            ) && pre.locals@[post.parents@[i]->Some_0 as int] is None,
        forall|id: u32|
            elems(&pre.local_modified).contains(id) ==> elems(&post.local_modified).contains(id),
        forall|id: u32|
            changed.contains(id) ==> elems(&post.local_modified).contains(id),
        post.alive_row(i),
        post.locals@[i] is Some,
        !post.anc_marked(i),
        fuel == post.order@.index_of(i as u32),
    ensures
        pre.alive_row(i),
        pre.locals@[i] is Some,
        !pre.anc_marked(i),
        post.world_of(i) == pre.world_of(i),
        post.globals@[i] is Some,
        post.globals@[i]->Some_0.view_entries() == post.world_of(i),
    decreases fuel,
{
    assert(!post.marked(i));
    assert(!changed.contains(i as u32));
    assert(pre.alive_row(i));
    assert(post.locals@[i] == pre.locals@[i]);
    assert(!pre.marked(i));
    match post.parents@[i] {
        Some(p) => {
            lemma_parent_pos(post, i);
            assert(post.alive_row(p as int));
            if post.locals@[p as int] is Some {
                assert(!post.anc_marked(p as int));
                lemma_clean_at(pre, post, changed, p as int, post.order@.index_of(p));
                lemma_parent_pos(pre, i);
                assert(post.world_of(i) == mat_prod(
                    post.world_of(p as int),
                    post.locals@[i]->Some_0.view_entries(),
                ));
                assert(pre.world_of(i) == mat_prod(
                    pre.world_of(p as int),
                    pre.locals@[i]->Some_0.view_entries(),
                ));
            } else {
                assert(post.parents@[i]->Some_0 == p);
                assert(pre.alive_row(p as int) && pre.locals@[p as int] is None);
                assert(post.world_of(i) == post.locals@[i]->Some_0.view_entries());
                assert(pre.world_of(i) == pre.locals@[i]->Some_0.view_entries());
                assert(!pre.anc_marked(i));
            }
        },
        None => {
            assert(post.world_of(i) == post.locals@[i]->Some_0.view_entries());
            assert(pre.world_of(i) == pre.locals@[i]->Some_0.view_entries());
            assert(!pre.anc_marked(i));
        },
    }
    assert(pre.globals@[i] is Some);
    assert(post.globals@[i] == pre.globals@[i]);
}

/// A parent's position in the visitation order is strictly before its
/// child's.
pub proof fn lemma_parent_pos(s: TransformSystem, i: int)
    requires
        s.wf_core(),
        s.alive_row(i),
        s.parents@[i] is Some,
    ensures
        ({
            let p = s.parents@[i]->Some_0;
            &&& s.alive_row(p as int)
            &&& 0 <= s.order@.index_of(p) < s.order@.index_of(i as u32) < s.order@.len()
            &&& s.order@[s.order@.index_of(p)] == p
            &&& s.order@[s.order@.index_of(i as u32)] == i
        }),
{
    let p = s.parents@[i]->Some_0;
    assert(s.order@.contains(i as u32));
    let k = s.order@.index_of(i as u32);
    assert(0 <= k < s.order@.len() && s.order@[k] == i as u32);
    assert(s.parents@[s.order@[k] as int] is Some);
    let k2 = choose|k2: int| 0 <= k2 < k && s.order@[k2] == s.parents@[s.order@[k] as int]->Some_0;
    assert(s.order@[k2] == p);
    assert(s.order@.contains(p));
    lemma_index_of_unique(s.order@, p, k2);
}

/// With no duplicates, `index_of` finds the one position an element has.
pub proof fn lemma_index_of_unique(s: Seq<u32>, x: u32, k: int)
    requires
        s.no_duplicates(),
        0 <= k < s.len(),
        s[k] == x,
    ensures
        s.index_of(x) == k,
        s.contains(x),
{
    assert(s.contains(x));
    let i = s.index_of(x);
    assert(0 <= i < s.len() && s[i] == x);
    if i != k {
        assert(s[i] == s[k]);
        assert(false);
    }
}

/// Reviving a recycled row as a fresh root preserves the invariant: the
/// row joins the end of the order with no edges and no transforms.
proof fn lemma_wake_row(pre: TransformSystem, post: TransformSystem, row: u32)
    requires
        pre.wf(),
        (row as int) < pre.nrows(),
        !pre.alive@[row as int],
        post.generations@ == pre.generations@.update(
            row as int,
            (pre.generations@[row as int] + 1) as u32,
        ),
        post.alive@ == pre.alive@.update(row as int, true),
        post.locals@ == pre.locals@,
        post.globals@ == pre.globals@,
        post.parents@ == pre.parents@,
        post.order@ == pre.order@.push(row),
        post.local_modified == pre.local_modified,
        post.global_modified == pre.global_modified,
    ensures
        post.wf(),
{
    assert(pre.locals@[row as int] is None);
    assert(pre.parents@[row as int] is None);
    assert(!pre.alive_row(row as int));
    assert(!pre.order@.contains(row));
    lemma_push_no_dup(pre.order@, row);
    assert forall|x: u32| post.order@.contains(x) implies post.alive_row(x as int) by {
        if x != row {
            lemma_push_contains(pre.order@, row, x);
            assert(pre.alive_row(x as int));
        }
    }
    assert forall|x: u32| post.alive_row(x as int) implies post.order@.contains(x) by {
        if x == row {
            assert(post.order@[post.order@.len() - 1] == row);
        } else {
            assert(pre.alive_row(x as int));
            assert(pre.order@.contains(x));
            let k = choose|k: int| 0 <= k < pre.order@.len() && pre.order@[k] == x;
            assert(post.order@[k] == x);
        }
    }
    assert forall|k: int|
        0 <= k < post.order@.len() && #[trigger] post.parents@[post.order@[k] as int] is Some
            implies exists|k2: int|
        0 <= k2 < k && post.order@[k2] == post.parents@[post.order@[k] as int]->Some_0 by {
        assert(post.parents@[row as int] is None);
        assert(post.order@[k] != row);
        assert(k < pre.order@.len());
        assert(pre.order@[k] == post.order@[k]);
        assert(pre.order@.contains(pre.order@[k]));
        assert(pre.alive_row(pre.order@[k] as int));
        assert(pre.parents@[pre.order@[k] as int] is Some);
        let k2 = choose|k2: int|
            0 <= k2 < k && pre.order@[k2] == pre.parents@[pre.order@[k] as int]->Some_0;
        assert(post.order@[k2] == pre.order@[k2]);
    }
    lemma_same_world(pre, post);
}

/// Appending a fresh root row preserves the invariant.
proof fn lemma_append_row(pre: TransformSystem, post: TransformSystem, row: u32)
    requires
        pre.wf(),
        row == pre.nrows(),
        pre.nrows() < MAX_INDEX,
        post.generations@ == pre.generations@.push(0),
        post.alive@ == pre.alive@.push(true),
        post.locals@ == pre.locals@.push(None),
        post.globals@ == pre.globals@.push(None),
        post.parents@ == pre.parents@.push(None),
        post.order@ == pre.order@.push(row),
        post.local_modified == pre.local_modified,
        post.global_modified == pre.global_modified,
    ensures
        post.wf(),
{
    assert(!pre.alive_row(row as int));
    assert(!pre.order@.contains(row));
    lemma_push_no_dup(pre.order@, row);
    assert forall|x: u32| post.order@.contains(x) implies post.alive_row(x as int) by {
        if x != row {
            lemma_push_contains(pre.order@, row, x);
            assert(pre.alive_row(x as int));
        }
    }
    assert forall|x: u32| post.alive_row(x as int) implies post.order@.contains(x) by {
        if x == row {
            assert(post.order@[post.order@.len() - 1] == row);
        } else {
            assert(pre.alive_row(x as int));
            assert(pre.order@.contains(x));
            let k = choose|k: int| 0 <= k < pre.order@.len() && pre.order@[k] == x;
            assert(post.order@[k] == x);
        }
    }
    assert forall|k: int|
        0 <= k < post.order@.len() && #[trigger] post.parents@[post.order@[k] as int] is Some
            implies exists|k2: int|
        0 <= k2 < k && post.order@[k2] == post.parents@[post.order@[k] as int]->Some_0 by {
        assert(post.parents@[row as int] is None);
        assert(post.order@[k] != row);
        assert(k < pre.order@.len());
        assert(pre.order@[k] == post.order@[k]);
        assert(pre.order@.contains(pre.order@[k]));
        assert(pre.alive_row(pre.order@[k] as int));
        assert(pre.parents@[pre.order@[k] as int] is Some);
        let k2 = choose|k2: int|
            0 <= k2 < k && pre.order@[k2] == pre.parents@[pre.order@[k] as int]->Some_0;
        assert(post.order@[k2] == pre.order@[k2]);
    }
    lemma_same_world(pre, post);
}

/// Marking a live row's local transform keeps the invariant: the newly
/// stale subtree is exactly what the mark covers.
proof fn lemma_set_local_ok(pre: TransformSystem, post: TransformSystem, row: u32)
    requires
        pre.wf(),
        pre.alive_row(row as int),
        post.generations@ == pre.generations@,
        post.alive@ == pre.alive@,
        post.locals@.len() == pre.locals@.len(),
        post.locals@[row as int] is Some,
        post.locals@[row as int]->Some_0.wf(),
        post.locals@[row as int]->Some_0.is_finite_spec(),
        forall|i: int| 0 <= i < pre.nrows() && i != row ==> post.locals@[i] == pre.locals@[i],
        post.globals@ == pre.globals@,
        post.parents@ == pre.parents@,
        post.order@ == pre.order@,
        elems(&post.local_modified) == elems(&pre.local_modified).insert(row),
        post.global_modified == pre.global_modified,
    ensures
        post.wf(),
{
    assert forall|x: u32| post.order@.contains(x) <==> post.alive_row(x as int) by {
        assert(pre.order@.contains(x) <==> pre.alive_row(x as int));
    }
    assert(post.wf_core());
    assert forall|i: int|
        post.alive_row(i) && #[trigger] post.locals@[i] is Some && !post.anc_marked(i) implies {
        &&& post.globals@[i] is Some
        &&& post.globals@[i]->Some_0.view_entries() == post.world_of(i)
    } by {
        lemma_unmarked_world_stable(pre, post, row, i, post.order@.index_of(i as u32));
    }
}

/// With the same rows, edges and order, two states demand the same world
/// transforms wherever their locals agree along the ancestor chain; and
/// a state whose marks only grew keeps every unmarked chain clean.
/// Here: if `post` differs from `pre` only in row `row`'s local and in
/// marks that grew by `row`, then any row `i` that is not `anc_marked`
/// in `post` has the same world in both and was not `anc_marked` in
/// `pre` either.
proof fn lemma_unmarked_world_stable(
    pre: TransformSystem,
    post: TransformSystem,
    row: u32,
    i: int,
    fuel: int,
)
    requires
        pre.wf(),
        post.wf_core(),
        pre.alive_row(row as int),
        post.generations@ == pre.generations@,
        post.alive@ == pre.alive@,
        post.locals@.len() == pre.locals@.len(),
        forall|j: int| 0 <= j < pre.nrows() && j != row ==> post.locals@[j] == pre.locals@[j],
        post.globals@ == pre.globals@,
        post.parents@ == pre.parents@,
        post.order@ == pre.order@,
        elems(&post.local_modified) == elems(&pre.local_modified).insert(row),
        post.locals@[row as int] is Some,
        post.alive_row(i),
        post.locals@[i] is Some,
        !post.anc_marked(i),
        fuel == post.order@.index_of(i as u32),
    ensures
        pre.locals@[i] is Some,
        !pre.anc_marked(i),
        post.world_of(i) == pre.world_of(i),
        post.globals@[i] is Some,
        post.globals@[i]->Some_0.view_entries() == post.world_of(i),
    decreases fuel,
{
    assert(!post.marked(i));
    assert(i != row);
    assert(post.locals@[i] == pre.locals@[i]);
    assert(!pre.marked(i));
    match post.parents@[i] {
        Some(p) => {
            lemma_parent_pos(post, i);
            if post.locals@[p as int] is Some {
                lemma_unmarked_world_stable(pre, post, row, p as int, post.order@.index_of(p));
                assert(pre.locals@[p as int] is Some);
                assert(!pre.anc_marked(i));
                assert(post.world_of(i) == mat_prod(
                    post.world_of(p as int),
                    post.locals@[i]->Some_0.view_entries(),
                ));
                assert(pre.world_of(i) == mat_prod(
                    pre.world_of(p as int),
                    pre.locals@[i]->Some_0.view_entries(),
                ));
            } else {
                assert(p != row || post.locals@[p as int] is None);
                if p == row {
                    assert(post.locals@[row as int] is Some);
                    assert(false);
                }
                assert(pre.locals@[p as int] is None);
                assert(!pre.anc_marked(i));
                assert(post.world_of(i) == post.locals@[i]->Some_0.view_entries());
                assert(pre.world_of(i) == pre.locals@[i]->Some_0.view_entries());
            }
        },
        None => {
            assert(!pre.anc_marked(i));
            assert(post.world_of(i) == post.locals@[i]->Some_0.view_entries());
            assert(pre.world_of(i) == pre.locals@[i]->Some_0.view_entries());
        },
    }
    assert(pre.globals@[i] is Some);
}

/// World transforms and staleness depend only on the rows, edges,
/// locals, order and marks: two states that agree on those agree on
/// both, for every alive row.
proof fn lemma_same_world(a: TransformSystem, b: TransformSystem)
    requires
        a.wf_core(),
        b.wf_core(),
        forall|i: int| a.alive_row(i) ==> b.alive_row(i) && b.locals@[i] == a.locals@[i]
            && b.parents@[i] == a.parents@[i] && b.globals@[i] == a.globals@[i],
        forall|i: int| b.alive_row(i) && !a.alive_row(i) ==> #[trigger] b.locals@[i] is None,
        elems(&b.local_modified) == elems(&a.local_modified),
        a.clean_ok(),
    ensures
        b.clean_ok(),
{
    assert forall|i: int|
        b.alive_row(i) && #[trigger] b.locals@[i] is Some && !b.anc_marked(i) implies {
        &&& b.globals@[i] is Some
        &&& b.globals@[i]->Some_0.view_entries() == b.world_of(i)
    } by {
        assert(a.alive_row(i));
        lemma_world_agree(a, b, i, b.order@.index_of(i as u32));
    }
}

/// Rows alive in both of two order-identical states have the same world
/// demand and the same staleness.
proof fn lemma_world_agree(a: TransformSystem, b: TransformSystem, i: int, fuel: int)
    requires
        a.wf_core(),
        b.wf_core(),
        forall|j: int| a.alive_row(j) ==> b.alive_row(j) && b.locals@[j] == a.locals@[j]
            && b.parents@[j] == a.parents@[j] && b.globals@[j] == a.globals@[j],
        elems(&b.local_modified) == elems(&a.local_modified),
        a.alive_row(i),
        b.alive_row(i),
        fuel == b.order@.index_of(i as u32),
    ensures
        b.anc_marked(i) == a.anc_marked(i),
        a.locals@[i] is Some ==> b.world_of(i) == a.world_of(i),
    decreases fuel,
{
    assert(b.marked(i) == a.marked(i));
    match a.parents@[i] {
        Some(p) => {
            lemma_parent_pos(a, i);
            lemma_parent_pos(b, i);
            assert(a.alive_row(p as int));
            lemma_world_agree(a, b, p as int, b.order@.index_of(p));
        },
        None => {},
    }
}

/// Dropping a root row's transforms keeps the invariant: the row is
/// marked, so nothing clean depends on it, and no other row composes
/// under it once its children are roots.
proof fn lemma_clear_row_transforms(pre: TransformSystem, post: TransformSystem, row: u32)
    requires
        pre.wf(),
        pre.alive_row(row as int),
        pre.parents@[row as int] is None,
        elems(&pre.local_modified).contains(row),
        forall|i: int| 0 <= i < pre.nrows() ==> #[trigger] pre.parents@[i] != Some(row),
        post.alive@ == pre.alive@,
        post.generations@ == pre.generations@,
        post.locals@ == pre.locals@.update(row as int, None),
        post.globals@ == pre.globals@.update(row as int, None),
        post.parents@ == pre.parents@,
        post.order@ == pre.order@,
        post.local_modified == pre.local_modified,
        post.global_modified == pre.global_modified,
    ensures
        post.wf(),
{
    assert forall|x: u32| post.order@.contains(x) <==> post.alive_row(x as int) by {
        assert(pre.order@.contains(x) <==> pre.alive_row(x as int));
    }
    assert(post.wf_core());
    assert forall|i: int|
        post.alive_row(i) && #[trigger] post.locals@[i] is Some && !post.anc_marked(i) implies {
        &&& post.globals@[i] is Some
        &&& post.globals@[i]->Some_0.view_entries() == post.world_of(i)
    } by {
        lemma_clean_at_clear(pre, post, row, i, post.order@.index_of(i as u32));
    }
}

/// The inductive step of [`lemma_clear_row_transforms`]: an unmarked
/// chain never visits the cleared row.
proof fn lemma_clean_at_clear(
    pre: TransformSystem,
    post: TransformSystem,
    row: u32,
    i: int,
    fuel: int,
)
    requires
        pre.wf(),
        post.wf_core(),
        pre.alive_row(row as int),
        pre.parents@[row as int] is None,
        elems(&pre.local_modified).contains(row),
        forall|j: int| 0 <= j < pre.nrows() ==> #[trigger] pre.parents@[j] != Some(row),
        post.alive@ == pre.alive@,
        post.generations@ == pre.generations@,
        post.locals@ == pre.locals@.update(row as int, None),
        post.globals@ == pre.globals@.update(row as int, None),
        post.parents@ == pre.parents@,
        post.order@ == pre.order@,
        post.local_modified == pre.local_modified,
        post.alive_row(i),
        post.locals@[i] is Some,
        !post.anc_marked(i),
        fuel == post.order@.index_of(i as u32),
    ensures
        pre.locals@[i] is Some,
        !pre.anc_marked(i),
        post.world_of(i) == pre.world_of(i),
        post.globals@[i] is Some,
        post.globals@[i]->Some_0.view_entries() == post.world_of(i),
    decreases fuel,
{
    assert(!post.marked(i));
    assert(i != row);
    assert(post.locals@[i] == pre.locals@[i]);
    match post.parents@[i] {
        Some(p) => {
            lemma_parent_pos(post, i);
            assert(pre.parents@[i as int] != Some(row));
            assert(p != row);
            assert(post.locals@[p as int] == pre.locals@[p as int]);
            assert(post.globals@[p as int] == pre.globals@[p as int]);
            if post.locals@[p as int] is Some {
                assert(!post.anc_marked(p as int));
                lemma_clean_at_clear(pre, post, row, p as int, post.order@.index_of(p));
                lemma_parent_pos(pre, i);
            } else {
                assert(!pre.anc_marked(i));
            }
        },
        None => {
            assert(!pre.anc_marked(i));
        },
    }
    assert(post.globals@[i] == pre.globals@[i]);
    assert(pre.globals@[i] is Some);
}

/// Removing a cleared, edge-free row from the rows and the order keeps
/// the invariant.
proof fn lemma_kill_row(pre: TransformSystem, post: TransformSystem, row: u32, k: int)
    requires
        pre.wf(),
        pre.alive_row(row as int),
        pre.parents@[row as int] is None,
        pre.locals@[row as int] is None,
        pre.globals@[row as int] is None,
        forall|i: int| 0 <= i < pre.nrows() ==> #[trigger] pre.parents@[i] != Some(row),
        elems(&pre.local_modified).contains(row),
        0 <= k < pre.order@.len(),
        pre.order@[k] == row,
        post.alive@ == pre.alive@.update(row as int, false),
        post.generations@ == pre.generations@,
        post.locals@ == pre.locals@,
        post.globals@ == pre.globals@,
        post.parents@ == pre.parents@,
        post.order@ == pre.order@.remove(k),
        post.local_modified == pre.local_modified,
        post.global_modified == pre.global_modified,
    ensures
        post.wf(),
{
    assert(post.order@.len() == pre.order@.len() - 1);
    assert forall|k1: int, k2: int|
        0 <= k1 < k2 < post.order@.len() implies post.order@[k1] != post.order@[k2] by {
        let q1: int = if k1 < k {
            k1
        } else {
            k1 + 1
        };
        let q2: int = if k2 < k {
            k2
        } else {
            k2 + 1
        };
        assert(post.order@[k1] == pre.order@[q1]);
        assert(post.order@[k2] == pre.order@[q2]);
    }
    assert(post.order@.no_duplicates());
    assert forall|x: u32| post.order@.contains(x) implies post.alive_row(x as int) by {
        let k2 = choose|k2: int| 0 <= k2 < post.order@.len() && post.order@[k2] == x;
        let q: int = if k2 < k {
            k2
        } else {
            k2 + 1
        };
        assert(pre.order@[q] == x);
        assert(x != row) by {
            if x == row {
                lemma_index_of_unique(pre.order@, row, q);
                lemma_index_of_unique(pre.order@, row, k);
            }
        }
        assert(pre.order@.contains(x));
        assert(pre.alive_row(x as int));
    }
    assert forall|x: u32| post.alive_row(x as int) implies post.order@.contains(x) by {
        assert(x != row);
        assert(pre.alive_row(x as int));
        assert(pre.order@.contains(x));
        let q = choose|q: int| 0 <= q < pre.order@.len() && pre.order@[q] == x;
        assert(q != k);
        if q < k {
            assert(post.order@[q] == x);
        } else {
            assert(post.order@[q - 1] == x);
        }
    }
    assert forall|k1: int|
        0 <= k1 < post.order@.len() && #[trigger] post.parents@[post.order@[k1] as int] is Some
            implies exists|k3: int|
        0 <= k3 < k1 && post.order@[k3] == post.parents@[post.order@[k1] as int]->Some_0 by {
        let q1: int = if k1 < k {
            k1
        } else {
            k1 + 1
        };
        assert(post.order@[k1] == pre.order@[q1]);
        assert(pre.order@.contains(pre.order@[q1]));
        assert(pre.alive_row(pre.order@[q1] as int));
        assert(pre.parents@[pre.order@[q1] as int] is Some);
        let q2 = choose|q2: int|
            0 <= q2 < q1 && pre.order@[q2] == pre.parents@[pre.order@[q1] as int]->Some_0;
        let prow = pre.parents@[pre.order@[q1] as int]->Some_0;
        assert(prow != row) by {
            assert(pre.parents@[pre.order@[q1] as int] != Some(row));
        }
        assert(q2 != k) by {
            if q2 == k {
                assert(pre.order@[k] == prow);
            }
        }
        if q2 < k {
            assert(post.order@[q2] == prow);
            assert(q2 < k1);
        } else {
            assert(post.order@[q2 - 1] == prow);
            assert(q2 - 1 < k1);
        }
    }
    assert(post.wf_core());
    lemma_clean_preserved(pre, post, Set::<u32>::empty().insert(row));
}

/// *Global-transform correctness.*  The world transform every walk
/// establishes satisfies the defining equation: an entity with a parent
/// that carries a local transform composes under the parent's world
/// transform; every other entity's world transform is its local one.
pub proof fn lemma_global_transform_correctness(s: TransformSystem, i: int)
    requires
        s.wf_core(),
        s.alive_row(i),
        s.locals@[i] is Some,
    ensures
        s.world_of(i) == match s.parents@[i] {
            Some(p) => if s.locals@[p as int] is Some {
                mat_prod(s.world_of(p as int), s.locals@[i]->Some_0.view_entries())
            } else {
                s.locals@[i]->Some_0.view_entries()
            },
            None => s.locals@[i]->Some_0.view_entries(),
        },
{
}

/// Whether a row id appears among the first `k` entries of the order.
pub open spec fn seen(order: Seq<u32>, k: int, id: u32) -> bool {
    exists|k2: int| 0 <= k2 < k && order[k2] == id
}

/// With no marks left, no row composes under a changed ancestor.
proof fn lemma_no_marks_clean(s: TransformSystem, i: int, fuel: int)
    requires
        s.wf_core(),
        elems(&s.local_modified) == Set::<u32>::empty(),
        s.alive_row(i),
        fuel == s.order@.index_of(i as u32),
    ensures
        !s.anc_marked(i),
    decreases fuel,
{
    assert(!s.marked(i));
    match s.parents@[i] {
        Some(p) => {
            lemma_parent_pos(s, i);
            lemma_no_marks_clean(s, p as int, s.order@.index_of(p));
        },
        None => {},
    }
}

/// Two states with the same rows, locals and edges demand the same
/// world transforms.
proof fn lemma_world_same(a: TransformSystem, b: TransformSystem, i: int, fuel: int)
    requires
        a.wf_core(),
        b.wf_core(),
        b.alive@ == a.alive@,
        b.locals@ == a.locals@,
        b.parents@ == a.parents@,
        b.order@ == a.order@,
        a.alive_row(i),
        a.locals@[i] is Some,
        fuel == b.order@.index_of(i as u32),
    ensures
        b.world_of(i) == a.world_of(i),
    decreases fuel,
{
    match a.parents@[i] {
        Some(p) => {
            lemma_parent_pos(a, i);
            lemma_parent_pos(b, i);
            if a.locals@[p as int] is Some {
                lemma_world_same(a, b, p as int, b.order@.index_of(p));
            }
        },
        None => {},
    }
}

/// After the walk's results are committed, the marks cleared and the
/// recomputed set published, the store is consistent and well-formed.
proof fn lemma_propagate_final(
    pre: TransformSystem,
    post: TransformSystem,
    scratch0: Seq<Option<Transform>>,
    dirty_set: Set<u32>,
)
    requires
        pre.wf(),
        post.alive@ == pre.alive@,
        post.generations@ == pre.generations@,
        post.locals@ == pre.locals@,
        post.parents@ == pre.parents@,
        post.order@ == pre.order@,
        elems(&post.local_modified) == Set::<u32>::empty(),
        elems(&post.global_modified) == dirty_set,
        scratch0.len() == pre.nrows(),
        post.globals@.len() == pre.nrows(),
        forall|id: u32|
            dirty_set.contains(id) <==> (seen(pre.order@, pre.order@.len() as int, id)
                && pre.locals@[id as int] is Some && pre.anc_marked(id as int)),
        forall|j: int|
            0 <= j < pre.nrows() ==> (#[trigger] scratch0[j] is Some <==> (seen(
                pre.order@,
                pre.order@.len() as int,
                j as u32,
            ) && pre.locals@[j] is Some && pre.anc_marked(j))),
        forall|j: int|
            0 <= j < pre.nrows() && #[trigger] scratch0[j] is Some ==> {
                &&& scratch0[j]->Some_0.wf()
                &&& scratch0[j]->Some_0.is_finite_spec()
                &&& scratch0[j]->Some_0.view_entries() == pre.world_of(j)
            },
        forall|j: int|
            0 <= j < pre.nrows() ==> #[trigger] post.globals@[j] == (if scratch0[j] is Some {
                scratch0[j]
            } else {
                pre.globals@[j]
            }),
    ensures
        post.wf(),
        forall|i: int|
            post.alive_row(i) && #[trigger] post.locals@[i] is Some ==> {
                &&& post.globals@[i] is Some
                &&& post.globals@[i]->Some_0.view_entries() == pre.world_of(i)
            },
        forall|i: int|
            0 <= i < pre.nrows() && !(pre.alive_row(i) && pre.locals@[i] is Some
                && pre.anc_marked(i)) ==> #[trigger] post.globals@[i] == pre.globals@[i],
{
    assert forall|i: int|
        post.alive_row(i) && #[trigger] post.locals@[i] is Some implies {
        &&& post.globals@[i] is Some
        &&& post.globals@[i]->Some_0.view_entries() == pre.world_of(i)
    } by {
        assert(pre.alive_row(i));
        if pre.anc_marked(i) {
            assert(pre.order@.contains(i as u32));
            let k2 = choose|k2: int| 0 <= k2 < pre.order@.len() && pre.order@[k2] == i as u32;
            assert(seen(pre.order@, pre.order@.len() as int, i as u32));
            assert(scratch0[i] is Some);
            assert(post.globals@[i] == scratch0[i]);
        } else {
            assert(post.globals@[i] == pre.globals@[i]);
        }
    }
    assert forall|i: int|
        0 <= i < pre.nrows() && !(pre.alive_row(i) && pre.locals@[i] is Some && pre.anc_marked(
            i,
        )) implies #[trigger] post.globals@[i] == pre.globals@[i] by {
        if scratch0[i] is Some {
            let k2 = choose|k2: int| 0 <= k2 < pre.order@.len() && pre.order@[k2] == i as u32;
            assert(pre.order@.contains(i as u32));
            assert(pre.alive_row(i));
        }
    }
    assert forall|x: u32| post.order@.contains(x) <==> post.alive_row(x as int) by {
        assert(pre.order@.contains(x) <==> pre.alive_row(x as int));
    }
    assert forall|i: int|
        0 <= i < post.nrows() && #[trigger] post.globals@[i] is Some implies post.globals@[i]
        ->Some_0.wf() && post.globals@[i]->Some_0.is_finite_spec() by {
        if scratch0[i] is Some {
        } else {
            assert(post.globals@[i] == pre.globals@[i]);
        }
    }
    assert forall|i: int|
        0 <= i < post.nrows() && !post.alive@[i] implies #[trigger] post.locals@[i] is None
            && post.globals@[i] is None && post.parents@[i] is None by {
        if scratch0[i] is Some {
            let k2 = choose|k2: int| 0 <= k2 < pre.order@.len() && pre.order@[k2] == i as u32;
            assert(pre.order@.contains(i as u32));
            assert(pre.alive_row(i));
        }
        assert(post.globals@[i] == pre.globals@[i]);
    }
    assert(post.wf_core());
    assert forall|i: int|
        post.alive_row(i) && #[trigger] post.locals@[i] is Some && !post.anc_marked(i) implies {
        &&& post.globals@[i] is Some
        &&& post.globals@[i]->Some_0.view_entries() == post.world_of(i)
    } by {
        lemma_world_same(pre, post, i, post.order@.index_of(i as u32));
    }
}

} // verus!
