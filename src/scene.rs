use crate::entity::Entity;
use std::collections::BTreeMap;
use vstd::prelude::*;

verus! {

/// A dense row of the transform store.
pub type Transform = u32;

/// Reserved link value meaning "no parent / no child / no sibling".
pub const NO_TRANSFORM: Transform = 0xffff_ffff;

/// Rows the store can hold: every row index stays below the sentinel.
pub const MAX_TRANSFORMS: usize = 0xffff_fffe;

/// Why an operation of the store was refused.
#[derive(PartialEq, Eq, Structural, Clone, Copy, Debug)]
pub enum SceneError {
    /// The entity has no transform.
    NotFound,
    /// The row index names no live row.
    OutOfRange,
    /// The entity already has a transform.
    AlreadyExists,
    /// The new parent is the child itself or one of its descendants.
    CyclicLink,
}

/// `s` with the first occurrence of `x` taken out.
pub open spec fn remove_child(s: Seq<Transform>, x: Transform) -> Seq<Transform> {
    s.remove(s.index_of(x))
}

/// Distinct rows below `n` number at most `n`.
proof fn lemma_distinct_rows(s: Seq<Transform>, n: nat)
    requires
        s.no_duplicates(),
        forall|x: int| 0 <= x < s.len() ==> s[x] < n,
    ensures
        s.len() <= n,
{
    let si = s.map_values(|x: Transform| x as int);
    assert(si.no_duplicates()) by {
        assert forall|a: int, b: int| 0 <= a < b < si.len() implies si[a] != si[b] by {
            assert(s[a] != s[b]);
        }
    }
    si.unique_seq_to_set();
    vstd::set_lib::lemma_int_range(0, n as int);
    assert(si.to_set().subset_of(vstd::set_lib::set_int_range(0, n as int))) by {
        assert forall|v: int| si.to_set().contains(v) implies vstd::set_lib::set_int_range(
            0,
            n as int,
        ).contains(v) by {
            assert(si.contains(v));
            let x = si.index_of(v);
            assert(s[x] < n);
        }
    }
    vstd::set_lib::lemma_len_subset(si.to_set(), vstd::set_lib::set_int_range(0, n as int));
}

/// The old row that sits at row `q` once row `t` of `n` rows has been removed
/// by moving the last row into its place.
pub open spec fn moved_from(t: Transform, n: nat, q: int) -> int {
    if q == t {
        n - 1
    } else {
        q
    }
}

/// The new index of old row `x` after that move: the last row becomes `t`.
pub open spec fn renamed(t: Transform, n: nat, x: Transform) -> Transform {
    if x == n - 1 {
        t
    } else {
        x
    }
}

/// A forest of transform nodes kept in parallel dense arrays.
///
/// Row `t` belongs to `entity[t]`; `parent`, `child`, `last_sibling` and
/// `next_sibling` link rows into doubly linked sibling lists under their
/// parent, with `NO_TRANSFORM` at the ends. The matrices themselves are kept
/// by the caller in arrays of the same length, indexed by the same rows.
pub struct SceneManager {
    transforms: BTreeMap<Entity, Transform>,
    entity: Vec<Entity>,
    parent: Vec<Transform>,
    child: Vec<Transform>,
    last_sibling: Vec<Transform>,
    next_sibling: Vec<Transform>,
    dirty: Vec<bool>,
    /// The children of each row, in sibling order.
    kids: Ghost<Seq<Seq<Transform>>>,
    /// A rank that grows strictly from parent to child: the forest has no cycle.
    rank: Ghost<Seq<nat>>,
}

impl SceneManager {
    /// Number of rows.
    pub open spec fn len(&self) -> nat {
        self.rows().len()
    }

    /// The entity that owns each row.
    pub closed spec fn rows(&self) -> Seq<Entity> {
        self.entity@
    }

    /// The parent row of each row, or `NO_TRANSFORM` at a root.
    pub closed spec fn parents(&self) -> Seq<Transform> {
        self.parent@
    }

    /// The child rows of each row, in sibling order.
    pub closed spec fn children(&self) -> Seq<Seq<Transform>> {
        self.kids@
    }

    /// The dirty flag of each row.
    pub closed spec fn dirty_flags(&self) -> Seq<bool> {
        self.dirty@
    }

    /// The row of each entity that has a transform.
    pub closed spec fn index(&self) -> Map<Entity, Transform> {
        self.transforms@
    }

    /// The row reached from `i` by following `k` parent links
    /// (`NO_TRANSFORM` once a root has been passed).
    pub closed spec fn ancestor_at(&self, i: Transform, k: nat) -> Transform
        decreases k,
    {
        if k == 0 {
            i
        } else if i >= self.len() {
            NO_TRANSFORM
        } else {
            self.ancestor_at(self.parent@[i as int], (k - 1) as nat)
        }
    }

    /// Row `i` is `a` or lies in the subtree below `a`.
    pub closed spec fn is_descendant(&self, i: Transform, a: Transform) -> bool {
        exists|k: nat| self.ancestor_at(i, k) == a
    }

    spec fn shape_ok(&self) -> bool {
        let n = self.entity@.len();
        &&& n <= MAX_TRANSFORMS
        &&& self.parent@.len() == n
        &&& self.child@.len() == n
        &&& self.last_sibling@.len() == n
        &&& self.next_sibling@.len() == n
        &&& self.dirty@.len() == n
        &&& self.kids@.len() == n
        &&& self.rank@.len() == n
    }

    spec fn index_ok(&self) -> bool {
        &&& forall|e: Entity| #[trigger]
            self.transforms@.contains_key(e) ==> self.transforms@[e] < self.entity@.len()
                && self.entity@[self.transforms@[e] as int] == e
        &&& forall|i: int|
            0 <= i < self.entity@.len() ==> self.transforms@.contains_key(#[trigger] self.entity@[i])
                && self.transforms@[self.entity@[i]] == i
    }

    spec fn parents_ok(&self) -> bool {
        forall|i: int|
            0 <= i < self.parent@.len() ==> {
                let p = #[trigger] self.parent@[i];
                p == NO_TRANSFORM || (p < self.parent@.len() && self.rank@[p as int] < self.rank@[i]
                    && self.kids@[p as int].contains(i as Transform))
            }
    }

    spec fn roots_ok(&self) -> bool {
        forall|i: int|
            0 <= i < self.parent@.len() && #[trigger] self.parent@[i] == NO_TRANSFORM
                ==> self.last_sibling@[i] == NO_TRANSFORM && self.next_sibling@[i] == NO_TRANSFORM
    }

    spec fn kids_ok(&self) -> bool {
        &&& forall|p: int| 0 <= p < self.kids@.len() ==> (#[trigger] self.kids@[p]).no_duplicates()
        &&& forall|p: int|
            0 <= p < self.kids@.len() ==> #[trigger] self.child@[p] == (if self.kids@[p].len() == 0 {
                NO_TRANSFORM
            } else {
                self.kids@[p][0]
            })
        &&& forall|p: int, j: int|
            0 <= p < self.kids@.len() && 0 <= j < self.kids@[p].len() ==> #[trigger] self.slot_ok(p, j)
    }

    /// The `j`-th child of `p` points back to `p` and to its neighbours in the list.
    spec fn slot_ok(&self, p: int, j: int) -> bool {
        let k = self.kids@[p][j];
        &&& k < self.parent@.len()
        &&& self.parent@[k as int] == p
        &&& self.last_sibling@[k as int] == (if j == 0 {
            NO_TRANSFORM
        } else {
            self.kids@[p][j - 1]
        })
        &&& self.next_sibling@[k as int] == (if j + 1 == self.kids@[p].len() {
            NO_TRANSFORM
        } else {
            self.kids@[p][j + 1]
        })
    }

    /// The arrays agree in length, the entity map and the rows agree, and the
    /// links form a forest of well-formed sibling lists.
    pub closed spec fn wf(&self) -> bool {
        &&& self.shape_ok()
        &&& self.index_ok()
        &&& self.parents_ok()
        &&& self.roots_ok()
        &&& self.kids_ok()
    }

    /// Changing dirty flags alone keeps a store well formed.
    proof fn lemma_flags_only(a: &Self, b: &Self)
        requires
            a.wf(),
            b.dirty@.len() == a.dirty@.len(),
            b.transforms == a.transforms,
            b.entity == a.entity,
            b.parent == a.parent,
            b.child == a.child,
            b.last_sibling == a.last_sibling,
            b.next_sibling == a.next_sibling,
            b.kids == a.kids,
            b.rank == a.rank,
        ensures
            b.wf(),
    {
        assert forall|p: int, j: int|
            0 <= p < b.kids@.len() && 0 <= j < b.kids@[p].len() implies b.slot_ok(p, j) by {
            assert(a.slot_ok(p, j));
        }
    }

    /// What a well-formed store holds: every view has one entry per row, the
    /// entity map and the rows agree, links stay in range, no row is its own
    /// parent, each child is listed once under its parent, and every row lies
    /// in its own subtree.
    pub proof fn lemma_wf_views(&self)
        requires
            self.wf(),
        ensures
            self.len() <= MAX_TRANSFORMS,
            self.parents().len() == self.len(),
            self.children().len() == self.len(),
            self.dirty_flags().len() == self.len(),
            forall|e: Entity| #[trigger]
                self.index().contains_key(e) ==> self.index()[e] < self.len()
                    && self.rows()[self.index()[e] as int] == e,
            forall|i: int|
                0 <= i < self.len() ==> self.index().contains_key(#[trigger] self.rows()[i])
                    && self.index()[self.rows()[i]] == i,
            forall|i: int|
                0 <= i < self.len() ==> #[trigger] self.parents()[i] == NO_TRANSFORM || (
                self.parents()[i] < self.len() && self.parents()[i] != i
                    && self.children()[self.parents()[i] as int].contains(i as Transform)),
            forall|p: int, j: int|
                0 <= p < self.len() && 0 <= j < self.children()[p].len() ==> #[trigger] self.children()[p][j]
                    < self.len() && self.parents()[self.children()[p][j] as int] == p,
            forall|p: int| 0 <= p < self.len() ==> (#[trigger] self.children()[p]).no_duplicates(),
            forall|t: Transform| #[trigger] self.is_descendant(t, t),
    {
        assert forall|p: int, j: int|
            0 <= p < self.len() && 0 <= j < self.children()[p].len() implies #[trigger] self.children()[p][j]
            < self.len() && self.parents()[self.children()[p][j] as int] == p by {
            assert(self.slot_ok(p, j));
        }
        assert forall|t: Transform| #[trigger] self.is_descendant(t, t) by {
            assert(self.ancestor_at(t, 0) == t);
        }
    }

    pub fn new() -> (s: SceneManager)
        ensures
            s.wf(),
            s.len() == 0,
            s.index() == Map::<Entity, Transform>::empty(),
    {
        SceneManager {
            transforms: BTreeMap::new(),
            entity: Vec::new(),
            parent: Vec::new(),
            child: Vec::new(),
            last_sibling: Vec::new(),
            next_sibling: Vec::new(),
            dirty: Vec::new(),
            kids: Ghost(Seq::empty()),
            rank: Ghost(Seq::empty()),
        }
    }

    /// Number of rows.
    pub fn count(&self) -> (n: usize)
        requires
            self.wf(),
        ensures
            n == self.len(),
    {
        self.entity.len()
    }

    /// Appends a root row for `e`, clean and without links.
    pub fn create_transform(&mut self, e: Entity) -> (r: Result<Transform, SceneError>)
        requires
            old(self).wf(),
            old(self).len() < MAX_TRANSFORMS,
        ensures
            final(self).wf(),
            old(self).index().contains_key(e) ==> r == Err::<Transform, SceneError>(
                SceneError::AlreadyExists,
            ) && *final(self) == *old(self),
            !old(self).index().contains_key(e) ==> {
                &&& r == Ok::<Transform, SceneError>(old(self).len() as Transform)
                &&& final(self).rows() == old(self).rows().push(e)
                &&& final(self).parents() == old(self).parents().push(NO_TRANSFORM)
                &&& final(self).children() == old(self).children().push(Seq::empty())
                &&& final(self).dirty_flags() == old(self).dirty_flags().push(false)
                &&& final(self).index() == old(self).index().insert(e, old(self).len() as Transform)
            },
    {
        if self.transforms.contains_key(&e) {
            return Err(SceneError::AlreadyExists);
        }
        let next = self.entity.len() as Transform;
        self.entity.push(e);
        self.parent.push(NO_TRANSFORM);
        self.child.push(NO_TRANSFORM);
        self.last_sibling.push(NO_TRANSFORM);
        self.next_sibling.push(NO_TRANSFORM);
        self.dirty.push(false);
        self.transforms.insert(e, next);
        self.kids = Ghost(self.kids@.push(Seq::empty()));
        self.rank = Ghost(self.rank@.push(0));
        proof {
            let o = old(self);
            assert forall|p: int, j: int|
                0 <= p < self.kids@.len() && 0 <= j < self.kids@[p].len() implies self.slot_ok(
                p,
                j,
            ) by {
                assert(p < o.kids@.len());
                assert(self.kids@[p] == o.kids@[p]);
                assert(o.slot_ok(p, j));
            }
            assert forall|i: int|
                0 <= i < self.parent@.len() implies {
                let p = #[trigger] self.parent@[i];
                p == NO_TRANSFORM || (p < self.parent@.len() && self.rank@[p as int] < self.rank@[i]
                    && self.kids@[p as int].contains(i as Transform))
            } by {
                if i < o.parent@.len() {
                    let p = o.parent@[i];
                    if p != NO_TRANSFORM {
                        assert(self.kids@[p as int] == o.kids@[p as int]);
                    }
                }
            }
        }
        Ok(next)
    }

    /// The children lists once row `t` has left its parent's list.
    pub open spec fn children_without(&self, t: Transform) -> Seq<Seq<Transform>> {
        let p = self.parents()[t as int];
        if p == NO_TRANSFORM {
            self.children()
        } else {
            self.children().update(p as int, remove_child(self.children()[p as int], t))
        }
    }

    /// The entity map once row `t` is destroyed: its entity is gone, and the
    /// entity of the last row, which moves into row `t`, maps there.
    pub open spec fn index_after_destroy(&self, t: Transform) -> Map<Entity, Transform> {
        let n = self.len();
        if t == n - 1 {
            self.index().remove(self.rows()[t as int])
        } else {
            self.index().remove(self.rows()[t as int]).insert(self.rows()[n - 1], t)
        }
    }

    /// The parent links once row `t` has been detached and its children made roots.
    pub open spec fn detached_parents(&self, t: Transform) -> Seq<Transform> {
        Seq::new(
            self.len(),
            |i: int|
                if i == t || self.parents()[i] == t {
                    NO_TRANSFORM
                } else {
                    self.parents()[i]
                },
        )
    }

    /// The children lists once row `t` has been detached and its children made roots.
    pub open spec fn detached_children(&self, t: Transform) -> Seq<Seq<Transform>> {
        self.children_without(t).update(t as int, Seq::empty())
    }

    /// Takes row `t` out of its parent's sibling list and makes it a root.
    fn unlink_row(&mut self, t: Transform)
        requires
            old(self).wf(),
            t < old(self).len(),
        ensures
            final(self).wf(),
            final(self).parents() == old(self).parents().update(t as int, NO_TRANSFORM),
            final(self).children() == old(self).children_without(t),
            final(self).rows() == old(self).rows(),
            final(self).index() == old(self).index(),
            final(self).dirty_flags() == old(self).dirty_flags(),
            final(self).rank == old(self).rank,
            final(self).child@[t as int] == old(self).child@[t as int],
            old(self).parent@[t as int] == NO_TRANSFORM ==> *final(self) == *old(self),
    {
        let p = self.parent[t as usize];
        if p == NO_TRANSFORM {
            assert(self.parent@.update(t as int, NO_TRANSFORM) =~= self.parent@);
            return ;
        }
        let prev = self.last_sibling[t as usize];
        let next = self.next_sibling[t as usize];
        let ghost o = *old(self);
        let ghost list = o.kids@[p as int];
        let ghost j = list.index_of(t);
        proof {
            assert(list.contains(t));
            assert(0 <= j < list.len() && list[j] == t);
            assert(o.slot_ok(p as int, j));
            if j > 0 {
                assert(o.slot_ok(p as int, j - 1));
            }
            if j + 1 < list.len() {
                assert(o.slot_ok(p as int, j + 1));
            }
        }
        if prev == NO_TRANSFORM {
            self.child.set(p as usize, next);
        } else {
            self.next_sibling.set(prev as usize, next);
        }
        if next != NO_TRANSFORM {
            self.last_sibling.set(next as usize, prev);
        }
        self.parent.set(t as usize, NO_TRANSFORM);
        self.next_sibling.set(t as usize, NO_TRANSFORM);
        self.last_sibling.set(t as usize, NO_TRANSFORM);
        let ghost nl = list.remove(j);
        self.kids = Ghost(self.kids@.update(p as int, nl));
        proof {
            assert(nl.no_duplicates()) by {
                assert forall|a: int, b: int| 0 <= a < b < nl.len() implies nl[a] != nl[b] by {
                    let aa = if a < j { a } else { a + 1 };
                    let bb = if b < j { b } else { b + 1 };
                    assert(nl[a] == list[aa] && nl[b] == list[bb]);
                }
            }
            assert forall|q: int, m: int|
                0 <= q < self.kids@.len() && 0 <= m < self.kids@[q].len() implies self.slot_ok(
                q,
                m,
            ) by {
                if q == p {
                    let mm = if m < j { m } else { m + 1 };
                    assert(nl[m] == list[mm]);
                    assert(o.slot_ok(q, mm));
                    if m > 0 {
                        let pm = if m - 1 < j { m - 1 } else { m };
                        assert(nl[m - 1] == list[pm]);
                        assert(o.slot_ok(q, pm));
                    }
                    if m + 1 < nl.len() {
                        let nm = if m + 1 < j { m + 1 } else { m + 2 };
                        assert(nl[m + 1] == list[nm]);
                    }
                } else {
                    assert(o.slot_ok(q, m));
                    let k = o.kids@[q][m];
                    assert(k != t && k != prev && k != next);
                    if m > 0 {
                        assert(o.slot_ok(q, m - 1));
                    }
                    if m + 1 < o.kids@[q].len() {
                        assert(o.slot_ok(q, m + 1));
                    }
                }
            }
            assert forall|i: int|
                0 <= i < self.parent@.len() implies {
                let pp = #[trigger] self.parent@[i];
                pp == NO_TRANSFORM || (pp < self.parent@.len() && self.rank@[pp as int]
                    < self.rank@[i] && self.kids@[pp as int].contains(i as Transform))
            } by {
                if i != t {
                    let pp = o.parent@[i];
                    if pp == p {
                        let m = list.index_of(i as Transform);
                        assert(list.contains(i as Transform));
                        assert(list[m] == i);
                        assert(m != j);
                        let mm = if m < j { m } else { m - 1 };
                        assert(nl[mm] == i);
                    }
                }
            }
            assert forall|i: int|
                0 <= i < self.parent@.len() && #[trigger] self.parent@[i] == NO_TRANSFORM implies
                self.last_sibling@[i] == NO_TRANSFORM && self.next_sibling@[i]
                == NO_TRANSFORM by {
                if i != t {
                    assert(o.parent@[i] == NO_TRANSFORM);
                    assert(i != prev || prev == NO_TRANSFORM);
                    assert(i != next || next == NO_TRANSFORM);
                }
            }
            assert forall|q: int| 0 <= q < self.kids@.len() implies #[trigger] self.child@[q] == (
            if self.kids@[q].len() == 0 {
                NO_TRANSFORM
            } else {
                self.kids@[q][0]
            }) by {
                if q == p && nl.len() > 0 {
                    if j == 0 {
                        assert(nl[0] == list[1]);
                    } else {
                        assert(nl[0] == list[0]);
                    }
                }
            }
            assert forall|q: int| 0 <= q < self.kids@.len() implies (
            #[trigger] self.kids@[q]).no_duplicates() by {
                if q != p {
                    assert(self.kids@[q] == o.kids@[q]);
                }
            }
        }
    }

    /// Following `k` then `d` parent links is following `k + d`.
    proof fn lemma_ancestor_add(&self, i: Transform, k: nat, d: nat)
        requires
            self.shape_ok(),
        ensures
            self.ancestor_at(i, k + d) == self.ancestor_at(self.ancestor_at(i, k), d),
        decreases k,
    {
        if k > 0 {
            if i >= self.len() {
                self.lemma_past_root(d);
            } else {
                self.lemma_ancestor_add(self.parent@[i as int], (k - 1) as nat, d);
            }
        }
    }

    /// Nothing is reached from the sentinel.
    proof fn lemma_past_root(&self, d: nat)
        requires
            self.shape_ok(),
        ensures
            self.ancestor_at(NO_TRANSFORM, d) == NO_TRANSFORM,
    {
    }

    /// One more parent link is one more step up.
    proof fn lemma_ancestor_next(&self, i: Transform, k: nat)
        requires
            self.shape_ok(),
        ensures
            self.ancestor_at(i, k + 1) == (if self.ancestor_at(i, k) >= self.len() {
                NO_TRANSFORM
            } else {
                self.parent@[self.ancestor_at(i, k) as int]
            }),
    {
        self.lemma_ancestor_add(i, k, 1);
        let a = self.ancestor_at(i, k);
        if a < self.len() {
            assert(self.ancestor_at(self.parent@[a as int], 0) == self.parent@[a as int]);
        }
    }

    /// A proper descendant of `a` has a parent, which descends from `a` too.
    proof fn lemma_descendant_parent(&self, i: Transform, a: Transform)
        requires
            self.shape_ok(),
            a < self.len(),
            self.is_descendant(i, a),
            i != a,
        ensures
            i < self.len(),
            self.parent@[i as int] != NO_TRANSFORM,
            self.is_descendant(self.parent@[i as int], a),
    {
        let k = choose|k: nat| self.ancestor_at(i, k) == a;
        assert(k > 0);
        assert(i < self.len());
        let q = self.parent@[i as int];
        assert(self.ancestor_at(q, (k - 1) as nat) == a);
        if q == NO_TRANSFORM {
            self.lemma_past_root((k - 1) as nat);
        }
    }

    /// The child of a descendant of `a` descends from `a`.
    proof fn lemma_descendant_child(&self, i: Transform, a: Transform)
        requires
            self.shape_ok(),
            i < self.len(),
            self.is_descendant(self.parent@[i as int], a),
        ensures
            self.is_descendant(i, a),
    {
        let k = choose|k: nat| self.ancestor_at(self.parent@[i as int], k) == a;
        assert(self.ancestor_at(i, k + 1) == a);
    }

    /// Ranks do not fall from a row to its descendants.
    proof fn lemma_descendant_rank(&self, i: Transform, a: Transform, k: nat)
        requires
            self.shape_ok(),
            self.parents_ok(),
            a < self.len(),
            self.ancestor_at(i, k) == a,
        ensures
            i < self.len(),
            self.rank@[i as int] >= self.rank@[a as int],
        decreases k,
    {
        if k > 0 {
            assert(i < self.len());
            let q = self.parent@[i as int];
            if q == NO_TRANSFORM {
                self.lemma_past_root((k - 1) as nat);
            }
            self.lemma_descendant_rank(q, a, (k - 1) as nat);
        }
    }

    /// Cutting the parent link of `c` only removes descendant relations.
    proof fn lemma_cut_keeps_descent(o: &Self, u: &Self, c: Transform, i: Transform, a: Transform, k: nat)
        requires
            o.shape_ok(),
            u.shape_ok(),
            u.len() == o.len(),
            c < o.len(),
            u.parent@ == o.parent@.update(c as int, NO_TRANSFORM),
            a < o.len(),
            u.ancestor_at(i, k) == a,
        ensures
            o.ancestor_at(i, k) == a,
        decreases k,
    {
        if k > 0 {
            assert(i < u.len());
            if i == c {
                u.lemma_past_root((k - 1) as nat);
            } else {
                Self::lemma_cut_keeps_descent(o, u, c, u.parent@[i as int], a, (k - 1) as nat);
            }
        }
    }

    /// Whether row `t` is `a` or lies below it: walks up from `t`.
    fn descends_from(&self, t: Transform, a: Transform) -> (r: bool)
        requires
            self.wf(),
            t < self.len(),
            a < self.len(),
        ensures
            r == self.is_descendant(t, a),
    {
        let mut cur = t;
        let ghost mut k: nat = 0;
        while cur != NO_TRANSFORM
            invariant
                self.wf(),
                a < self.len(),
                cur == self.ancestor_at(t, k),
                cur == NO_TRANSFORM || cur < self.len(),
                forall|m: nat| m < k ==> self.ancestor_at(t, m) != a,
            decreases (if cur == NO_TRANSFORM {
                0
            } else {
                self.rank@[cur as int] + 1
            }),
        {
            if cur == a {
                return true;
            }
            proof {
                self.lemma_ancestor_next(t, k);
            }
            cur = self.parent[cur as usize];
            proof {
                k = k + 1;
            }
        }
        assert forall|m: nat| self.ancestor_at(t, m) != a by {
            if m >= k {
                self.lemma_ancestor_add(t, k, (m - k) as nat);
                self.lemma_past_root((m - k) as nat);
            }
        }
        false
    }

    /// Moves `child_e`'s transform to the end of `parent_e`'s children and
    /// marks it dirty. Refused, with nothing changed, when either entity has
    /// no transform or when the parent is the child or lies below it.
    #[verifier::rlimit(40)]
    pub fn link(&mut self, child_e: Entity, parent_e: Entity) -> (r: Result<(), SceneError>)
        requires
            old(self).wf(),
        ensures
            final(self).wf(),
            !(old(self).index().contains_key(child_e) && old(self).index().contains_key(parent_e))
                ==> r == Err::<(), SceneError>(SceneError::NotFound) && *final(self) == *old(self),
            old(self).index().contains_key(child_e) && old(self).index().contains_key(parent_e)
                ==> {
                let c = old(self).index()[child_e];
                let p = old(self).index()[parent_e];
                let cut = old(self).children_without(c);
                &&& child_e == parent_e ==> r == Err::<(), SceneError>(SceneError::CyclicLink)
                &&& old(self).is_descendant(p, c) ==> r == Err::<(), SceneError>(
                    SceneError::CyclicLink,
                ) && *final(self) == *old(self)
                &&& !old(self).is_descendant(p, c) ==> {
                    &&& r == Ok::<(), SceneError>(())
                    &&& final(self).parents() == old(self).parents().update(c as int, p)
                    &&& final(self).children() == cut.update(p as int, cut[p as int].push(c))
                    &&& final(self).children()[c as int] == old(self).children()[c as int]
                    &&& final(self).dirty_flags() == old(self).dirty_flags().update(c as int, true)
                    &&& final(self).rows() == old(self).rows()
                    &&& final(self).index() == old(self).index()
                }
            },
    {
        let c = match self.transform_for(child_e) {
            Ok(t) => t,
            Err(e) => return Err(e),
        };
        let p = match self.transform_for(parent_e) {
            Ok(t) => t,
            Err(e) => return Err(e),
        };
        proof {
            assert(old(self).ancestor_at(p, 0) == p);
        }
        if self.descends_from(p, c) {
            return Err(SceneError::CyclicLink);
        }
        proof {
            let q = old(self).parent@[c as int];
            assert(q == NO_TRANSFORM || q != c);
            assert(old(self).ancestor_at(c, 0) == c);
            assert(p != c);
        }
        self.unlink_row(c);
        let ghost u = *self;
        proof {
            assert(!u.is_descendant(p, c)) by {
                if u.is_descendant(p, c) {
                    let k = choose|k: nat| u.ancestor_at(p, k) == c;
                    Self::lemma_cut_keeps_descent(old(self), &u, c, p, c, k);
                }
            }
            assert(!u.kids@[p as int].contains(c)) by {
                if u.kids@[p as int].contains(c) {
                    let j = u.kids@[p as int].index_of(c);
                    assert(u.slot_ok(p as int, j));
                }
            }
        }
        let ghost list = u.kids@[p as int];
        proof {
            assert(u.child@[p as int] == (if list.len() == 0 {
                NO_TRANSFORM
            } else {
                list[0]
            }));
            assert(u.roots_ok());
            assert(u.parent@[c as int] == NO_TRANSFORM);
            assert(u.last_sibling@[c as int] == NO_TRANSFORM);
            assert(u.next_sibling@[c as int] == NO_TRANSFORM);
            if list.len() > 0 {
                assert(u.slot_ok(p as int, 0));
                assert(list[0] < u.len());
            }
        }
        let first = self.child[p as usize];
        if first == NO_TRANSFORM {
            self.child.set(p as usize, c);
        } else {
            let mut cur = first;
            let ghost mut j: int = 0;
            proof {
                assert(u.slot_ok(p as int, 0));
            }
            while self.next_sibling[cur as usize] != NO_TRANSFORM
                invariant
                    *self == u,
                    u.wf(),
                    p < u.len(),
                    0 <= j < list.len(),
                    list == u.kids@[p as int],
                    cur == list[j],
                    u.slot_ok(p as int, j),
                decreases list.len() - j,
            {
                cur = self.next_sibling[cur as usize];
                proof {
                    j = j + 1;
                    assert(u.slot_ok(p as int, j));
                }
            }
            proof {
                if j + 1 < list.len() {
                    assert(u.slot_ok(p as int, j + 1));
                }
            }
            assert(j == list.len() - 1);
            self.next_sibling.set(cur as usize, c);
            self.last_sibling.set(c as usize, cur);
        }
        assert(self.child@ == (if list.len() == 0 {
            u.child@.update(p as int, c)
        } else {
            u.child@
        }));
        assert(self.next_sibling@ == (if list.len() == 0 {
            u.next_sibling@
        } else {
            u.next_sibling@.update(list[list.len() - 1] as int, c)
        }));
        assert(self.last_sibling@ == (if list.len() == 0 {
            u.last_sibling@
        } else {
            u.last_sibling@.update(c as int, list[list.len() - 1])
        }));
        self.parent.set(c as usize, p);
        self.dirty.set(c as usize, true);
        let ghost nl = list.push(c);
        self.kids = Ghost(u.kids@.update(p as int, nl));
        let ghost rc = u.rank@[c as int];
        let ghost rp = u.rank@[p as int];
        self.rank = Ghost(
            Seq::new(
                u.len(),
                |i: int|
                    if u.is_descendant(i as Transform, c) {
                        (u.rank@[i] - rc + rp + 1) as nat
                    } else {
                        u.rank@[i]
                    },
            ),
        );
        proof {
            assert(u.roots_ok());
            assert(u.parent@[c as int] == NO_TRANSFORM);
            assert(u.is_descendant(c, c)) by {
                assert(u.ancestor_at(c, 0) == c);
            }
            assert forall|i: int| 0 <= i < u.len() && u.is_descendant(i as Transform, c) implies
                u.rank@[i] >= rc by {
                let ti = i as Transform;
                let k = choose|k: nat| u.ancestor_at(ti, k) == c;
                u.lemma_descendant_rank(ti, c, k);
            }
            assert forall|q: int, m: int|
                0 <= q < self.kids@.len() && 0 <= m < self.kids@[q].len() implies self.slot_ok(
                q,
                m,
            ) by {
                if q == p {
                    if m < list.len() {
                        assert(u.slot_ok(q, m));
                    }
                    if m > 0 {
                        assert(u.slot_ok(q, m - 1));
                    }
                } else {
                    assert(u.slot_ok(q, m));
                    let k = u.kids@[q][m];
                    assert(k != c);
                    if list.len() > 0 {
                        assert(u.slot_ok(p as int, list.len() - 1));
                        assert(k != list[list.len() - 1]);
                    }
                }
            }
            assert forall|i: int|
                0 <= i < self.parent@.len() implies {
                let pp = #[trigger] self.parent@[i];
                pp == NO_TRANSFORM || (pp < self.parent@.len() && self.rank@[pp as int]
                    < self.rank@[i] && self.kids@[pp as int].contains(i as Transform))
            } by {
                if i == c {
                    assert(nl[list.len() as int] == c);
                } else {
                    let pp = u.parent@[i];
                    if pp != NO_TRANSFORM {
                        assert(u.kids@[pp as int].contains(i as Transform));
                        if pp == p {
                            let m = list.index_of(i as Transform);
                            assert(nl[m] == i);
                        }
                        if u.is_descendant(i as Transform, c) {
                            u.lemma_descendant_parent(i as Transform, c);
                        } else if u.is_descendant(pp, c) {
                            u.lemma_descendant_child(i as Transform, c);
                        }
                    }
                }
            }
            assert forall|i: int|
                0 <= i < self.parent@.len() && #[trigger] self.parent@[i] == NO_TRANSFORM implies
                self.last_sibling@[i] == NO_TRANSFORM && self.next_sibling@[i]
                == NO_TRANSFORM by {
                assert(i != c);
                if list.len() > 0 {
                    assert(u.slot_ok(p as int, list.len() - 1));
                }
            }
            assert forall|q: int| 0 <= q < self.kids@.len() implies (
            #[trigger] self.kids@[q]).no_duplicates() by {
                if q != p {
                    assert(self.kids@[q] == u.kids@[q]);
                }
            }
            assert forall|q: int| 0 <= q < self.kids@.len() implies #[trigger] self.child@[q] == (
            if self.kids@[q].len() == 0 {
                NO_TRANSFORM
            } else {
                self.kids@[q][0]
            }) by {
                assert(u.child@[q] == (if u.kids@[q].len() == 0 {
                    NO_TRANSFORM
                } else {
                    u.kids@[q][0]
                }));
                if q == p {
                    assert(nl[0] == (if list.len() > 0 { list[0] } else { c }));
                }
            }
        }
        Ok(())
    }

    /// `order` lists row `t` first and then every row below it, each once and
    /// each after its parent: the order in which world poses are recomputed.
    pub open spec fn is_propagation_order(&self, t: Transform, order: Seq<Transform>) -> bool {
        &&& order.len() > 0
        &&& order[0] == t
        &&& order.no_duplicates()
        &&& forall|x: int| 0 <= x < order.len() ==> #[trigger] order[x] < self.len()
        &&& forall|x: int|
            1 <= x < order.len() ==> exists|m: int|
                0 <= m < x && order[m] == self.parents()[#[trigger] order[x] as int]
        &&& forall|i: Transform| i < self.len() ==> (order.contains(i) <==> #[trigger] self.is_descendant(i, t))
    }

    /// Every row reached from `t` upwards within the listed rows' children is listed.
    proof fn lemma_closed_order(&self, order: Seq<Transform>, t: Transform, i: Transform, k: nat)
        requires
            self.wf(),
            t < self.len(),
            order.len() > 0,
            order[0] == t,
            forall|m: int, ii: int|
                0 <= m < order.len() && 0 <= ii < self.kids@[order[m] as int].len() ==> order.contains(
                    #[trigger] self.kids@[order[m] as int][ii],
                ),
            forall|x: int| 0 <= x < order.len() ==> #[trigger] order[x] < self.len(),
            self.ancestor_at(i, k) == t,
        ensures
            order.contains(i),
        decreases k,
    {
        if k == 0 {
            assert(order[0] == i);
        } else {
            assert(i < self.len());
            let q = self.parent@[i as int];
            if q == NO_TRANSFORM {
                self.lemma_past_root((k - 1) as nat);
            }
            self.lemma_closed_order(order, t, q, (k - 1) as nat);
            assert(self.kids@[q as int].contains(i));
            let m = order.index_of(q);
            let ii = self.kids@[q as int].index_of(i);
            assert(self.kids@[order[m] as int][ii] == i);
        }
    }

    /// Lists row `t` and every row below it, parents before children.
    pub fn subtree(&self, t: Transform) -> (r: Result<Vec<Transform>, SceneError>)
        requires
            self.wf(),
        ensures
            t >= self.len() ==> r == Err::<Vec<Transform>, SceneError>(SceneError::OutOfRange),
            t < self.len() ==> r is Ok && self.is_propagation_order(t, r->Ok_0@),
    {
        if t as usize >= self.entity.len() {
            return Err(SceneError::OutOfRange);
        }
        let ghost n = self.len();
        let mut order: Vec<Transform> = Vec::new();
        order.push(t);
        let ghost mut from: Seq<int> = seq![0int];
        proof {
            assert(self.ancestor_at(t, 0) == t);
        }
        let mut head: usize = 0;
        while head < order.len()
            invariant
                self.wf(),
                n == self.len(),
                t < n,
                0 <= head <= order@.len() <= n,
                order@.len() > 0,
                order@[0] == t,
                order@.no_duplicates(),
                forall|x: int| 0 <= x < order@.len() ==> #[trigger] order@[x] < n,
                forall|x: int| 0 <= x < order@.len() ==> self.is_descendant(#[trigger] order@[x], t),
                from.len() == order@.len(),
                forall|x: int|
                    1 <= x < order@.len() ==> 0 <= #[trigger] from[x] < x && from[x] < head
                        && order@[from[x]] == self.parent@[order@[x] as int],
                forall|m: int, ii: int|
                    0 <= m < head && 0 <= ii < self.kids@[order@[m] as int].len()
                        ==> order@.contains(#[trigger] self.kids@[order@[m] as int][ii]),
            decreases n - head,
        {
            let p = order[head];
            let ghost list = self.kids@[p as int];
            let ghost base = order@;
            let ghost base_from = from;
            let mut cur = self.child[p as usize];
            let ghost mut j: int = 0;
            proof {
                if list.len() > 0 {
                    assert(self.slot_ok(p as int, 0));
                }
            }
            while cur != NO_TRANSFORM
                invariant
                    self.wf(),
                    n == self.len(),
                    t < n,
                    p < n,
                    0 <= head < base.len(),
                    p == base[head as int],
                    list == self.kids@[p as int],
                    0 <= j <= list.len(),
                    cur == (if j < list.len() {
                        list[j]
                    } else {
                        NO_TRANSFORM
                    }),
                    order@ == base + list.subrange(0, j),
                    order@.len() <= n,
                    base[0] == t,
                    base.no_duplicates(),
                    forall|x: int| 0 <= x < base.len() ==> #[trigger] base[x] < n,
                    forall|x: int| 0 <= x < order@.len() ==> #[trigger] order@[x] < n,
                    order@.no_duplicates(),
                    forall|x: int| 0 <= x < order@.len() ==> self.is_descendant(#[trigger] order@[x], t),
                    from.len() == order@.len(),
                    base_from.len() == base.len(),
                    forall|x: int|
                        1 <= x < base.len() ==> 0 <= #[trigger] base_from[x] < x && base_from[x] < head
                            && base[base_from[x]] == self.parent@[base[x] as int],
                    forall|x: int|
                        1 <= x < order@.len() ==> 0 <= #[trigger] from[x] < x && from[x] <= head
                            && order@[from[x]] == self.parent@[order@[x] as int],
                    forall|m: int, ii: int|
                        0 <= m < head && 0 <= ii < self.kids@[order@[m] as int].len()
                            ==> order@.contains(#[trigger] self.kids@[order@[m] as int][ii]),
                decreases list.len() - j,
            {
                proof {
                    assert(self.slot_ok(p as int, j));
                    assert(order@[head as int] == p);
                    assert(self.is_descendant(p, t));
                    let kk = choose|kk: nat| self.ancestor_at(p, kk) == t;
                    self.lemma_descendant_rank(p, t, kk);
                    assert(self.rank@[cur as int] > self.rank@[p as int]);
                    assert(!order@.contains(cur)) by {
                        if order@.contains(cur) {
                            let x = order@.index_of(cur);
                            if x >= base.len() {
                                assert(order@[x] == list[x - base.len()]);
                            } else if x >= 1 {
                                assert(base[base_from[x]] == p);
                            }
                        }
                    }
                    self.lemma_descendant_child(cur, t);
                    lemma_distinct_rows(order@.push(cur), n);
                }
                let ghost old_order = order@;
                order.push(cur);
                proof {
                    from = from.push(head as int);
                    assert(list.subrange(0, j + 1) == list.subrange(0, j).push(cur));
                    assert forall|m: int, ii: int|
                        0 <= m < head && 0 <= ii < self.kids@[order@[m] as int].len()
                            implies order@.contains(#[trigger] self.kids@[order@[m] as int][ii]) by {
                        assert(old_order[m] == order@[m]);
                        let v = self.kids@[order@[m] as int][ii];
                        assert(old_order.contains(v));
                        let w = old_order.index_of(v);
                        assert(order@[w] == v);
                    }
                    if j + 1 < list.len() {
                        assert(self.slot_ok(p as int, j + 1));
                    }
                }
                cur = self.next_sibling[cur as usize];
                proof {
                    j = j + 1;
                }
            }
            proof {
                if j < list.len() {
                    assert(self.slot_ok(p as int, j));
                }
                assert(list.subrange(0, j) == list);
                assert forall|m: int, ii: int|
                    0 <= m < head + 1 && 0 <= ii < self.kids@[order@[m] as int].len()
                        implies order@.contains(#[trigger] self.kids@[order@[m] as int][ii]) by {
                    if m == head {
                        assert(order@[base.len() + ii] == list[ii]);
                    }
                }
            }
            head = head + 1;
        }
        proof {
            assert forall|i: Transform| i < n implies (order@.contains(i) <==> #[trigger] self.is_descendant(i, t)) by {
                if self.is_descendant(i, t) {
                    let k = choose|k: nat| self.ancestor_at(i, k) == t;
                    self.lemma_closed_order(order@, t, i, k);
                }
            }
            assert forall|x: int| 1 <= x < order@.len() implies exists|m: int|
                0 <= m < x && order@[m] == self.parents()[#[trigger] order@[x] as int] by {
                assert(order@[from[x]] == self.parent@[order@[x] as int]);
            }
        }
        Ok(order)
    }

    /// Marks row `t` dirty and lists the rows whose world pose follows from
    /// it, in the order to recompute them.
    pub fn apply(&mut self, t: Transform) -> (r: Result<Vec<Transform>, SceneError>)
        requires
            old(self).wf(),
        ensures
            final(self).wf(),
            t >= old(self).len() ==> r == Err::<Vec<Transform>, SceneError>(SceneError::OutOfRange)
                && *final(self) == *old(self),
            t < old(self).len() ==> {
                &&& r is Ok
                &&& old(self).is_propagation_order(t, r->Ok_0@)
                &&& final(self).dirty_flags() == old(self).dirty_flags().update(t as int, true)
                &&& final(self).rows() == old(self).rows()
                &&& final(self).parents() == old(self).parents()
                &&& final(self).children() == old(self).children()
                &&& final(self).index() == old(self).index()
            },
    {
        let order = self.subtree(t);
        if order.is_ok() {
            self.dirty.set(t as usize, true);
            proof {
                Self::lemma_flags_only(old(self), self);
            }
        }
        order
    }

    /// Takes `e`'s transform out of its parent's children, making it a root.
    /// Its matrices are left as they are.
    pub fn unlink(&mut self, e: Entity) -> (r: Result<(), SceneError>)
        requires
            old(self).wf(),
        ensures
            final(self).wf(),
            !old(self).index().contains_key(e) ==> r == Err::<(), SceneError>(SceneError::NotFound)
                && *final(self) == *old(self),
            old(self).index().contains_key(e) ==> {
                let t = old(self).index()[e];
                &&& r == Ok::<(), SceneError>(())
                &&& final(self).parents() == old(self).parents().update(t as int, NO_TRANSFORM)
                &&& final(self).children() == old(self).children_without(t)
                &&& final(self).children()[t as int] == old(self).children()[t as int]
                &&& final(self).rows() == old(self).rows()
                &&& final(self).index() == old(self).index()
                &&& final(self).dirty_flags() == old(self).dirty_flags()
                &&& old(self).parents()[t as int] == NO_TRANSFORM ==> *final(self) == *old(self)
            },
    {
        let t = match self.transform_for(e) {
            Ok(t) => t,
            Err(err) => return Err(err),
        };
        proof {
            old(self).lemma_wf_views();
        }
        self.unlink_row(t);
        Ok(())
    }

    /// Which rows link to row `x`: its children through `parent`, its
    /// parent through `child` when it comes first, and its two neighbours.
    proof fn lemma_references(&self, x: Transform)
        requires
            self.wf(),
            x < self.len(),
        ensures
            forall|q: int|
                0 <= q < self.len() ==> (#[trigger] self.parent@[q] == x <==> self.kids@[x as int].contains(
                    q as Transform,
                )),
            forall|q: int|
                0 <= q < self.len() ==> (#[trigger] self.child@[q] == x <==> (q == self.parent@[x as int]
                    && self.last_sibling@[x as int] == NO_TRANSFORM)),
            forall|q: int|
                0 <= q < self.len() ==> (#[trigger] self.last_sibling@[q] == x <==> (q
                    == self.next_sibling@[x as int] && self.next_sibling@[x as int] != NO_TRANSFORM)),
            forall|q: int|
                0 <= q < self.len() ==> (#[trigger] self.next_sibling@[q] == x <==> (q
                    == self.last_sibling@[x as int] && self.last_sibling@[x as int] != NO_TRANSFORM)),
    {
        assert forall|q: int| 0 <= q < self.len() implies (#[trigger] self.parent@[q] == x
            <==> self.kids@[x as int].contains(q as Transform)) by {
            if self.kids@[x as int].contains(q as Transform) {
                let j = self.kids@[x as int].index_of(q as Transform);
                assert(self.slot_ok(x as int, j));
            }
        }
        let px = self.parent@[x as int];
        let jx = if px != NO_TRANSFORM {
            self.kids@[px as int].index_of(x)
        } else {
            0
        };
        if px != NO_TRANSFORM {
            assert(self.kids@[px as int].contains(x));
            assert(self.slot_ok(px as int, jx));
            if jx > 0 {
                assert(self.slot_ok(px as int, jx - 1));
            }
            if jx + 1 < self.kids@[px as int].len() {
                assert(self.slot_ok(px as int, jx + 1));
            }
        }
        assert forall|q: int| 0 <= q < self.len() implies (#[trigger] self.child@[q] == x <==> (q
            == self.parent@[x as int] && self.last_sibling@[x as int] == NO_TRANSFORM)) by {
            if self.child@[q] == x {
                assert(self.slot_ok(q, 0));
            }
        }
        assert forall|q: int| 0 <= q < self.len() implies (#[trigger] self.last_sibling@[q] == x
            <==> (q == self.next_sibling@[x as int] && self.next_sibling@[x as int]
            != NO_TRANSFORM)) by {
            if self.last_sibling@[q] == x {
                let pq = self.parent@[q];
                assert(pq != NO_TRANSFORM);
                assert(self.kids@[pq as int].contains(q as Transform));
                let m = self.kids@[pq as int].index_of(q as Transform);
                assert(self.slot_ok(pq as int, m));
                assert(self.slot_ok(pq as int, m - 1));
            }
        }
        assert forall|q: int| 0 <= q < self.len() implies (#[trigger] self.next_sibling@[q] == x
            <==> (q == self.last_sibling@[x as int] && self.last_sibling@[x as int]
            != NO_TRANSFORM)) by {
            if self.next_sibling@[q] == x {
                let pq = self.parent@[q];
                assert(pq != NO_TRANSFORM);
                assert(self.kids@[pq as int].contains(q as Transform));
                let m = self.kids@[pq as int].index_of(q as Transform);
                assert(self.slot_ok(pq as int, m));
                assert(self.slot_ok(pq as int, m + 1));
            }
        }
    }

    /// Detaches row `t` from its parent and turns each of its children into a root.
    fn isolate_row(&mut self, t: Transform)
        requires
            old(self).wf(),
            t < old(self).len(),
        ensures
            final(self).wf(),
            final(self).parents() == old(self).detached_parents(t),
            final(self).children() == old(self).detached_children(t),
            final(self).rows() == old(self).rows(),
            final(self).index() == old(self).index(),
            final(self).dirty_flags() == old(self).dirty_flags(),
            final(self).rank == old(self).rank,
    {
        self.unlink_row(t);
        let ghost a = *self;
        let ghost all = a.kids@[t as int];
        let ghost mut j: int = 0;
        assert(self.kids@ =~= a.kids@.update(t as int, self.kids@[t as int]));
        assert(all.subrange(0, all.len() as int) =~= all);
        while self.child[t as usize] != NO_TRANSFORM
            invariant
                self.wf(),
                t < self.len(),
                a.wf(),
                a.len() == self.len(),
                a.parent@[t as int] == NO_TRANSFORM,
                all == a.kids@[t as int],
                0 <= j <= all.len(),
                self.kids@[t as int] == all.subrange(j, all.len() as int),
                self.kids@ == a.kids@.update(t as int, self.kids@[t as int]),
                forall|i: int|
                    0 <= i < self.len() ==> #[trigger] self.parent@[i] == (if a.parent@[i] == t
                        && !self.kids@[t as int].contains(i as Transform) {
                        NO_TRANSFORM
                    } else {
                        a.parent@[i]
                    }),
                self.entity@ == a.entity@,
                self.transforms@ == a.transforms@,
                self.dirty@ == a.dirty@,
                self.rank == a.rank,
            decreases self.kids@[t as int].len(),
        {
            let k = self.child[t as usize];
            let ghost before = *self;
            proof {
                assert(self.kids@[t as int].len() > 0);
                assert(self.slot_ok(t as int, 0));
                assert(self.kids@[t as int].index_of(k) == 0) by {
                    let w = self.kids@[t as int].index_of(k);
                    assert(self.kids@[t as int].contains(k)) by {
                        assert(self.kids@[t as int][0] == k);
                    }
                }
            }
            self.unlink_row(k);
            proof {
                assert(self.kids@[t as int] =~= all.subrange(j + 1, all.len() as int));
                assert(self.kids@ =~= a.kids@.update(t as int, self.kids@[t as int]));
                assert forall|i: int| 0 <= i < self.len() implies #[trigger] self.parent@[i] == (
                if a.parent@[i] == t && !self.kids@[t as int].contains(i as Transform) {
                    NO_TRANSFORM
                } else {
                    a.parent@[i]
                }) by {
                    if i != k {
                        if before.kids@[t as int].contains(i as Transform) {
                            let w = before.kids@[t as int].index_of(i as Transform);
                            assert(w != 0);
                            assert(self.kids@[t as int][w - 1] == i);
                        }
                        if self.kids@[t as int].contains(i as Transform) {
                            let w = self.kids@[t as int].index_of(i as Transform);
                            assert(before.kids@[t as int][w + 1] == i);
                        }
                    } else {
                        assert(before.parent@[i] == t);
                        assert(a.parent@[i] == t);
                        if self.kids@[t as int].contains(i as Transform) {
                            let w = self.kids@[t as int].index_of(i as Transform);
                            assert(before.kids@[t as int][w + 1] == i);
                        }
                    }
                }
                j = j + 1;
            }
        }
        proof {
            assert(self.kids@[t as int].len() == 0) by {
                assert(self.child@[t as int] == (if self.kids@[t as int].len() == 0 {
                    NO_TRANSFORM
                } else {
                    self.kids@[t as int][0]
                }));
                if self.kids@[t as int].len() > 0 {
                    assert(self.slot_ok(t as int, 0));
                }
            }
            assert(self.parent@ =~= old(self).detached_parents(t));
            assert(self.kids@[t as int] =~= Seq::<Transform>::empty());
            assert(self.kids@ =~= a.kids@.update(t as int, Seq::<Transform>::empty()));
            assert(self.kids@ =~= old(self).detached_children(t));
        }
    }

    /// Removing an isolated row `t` by moving the last row into its place, and
    /// renaming every link to the last row, keeps the store well formed.
    proof fn lemma_renamed_wf(b: &Self, f: &Self, t: Transform)
        requires
            b.wf(),
            t < b.len(),
            b.parent@[t as int] == NO_TRANSFORM,
            b.kids@[t as int].len() == 0,
            f.entity@ == Seq::new((b.len() - 1) as nat, |q: int| b.entity@[moved_from(t, b.len(), q)]),
            f.dirty@ == Seq::new((b.len() - 1) as nat, |q: int| b.dirty@[moved_from(t, b.len(), q)]),
            f.parent@ == Seq::new(
                (b.len() - 1) as nat,
                |q: int| renamed(t, b.len(), b.parent@[moved_from(t, b.len(), q)]),
            ),
            f.child@ == Seq::new(
                (b.len() - 1) as nat,
                |q: int| renamed(t, b.len(), b.child@[moved_from(t, b.len(), q)]),
            ),
            f.last_sibling@ == Seq::new(
                (b.len() - 1) as nat,
                |q: int| renamed(t, b.len(), b.last_sibling@[moved_from(t, b.len(), q)]),
            ),
            f.next_sibling@ == Seq::new(
                (b.len() - 1) as nat,
                |q: int| renamed(t, b.len(), b.next_sibling@[moved_from(t, b.len(), q)]),
            ),
            f.kids@ == Seq::new(
                (b.len() - 1) as nat,
                |q: int|
                    b.kids@[moved_from(t, b.len(), q)].map_values(|x: Transform| renamed(t, b.len(), x)),
            ),
            f.rank@ == Seq::new((b.len() - 1) as nat, |q: int| b.rank@[moved_from(t, b.len(), q)]),
            f.transforms@ == (if t == b.len() - 1 {
                b.transforms@.remove(b.entity@[t as int])
            } else {
                b.transforms@.remove(b.entity@[t as int]).insert(b.entity@[b.len() - 1], t)
            }),
        ensures
            f.wf(),
    {
        let n = b.len();
        let last = (n - 1) as int;
        let ren = |x: Transform| renamed(t, n, x);
        // No row links to `t`, so renaming is one to one on what the lists hold.
        assert forall|p: int, j: int| 0 <= p < n && 0 <= j < b.kids@[p].len() implies #[trigger] b.kids@[p][j] != t by {
            assert(b.slot_ok(p, j));
        }
        assert forall|i: int| 0 <= i < n implies #[trigger] b.parent@[i] != t by {
            if b.parent@[i] == t {
                assert(b.kids@[t as int].contains(i as Transform));
            }
        }
        assert(f.shape_ok());
        // The entity map.
        assert forall|i: int, k: int| 0 <= i < n && 0 <= k < n && i != k implies #[trigger] b.entity@[i] != #[trigger] b.entity@[k] by {
            assert(b.transforms@[b.entity@[i]] == i);
            assert(b.transforms@[b.entity@[k]] == k);
        }
        assert forall|e: Entity| #[trigger] f.transforms@.contains_key(e) implies f.transforms@[e] < f.entity@.len()
            && f.entity@[f.transforms@[e] as int] == e by {
            if t < last && e == b.entity@[last] {
            } else {
                let i = b.transforms@[e] as int;
                assert(b.entity@[i] == e);
                assert(i != t);
                assert(i != last);
            }
        }
        assert forall|q: int| 0 <= q < f.entity@.len() implies f.transforms@.contains_key(#[trigger] f.entity@[q])
            && f.transforms@[f.entity@[q]] == q by {
            let src = moved_from(t, n, q);
            assert(b.transforms@[b.entity@[src]] == src);
            if q != t {
                assert(b.entity@[q] != b.entity@[t as int]);
                if t < last {
                    assert(b.entity@[q] != b.entity@[last]);
                }
            }
        }
        assert(f.index_ok());
        // Parents.
        assert forall|q: int| 0 <= q < f.parent@.len() implies {
            let pp = #[trigger] f.parent@[q];
            pp == NO_TRANSFORM || (pp < f.parent@.len() && f.rank@[pp as int] < f.rank@[q]
                && f.kids@[pp as int].contains(q as Transform))
        } by {
            let src = moved_from(t, n, q);
            let bp = b.parent@[src];
            if bp != NO_TRANSFORM {
                assert(bp != t);
                let pp = ren(bp);
                assert(moved_from(t, n, pp as int) == bp);
                assert(b.kids@[bp as int].contains(src as Transform));
                let w = b.kids@[bp as int].index_of(src as Transform);
                assert(f.kids@[pp as int][w] == ren(src as Transform));
                assert(ren(src as Transform) == q);
            }
        }
        assert(f.parents_ok());
        assert forall|q: int|
            0 <= q < f.parent@.len() && #[trigger] f.parent@[q] == NO_TRANSFORM implies f.last_sibling@[q]
            == NO_TRANSFORM && f.next_sibling@[q] == NO_TRANSFORM by {
            let src = moved_from(t, n, q);
            assert(b.parent@[src] == NO_TRANSFORM);
        }
        assert(f.roots_ok());
        // Children lists.
        assert forall|p: int| 0 <= p < f.kids@.len() implies (#[trigger] f.kids@[p]).no_duplicates() by {
            let src = moved_from(t, n, p);
            let l = b.kids@[src];
            assert(l.no_duplicates());
            assert forall|x: int, y: int| 0 <= x < y < f.kids@[p].len() implies f.kids@[p][x] != f.kids@[p][y] by {
                assert(l[x] != l[y]);
                assert(l[x] != t);
                assert(l[y] != t);
            }
        }
        assert forall|p: int| 0 <= p < f.kids@.len() implies #[trigger] f.child@[p] == (if f.kids@[p].len() == 0 {
            NO_TRANSFORM
        } else {
            f.kids@[p][0]
        }) by {
            let src = moved_from(t, n, p);
            assert(b.child@[src] == (if b.kids@[src].len() == 0 {
                NO_TRANSFORM
            } else {
                b.kids@[src][0]
            }));
        }
        assert forall|p: int, j: int| 0 <= p < f.kids@.len() && 0 <= j < f.kids@[p].len() implies #[trigger] f.slot_ok(p, j) by {
            let src = moved_from(t, n, p);
            let l = b.kids@[src];
            assert(b.slot_ok(src, j));
            let k = l[j];
            assert(k != t);
            assert(moved_from(t, n, ren(k) as int) == k);
            assert(ren(src as Transform) == p);
            if j > 0 {
                assert(b.slot_ok(src, j - 1));
            }
            if j + 1 < l.len() {
                assert(b.slot_ok(src, j + 1));
            }
        }
        assert(f.kids_ok());
    }

    /// Removes the isolated row `t`: the last row moves into its place and
    /// every link to the last row is redirected to `t`.
    fn remove_isolated(&mut self, t: Transform)
        requires
            old(self).wf(),
            t < old(self).len(),
            old(self).parent@[t as int] == NO_TRANSFORM,
            old(self).kids@[t as int].len() == 0,
        ensures
            final(self).wf(),
            final(self).rows() == Seq::new(
                (old(self).len() - 1) as nat,
                |q: int| old(self).rows()[moved_from(t, old(self).len(), q)],
            ),
            final(self).dirty_flags() == Seq::new(
                (old(self).len() - 1) as nat,
                |q: int| old(self).dirty_flags()[moved_from(t, old(self).len(), q)],
            ),
            final(self).parents() == Seq::new(
                (old(self).len() - 1) as nat,
                |q: int| renamed(t, old(self).len(), old(self).parents()[moved_from(t, old(self).len(), q)]),
            ),
            final(self).children() == Seq::new(
                (old(self).len() - 1) as nat,
                |q: int|
                    old(self).children()[moved_from(t, old(self).len(), q)].map_values(
                        |x: Transform| renamed(t, old(self).len(), x),
                    ),
            ),
            final(self).index() == (if t == old(self).len() - 1 {
                old(self).index().remove(old(self).rows()[t as int])
            } else {
                old(self).index().remove(old(self).rows()[t as int]).insert(
                    old(self).rows()[old(self).len() - 1],
                    t,
                )
            }),
    {
        let ghost b = *old(self);
        let ghost n = b.len();
        let last = self.entity.len() - 1;
        let e_t = self.entity[t as usize];
        let el = self.entity[last];
        proof {
            assert(b.roots_ok());
            assert(b.child@[t as int] == NO_TRANSFORM);
            assert(b.last_sibling@[t as int] == NO_TRANSFORM);
            assert(b.next_sibling@[t as int] == NO_TRANSFORM);
        }
        if (t as usize) < last {
            let l = last as Transform;
            let pl = self.parent[last];
            let cl = self.child[last];
            let prevl = self.last_sibling[last];
            let nextl = self.next_sibling[last];
            let dl = self.dirty[last];
            let ghost lkids = b.kids@[last as int];
            proof {
                b.lemma_references(l);
                b.lemma_references(t);
                assert(pl != l) by {
                    if pl != NO_TRANSFORM {
                        assert(b.rank@[pl as int] < b.rank@[last as int]);
                    }
                }
                if pl == NO_TRANSFORM {
                    assert(b.parent@[last as int] == NO_TRANSFORM);
                    assert(prevl == NO_TRANSFORM && nextl == NO_TRANSFORM);
                } else {
                    let w = b.kids@[pl as int].index_of(l);
                    assert(b.kids@[pl as int].contains(l));
                    assert(b.slot_ok(pl as int, w));
                    if w > 0 {
                        assert(b.slot_ok(pl as int, w - 1));
                    }
                    if w + 1 < b.kids@[pl as int].len() {
                        assert(b.slot_ok(pl as int, w + 1));
                    }
                    assert(prevl != l && nextl != l);
                    if prevl != NO_TRANSFORM {
                        assert(b.next_sibling@[prevl as int] == l);
                    }
                    if nextl != NO_TRANSFORM {
                        assert(b.last_sibling@[nextl as int] == l);
                    }
                    assert(prevl != t && nextl != t);
                    assert(b.kids@[t as int].len() == 0);
                    assert(pl != t);
                }
            }
            self.entity.set(t as usize, el);
            self.parent.set(t as usize, pl);
            self.child.set(t as usize, cl);
            self.last_sibling.set(t as usize, prevl);
            self.next_sibling.set(t as usize, nextl);
            self.dirty.set(t as usize, dl);
            if pl != NO_TRANSFORM {
                if prevl == NO_TRANSFORM {
                    self.child.set(pl as usize, t);
                } else {
                    self.next_sibling.set(prevl as usize, t);
                }
            }
            if nextl != NO_TRANSFORM {
                self.last_sibling.set(nextl as usize, t);
            }
            let ghost p0 = self.parent@;
            let ghost n1 = self.next_sibling@;
            proof {
                assert forall|m: int| 0 <= m < lkids.len() implies #[trigger] n1[lkids[m] as int] == (if m + 1 == lkids.len() {
                    NO_TRANSFORM
                } else {
                    lkids[m + 1]
                }) && lkids[m] < n && lkids[m] != t && lkids[m] != l by {
                    assert(b.slot_ok(last as int, m));
                    let k = lkids[m];
                    assert(b.parent@[k as int] == l);
                    assert(k != t);
                    assert(k != prevl);
                    assert(b.rank@[k as int] > b.rank@[last as int]);
                    if m + 1 < lkids.len() {
                        assert(b.slot_ok(last as int, m + 1));
                    }
                }
                assert(b.child@[last as int] == (if lkids.len() == 0 {
                    NO_TRANSFORM
                } else {
                    lkids[0]
                }));
            }
            proof {
                assert forall|m: int| 0 <= m < lkids.len() implies #[trigger] lkids[m] < n && lkids[m] != t
                    && lkids[m] != l by {
                    assert(n1[lkids[m] as int] == (if m + 1 == lkids.len() {
                        NO_TRANSFORM
                    } else {
                        lkids[m + 1]
                    }));
                }
            }
            let ghost mid = *self;
            let mut cur = cl;
            let ghost mut j: int = 0;
            while cur != NO_TRANSFORM
                invariant
                    self.entity == mid.entity,
                    self.child == mid.child,
                    self.last_sibling == mid.last_sibling,
                    self.next_sibling == mid.next_sibling,
                    self.dirty == mid.dirty,
                    self.transforms == mid.transforms,
                    self.kids == mid.kids,
                    self.rank == mid.rank,
                    n1.len() == n,
                    n <= MAX_TRANSFORMS,
                    0 <= j <= lkids.len(),
                    cur == (if j < lkids.len() {
                        lkids[j]
                    } else {
                        NO_TRANSFORM
                    }),
                    forall|m: int| 0 <= m < lkids.len() ==> #[trigger] n1[lkids[m] as int] == (if m + 1
                        == lkids.len() {
                        NO_TRANSFORM
                    } else {
                        lkids[m + 1]
                    }) && lkids[m] < n && lkids[m] != t && lkids[m] != l,
                    forall|m: int| 0 <= m < lkids.len() ==> #[trigger] lkids[m] < n && lkids[m] != t
                        && lkids[m] != l,
                    self.next_sibling@ == n1,
                    self.parent@.len() == n,
                    p0.len() == n,
                    forall|i: int| 0 <= i < n ==> #[trigger] self.parent@[i] == (if lkids.subrange(0, j).contains(
                        i as Transform,
                    ) {
                        t
                    } else {
                        p0[i]
                    }),
                decreases lkids.len() - j,
            {
                let ghost before = self.parent@;
                proof {
                    assert(lkids[j] < n);
                }
                self.parent.set(cur as usize, t);
                proof {
                    assert forall|i: int| 0 <= i < n implies #[trigger] self.parent@[i] == (
                    if lkids.subrange(0, j + 1).contains(i as Transform) {
                        t
                    } else {
                        p0[i]
                    }) by {
                        let ti = i as Transform;
                        if i != cur {
                            assert(before[i] == self.parent@[i]);
                        }
                        if lkids.subrange(0, j + 1).contains(ti) && ti != cur {
                            let w = lkids.subrange(0, j + 1).index_of(ti);
                            assert(0 <= w < j + 1 && lkids.subrange(0, j + 1)[w] == ti);
                            assert(lkids[w] == ti);
                            assert(w != j);
                            assert(lkids.subrange(0, j)[w] == ti);
                            assert(lkids.subrange(0, j).contains(ti));
                        }
                        if lkids.subrange(0, j).contains(ti) {
                            let w = lkids.subrange(0, j).index_of(ti);
                            assert(0 <= w < j && lkids.subrange(0, j)[w] == ti);
                            assert(lkids.subrange(0, j + 1)[w] == ti);
                        }
                        if i == cur {
                            assert(lkids.subrange(0, j + 1)[j] == i);
                        }
                    }
                }
                cur = self.next_sibling[cur as usize];
                proof {
                    j = j + 1;
                }
            }
            proof {
                if j < lkids.len() {
                    assert(lkids[j] < n);
                }
                assert(lkids.subrange(0, j) =~= lkids);
            }
        }
        self.entity.pop();
        self.parent.pop();
        self.child.pop();
        self.last_sibling.pop();
        self.next_sibling.pop();
        self.dirty.pop();
        self.transforms.remove(&e_t);
        if (t as usize) < last {
            self.transforms.insert(el, t);
        }
        self.kids = Ghost(
            Seq::new(
                (n - 1) as nat,
                |q: int| b.kids@[moved_from(t, n, q)].map_values(|x: Transform| renamed(t, n, x)),
            ),
        );
        self.rank = Ghost(Seq::new((n - 1) as nat, |q: int| b.rank@[moved_from(t, n, q)]));
        proof {
            let sn = (n - 1) as nat;
            assert(self.entity@ =~= Seq::new(sn, |q: int| b.entity@[moved_from(t, n, q)]));
            assert(self.dirty@ =~= Seq::new(sn, |q: int| b.dirty@[moved_from(t, n, q)]));
            assert(self.parent@ =~= Seq::new(
                sn,
                |q: int| renamed(t, n, b.parent@[moved_from(t, n, q)]),
            ));
            assert(self.child@ =~= Seq::new(
                sn,
                |q: int| renamed(t, n, b.child@[moved_from(t, n, q)]),
            ));
            assert(self.last_sibling@ =~= Seq::new(
                sn,
                |q: int| renamed(t, n, b.last_sibling@[moved_from(t, n, q)]),
            ));
            assert(self.next_sibling@ =~= Seq::new(
                sn,
                |q: int| renamed(t, n, b.next_sibling@[moved_from(t, n, q)]),
            ));
            Self::lemma_renamed_wf(&b, self, t);
        }
    }

    /// Destroys row `t`. Its parent forgets it and its children become roots;
    /// then the last row moves into its place (its links follow it) and the
    /// arrays shrink by one. The caller's matrix arrays shrink the same way.
    pub fn destroy_transform(&mut self, t: Transform) -> (r: Result<(), SceneError>)
        requires
            old(self).wf(),
        ensures
            final(self).wf(),
            t >= old(self).len() ==> r == Err::<(), SceneError>(SceneError::OutOfRange) && *final(self)
                == *old(self),
            t < old(self).len() ==> {
                let n = old(self).len();
                let dp = old(self).detached_parents(t);
                let dk = old(self).detached_children(t);
                &&& r == Ok::<(), SceneError>(())
                &&& final(self).rows() == Seq::new(
                    (n - 1) as nat,
                    |q: int| old(self).rows()[moved_from(t, n, q)],
                )
                &&& final(self).dirty_flags() == Seq::new(
                    (n - 1) as nat,
                    |q: int| old(self).dirty_flags()[moved_from(t, n, q)],
                )
                &&& final(self).parents() == Seq::new(
                    (n - 1) as nat,
                    |q: int| renamed(t, n, dp[moved_from(t, n, q)]),
                )
                &&& final(self).children() == Seq::new(
                    (n - 1) as nat,
                    |q: int| dk[moved_from(t, n, q)].map_values(|x: Transform| renamed(t, n, x)),
                )
                &&& final(self).index() == old(self).index_after_destroy(t)
                &&& final(self).index().dom() == old(self).index().dom().remove(old(self).rows()[t as int])
            },
    {
        if t as usize >= self.entity.len() {
            return Err(SceneError::OutOfRange);
        }
        proof {
            old(self).lemma_wf_views();
            let n = old(self).len();
            assert(old(self).index().contains_key(old(self).rows()[n - 1]));
            assert(old(self).index_after_destroy(t).dom() =~= old(self).index().dom().remove(
                old(self).rows()[t as int],
            ));
        }
        self.isolate_row(t);
        self.remove_isolated(t);
        Ok(())
    }

    /// The parent row of row `t`, if `t` is a row with a parent.
    pub fn parent_of(&self, t: Transform) -> (r: Option<Transform>)
        requires
            self.wf(),
        ensures
            r == (if t < self.len() && self.parents()[t as int] != NO_TRANSFORM {
                Some(self.parents()[t as int])
            } else {
                None::<Transform>
            }),
    {
        if t as usize >= self.entity.len() {
            return None;
        }
        let p = self.parent[t as usize];
        if p == NO_TRANSFORM {
            None
        } else {
            Some(p)
        }
    }

    /// The entity that owns row `t`.
    pub fn entity_of(&self, t: Transform) -> (r: Result<Entity, SceneError>)
        requires
            self.wf(),
        ensures
            t < self.len() ==> r == Ok::<Entity, SceneError>(self.rows()[t as int]),
            t >= self.len() ==> r == Err::<Entity, SceneError>(SceneError::OutOfRange),
    {
        if t as usize >= self.entity.len() {
            return Err(SceneError::OutOfRange);
        }
        Ok(self.entity[t as usize])
    }

    /// Whether `e` has a transform.
    pub fn has_transform(&self, e: Entity) -> (r: bool)
        requires
            self.wf(),
        ensures
            r == self.index().contains_key(e),
    {
        self.transforms.contains_key(&e)
    }

    /// The row of `e`'s transform.
    pub fn transform_for(&self, e: Entity) -> (r: Result<Transform, SceneError>)
        requires
            self.wf(),
        ensures
            self.index().contains_key(e) ==> r == Ok::<Transform, SceneError>(self.index()[e]),
            !self.index().contains_key(e) ==> r == Err::<Transform, SceneError>(
                SceneError::NotFound,
            ),
            r is Ok ==> r->Ok_0 < self.len() && self.rows()[r->Ok_0 as int] == e,
    {
        match self.transforms.get(&e) {
            Some(t) => Ok(*t),
            None => Err(SceneError::NotFound),
        }
    }

    /// Clears every dirty flag.
    pub fn reset(&mut self)
        requires
            old(self).wf(),
        ensures
            final(self).wf(),
            final(self).rows() == old(self).rows(),
            final(self).parents() == old(self).parents(),
            final(self).children() == old(self).children(),
            final(self).index() == old(self).index(),
            final(self).dirty_flags() == Seq::new(old(self).len(), |i: int| false),
    {
        let n = self.dirty.len();
        let mut a: usize = 0;
        while a < n
            invariant
                old(self).wf(),
                n == old(self).dirty@.len(),
                0 <= a <= n,
                self.dirty@.len() == n,
                forall|i: int| 0 <= i < a ==> !self.dirty@[i],
                self.transforms == old(self).transforms,
                self.entity == old(self).entity,
                self.parent == old(self).parent,
                self.child == old(self).child,
                self.last_sibling == old(self).last_sibling,
                self.next_sibling == old(self).next_sibling,
                self.kids == old(self).kids,
                self.rank == old(self).rank,
            decreases n - a,
        {
            self.dirty.set(a, false);
            a = a + 1;
        }
        assert(self.dirty@ =~= Seq::new(old(self).len(), |i: int| false));
        proof {
            Self::lemma_flags_only(old(self), self);
        }
    }

    /// Appends, in row order, the entity and the row of every dirty row.
    pub fn dirty(&self, entities: &mut Vec<Entity>, rows: &mut Vec<Transform>)
        requires
            self.wf(),
        ensures
            final(entities)@ == old(entities)@ + self.dirty_rows().map_values(
                |t: Transform| self.rows()[t as int],
            ),
            final(rows)@ == old(rows)@ + self.dirty_rows(),
    {
        let n = self.entity.len();
        let mut a: usize = 0;
        while a < n
            invariant
                self.wf(),
                n == self.len(),
                0 <= a <= n,
                entities@ == old(entities)@ + self.dirty_prefix(a as nat).map_values(
                    |t: Transform| self.rows()[t as int],
                ),
                rows@ == old(rows)@ + self.dirty_prefix(a as nat),
            decreases n - a,
        {
            let ghost f = |t: Transform| self.rows()[t as int];
            let ghost before = self.dirty_prefix(a as nat);
            if self.dirty[a] {
                entities.push(self.entity[a]);
                rows.push(a as Transform);
                assert(before.push(a as Transform).map_values(f) =~= before.map_values(f).push(
                    self.entity@[a as int],
                ));
            }
            a = a + 1;
        }
    }

    /// Rows among the first `a` whose dirty flag is set, in row order.
    pub open spec fn dirty_prefix(&self, a: nat) -> Seq<Transform>
        decreases a,
    {
        if a == 0 {
            Seq::empty()
        } else if self.dirty_flags()[a - 1] {
            self.dirty_prefix((a - 1) as nat).push((a - 1) as Transform)
        } else {
            self.dirty_prefix((a - 1) as nat)
        }
    }

    /// No row below `b` is dirty, so no prefix up to `a <= b` lists any.
    proof fn lemma_prefix_clean(&self, a: nat, b: nat)
        requires
            a <= b <= self.dirty@.len(),
            forall|i: int| 0 <= i < b ==> !self.dirty@[i],
        ensures
            self.dirty_prefix(a) == Seq::<Transform>::empty(),
        decreases a,
    {
        if a > 0 {
            self.lemma_prefix_clean((a - 1) as nat, b);
        }
    }

    /// When `t` is the only dirty row, every prefix past it lists just `t`.
    proof fn lemma_prefix_after(&self, a: nat, t: Transform)
        requires
            t < a <= self.dirty@.len(),
            forall|i: int| 0 <= i < self.dirty@.len() ==> self.dirty@[i] == (i == t),
        ensures
            self.dirty_prefix(a) == seq![t],
        decreases a,
    {
        if a == t + 1 {
            self.lemma_prefix_clean(t as nat, t as nat);
            assert(Seq::<Transform>::empty().push(t) =~= seq![t]);
        } else {
            self.lemma_prefix_after((a - 1) as nat, t);
        }
    }

    /// Prefixes depend on the dirty flags alone.
    proof fn lemma_prefix_flags(&self, other: &Self, a: nat)
        requires
            a <= self.dirty@.len(),
            self.dirty@ == other.dirty@,
        ensures
            self.dirty_prefix(a) == other.dirty_prefix(a),
        decreases a,
    {
        if a > 0 {
            self.lemma_prefix_flags(other, (a - 1) as nat);
        }
    }

    /// All dirty rows, in row order.
    pub open spec fn dirty_rows(&self) -> Seq<Transform> {
        self.dirty_prefix(self.len())
    }
}

/// A transform that was just created is found, and destroying its row
/// forgets it: the map after `create_transform(e)` holds `e`, and the map
/// after `destroy_transform` on that row no longer does.
pub proof fn lemma_transform_round_trip(before: SceneManager, created: SceneManager, e: Entity)
    requires
        before.wf(),
        created.wf(),
        !before.index().contains_key(e),
        created.rows() == before.rows().push(e),
        created.index() == before.index().insert(e, before.len() as Transform),
    ensures
        created.index().contains_key(e),
        created.index()[e] == before.len(),
        !created.index_after_destroy(created.index()[e]).contains_key(e),
{
    let t = before.len() as Transform;
    assert(created.rows()[t as int] == e);
    lemma_destroy_forgets(created, t);
}

/// Destroying a row forgets the entity that owned it.
pub proof fn lemma_destroy_forgets(s: SceneManager, t: Transform)
    requires
        s.wf(),
        t < s.len(),
    ensures
        !s.index_after_destroy(t).contains_key(s.rows()[t as int]),
{
    let n = s.len();
    if t != n - 1 {
        assert(s.index()[s.rows()[t as int]] == t);
        assert(s.index()[s.rows()[n - 1]] == n - 1);
    }
}

/// A child that was just linked under `p` is reached from `p`: the rows
/// recomputed when `p` moves include it.
pub proof fn lemma_linked_child_follows(
    s: SceneManager,
    c: Transform,
    p: Transform,
    order: Seq<Transform>,
)
    requires
        s.wf(),
        c < s.len(),
        p < s.len(),
        s.parents()[c as int] == p,
        s.is_propagation_order(p, order),
    ensures
        order.contains(c),
{
    assert(s.ancestor_at(p, 0) == p);
    assert(s.ancestor_at(c, 1) == s.ancestor_at(p, 0));
    assert(s.is_descendant(c, p));
}

/// An unlinked row is a root, and no other row's movement reaches it: the
/// rows recomputed when any `p` other than `c` moves leave `c` out.
pub proof fn lemma_unlinked_is_frozen(
    s: SceneManager,
    c: Transform,
    p: Transform,
    order: Seq<Transform>,
)
    requires
        s.wf(),
        c < s.len(),
        p < s.len(),
        p != c,
        s.parents()[c as int] == NO_TRANSFORM,
        s.is_propagation_order(p, order),
    ensures
        !order.contains(c),
{
    if s.is_descendant(c, p) {
        s.lemma_descendant_parent(c, p);
    }
}

/// On a store where nothing is dirty, marking one row dirty makes that row,
/// and only it, the dirty set; clearing the flags empties it again.
pub proof fn lemma_single_dirty(clean: SceneManager, marked: SceneManager, t: Transform)
    requires
        clean.wf(),
        marked.wf(),
        t < clean.len(),
        clean.dirty_flags() == Seq::new(clean.len(), |i: int| false),
        marked.len() == clean.len(),
        marked.dirty_flags() == clean.dirty_flags().update(t as int, true),
    ensures
        marked.dirty_rows() == seq![t],
        marked.dirty_rows().map_values(|r: Transform| marked.rows()[r as int]) == seq![marked.rows()[t as int]],
        clean.dirty_rows() == Seq::<Transform>::empty(),
{
    assert forall|a: nat| a <= t implies marked.dirty_prefix(a) == Seq::<Transform>::empty() by {
        marked.lemma_prefix_clean(a, t as nat);
    }
    assert forall|a: nat| t < a <= marked.len() implies marked.dirty_prefix(a) == seq![t] by {
        marked.lemma_prefix_after(a, t);
    }
    assert(marked.dirty_rows().map_values(|r: Transform| marked.rows()[r as int]) =~= seq![marked.rows()[t as int]]);
    clean.lemma_prefix_clean(clean.len(), clean.len());
}

/// A store with no dirty flag set has an empty dirty set.
pub proof fn lemma_clean_is_empty(s: SceneManager)
    requires
        forall|i: int| 0 <= i < s.dirty_flags().len() ==> !s.dirty_flags()[i],
        s.dirty_flags().len() == s.len(),
    ensures
        s.dirty_rows() == Seq::<Transform>::empty(),
{
    s.lemma_prefix_clean(s.len(), s.len());
}

/// Clearing the dirty flags twice leaves the store as clearing them once:
/// the second `reset` finds every flag already clear and changes nothing.
pub proof fn lemma_reset_idempotent(s: SceneManager, once: SceneManager, twice: SceneManager)
    requires
        once.rows() == s.rows(),
        once.parents() == s.parents(),
        once.children() == s.children(),
        once.index() == s.index(),
        once.dirty_flags() == Seq::new(s.len(), |i: int| false),
        twice.rows() == once.rows(),
        twice.parents() == once.parents(),
        twice.children() == once.children(),
        twice.index() == once.index(),
        twice.dirty_flags() == Seq::new(once.len(), |i: int| false),
    ensures
        twice.rows() == once.rows(),
        twice.parents() == once.parents(),
        twice.children() == once.children(),
        twice.index() == once.index(),
        twice.dirty_flags() == once.dirty_flags(),
        twice.dirty_rows() == once.dirty_rows(),
{
    assert(once.len() == s.len());
    assert(twice.dirty_flags() =~= once.dirty_flags());
    twice.lemma_prefix_flags(&once, twice.len());
}

} // verus!
