use vstd::prelude::*;

verus! {

/// An object of the world, named by its slot.
#[derive(Clone, Copy, PartialEq, Eq, Structural, Debug)]
pub struct Entity {
    pub index: usize,
}

/// Why an operation on a game object failed.
#[derive(Clone, Copy, PartialEq, Eq, Structural, Debug)]
pub enum GameObjectError {
    IdNotExisting,
}

/// A value with a neutral element: the identity matrix, the identity rotation.
pub trait Ident: Sized {
    fn empty() -> Self;
}

/// A cached item and whether it must be computed again.
pub struct ItemState<T: Ident> {
    pub changed: bool,
    pub item: T,
}

impl<T: Ident> ItemState<T> {
    /// A state whose item is the neutral one and must be computed.
    pub fn new() -> (r: Self)
        ensures
            r.changed,
            call_ensures(T::empty, (), r.item),
    {
        Self { changed: true, item: T::empty() }
    }
}

/// Where an object stands in the hierarchy.
pub struct GameObject {
    pub parent: Option<Entity>,
    pub children: Vec<Entity>,
}

/// The cached local and global matrices of an object.
pub struct MatrixCache<M: Ident> {
    pub local_matrix: ItemState<M>,
    pub global_matrix: ItemState<M>,
}

/// The objects of a scene: their place in the hierarchy and their matrix
/// caches, one slot per entity.
pub struct World<M: Ident> {
    objects: Vec<GameObject>,
    caches: Vec<MatrixCache<M>>,
}

impl<M: Ident> World<M> {
    /// The number of entities.
    pub open spec fn len(&self) -> nat {
        self.objects().len()
    }

    /// The hierarchy data of every entity, by slot.
    pub closed spec fn objects(&self) -> Seq<GameObject> {
        self.objects@
    }

    /// The matrix caches of every entity, by slot.
    pub closed spec fn caches(&self) -> Seq<MatrixCache<M>> {
        self.caches@
    }

    /// `e` names an entity of this world.
    pub open spec fn alive(&self, e: Entity) -> bool {
        alive_in(self.objects(), e)
    }

    /// The parent of `e`, if any.
    pub open spec fn parent(&self, e: Entity) -> Option<Entity> {
        parent_in(self.objects(), e)
    }

    /// The children of `e`, in the order they were placed under it.
    pub open spec fn children(&self, e: Entity) -> Seq<Entity> {
        children_in(self.objects(), e)
    }

    /// The global matrix of `e` must be computed again.
    pub open spec fn global_changed(&self, e: Entity) -> bool {
        global_changed_in(self.caches(), e)
    }

    /// The local matrix of `e` must be computed again.
    pub open spec fn local_changed(&self, e: Entity) -> bool {
        local_changed_in(self.caches(), e)
    }

    /// The cached global matrix of `e`.
    pub open spec fn global_item(&self, e: Entity) -> M {
        self.caches()[e.index as int].global_matrix.item
    }

    /// The cached local matrix of `e`.
    pub open spec fn local_item(&self, e: Entity) -> M {
        self.caches()[e.index as int].local_matrix.item
    }

    /// Parent and children agree, and every entity named is alive.
    pub open spec fn structure_ok(&self) -> bool {
        &&& self.objects().len() == self.caches().len()
        &&& structure_ok_in(self.objects())
    }

    /// See `caches_ok_in`.
    pub open spec fn caches_ok_except(&self, pending: Set<Entity>, target: Option<Entity>) -> bool {
        caches_ok_in(self.objects(), self.caches(), pending, target)
    }

    /// The `n`-th ancestor of `e`.
    pub open spec fn ancestor(&self, e: Entity, n: nat) -> Option<Entity> {
        ancestor_in(self.objects(), e, n)
    }

    /// `e` is `a` or lies below it.
    pub open spec fn descends_from(&self, e: Entity, a: Entity) -> bool {
        exists|n: nat| #[trigger] ancestor_in(self.objects(), e, n) == Some(a)
    }

    /// The global-matrix marks of all entities, by slot.
    pub closed spec fn global_flags(&self) -> Seq<bool> {
        self.caches@.map_values(|c: MatrixCache<M>| c.global_matrix.changed)
    }

    /// How many entities hold a valid global matrix.
    pub closed spec fn clean_count(&self) -> nat {
        count_clean(self.global_flags())
    }

    /// `later` has the same hierarchy and caches as `self`, except that more
    /// global matrices may be marked to be computed.
    pub open spec fn only_marks_globals(&self, later: &World<M>) -> bool {
        &&& later.objects() == self.objects()
        &&& later.caches().len() == self.caches().len()
        &&& forall|e: Entity| #[trigger] self.alive(e) ==> {
            &&& later.caches()[e.index as int].local_matrix == self.caches()[e.index as int].local_matrix
            &&& later.global_item(e) == self.global_item(e)
            &&& (self.global_changed(e) ==> later.global_changed(e))
        }
    }

    /// The caches of `e` are valid and were computed from what `local_of`
    /// and `compose` give: the local matrix is the one kept from `before` or
    /// a new one from `local_of`, and the global one is `compose` of the
    /// parent's global matrix (or, at the top, of what `M::empty` gives) and
    /// the local one.
    pub open spec fn computed_from<L: Fn(Entity) -> M, C: Fn(M, M) -> M>(
        &self,
        before: &World<M>,
        e: Entity,
        local_of: &L,
        compose: &C,
    ) -> bool {
        &&& !self.global_changed(e)
        &&& !self.local_changed(e)
        &&& (before.local_changed(e) ==> call_ensures(*local_of, (e,), self.local_item(e)))
        &&& (!before.local_changed(e) ==> self.local_item(e) == before.local_item(e))
        &&& match self.parent(e) {
            Some(p) => call_ensures(*compose, (self.global_item(p), self.local_item(e)), self.global_item(e)),
            None => exists|i: M| call_ensures(M::empty, (), i)
                && #[trigger] call_ensures(*compose, (i, self.local_item(e)), self.global_item(e)),
        }
    }

    /// The world is consistent.
    pub open spec fn wf(&self) -> bool {
        &&& self.structure_ok()
        &&& self.caches_ok_except(Set::empty(), None)
    }

    /// An empty world.
    pub fn new() -> (r: Self)
        ensures
            r.wf(),
            r.len() == 0,
    {
        World { objects: Vec::new(), caches: Vec::new() }
    }

    /// Whether `id` names an entity of this world.
    pub fn is_alive(&self, id: Entity) -> (r: bool)
        ensures
            r == self.alive(id),
    {
        id.index < self.objects.len()
    }

    /// The hierarchy data of `id`: its parent and its children.
    pub fn game_object(&self, id: Entity) -> (r: &GameObject)
        requires
            self.alive(id),
        ensures
            r.parent == self.parent(id),
            r.children@ == self.children(id),
    {
        &self.objects[id.index]
    }
}

impl GameObject {
    /// Adds an entity with no parent, no children and both matrices to be
    /// computed.
    pub fn create_empty<M: Ident>(world: &mut World<M>) -> (id: Entity)
        requires
            old(world).wf(),
            old(world).len() < usize::MAX,
        ensures
            final(world).wf(),
            id.index == old(world).len(),
            final(world).len() == old(world).len() + 1,
            final(world).objects().take(id.index as int) == old(world).objects(),
            final(world).caches().take(id.index as int) == old(world).caches(),
            final(world).parent(id) is None,
            final(world).children(id) == Seq::<Entity>::empty(),
            final(world).global_changed(id),
            final(world).local_changed(id),
    {
        let id = Entity { index: world.objects.len() };
        let ghost old_w = *world;
        let no_children: Vec<Entity> = Vec::new();
        assert(no_children@ == Seq::<Entity>::empty());
        world.objects.push(GameObject { parent: None, children: no_children });
        assert(world.objects@[id.index as int].children@ == Seq::<Entity>::empty());
        let local_state: ItemState<M> = ItemState::new();
        let global_state: ItemState<M> = ItemState::new();
        world.caches.push(MatrixCache { local_matrix: local_state, global_matrix: global_state });
        assert(world.caches@[id.index as int].global_matrix.changed);
        assert(world.caches@[id.index as int].local_matrix.changed);
        proof {
            let objs = world.objects();
            let olds = old_w.objects();
            let cs = world.caches();
            let oldc = old_w.caches();
            assert(objs.take(id.index as int) =~= olds);
            assert(cs.take(id.index as int) =~= oldc);
            assert forall|e: Entity| #[trigger] alive_in(olds, e) implies
                objs[e.index as int] == olds[e.index as int] && cs[e.index as int] == oldc[e.index as int] by {
                assert(objs[e.index as int] == objs.take(id.index as int)[e.index as int]);
                assert(cs[e.index as int] == cs.take(id.index as int)[e.index as int]);
            }
            assert(children_in(objs, id) =~= Seq::<Entity>::empty());
            assert forall|e: Entity| #[trigger] alive_in(objs, e) && parent_in(objs, e) is Some
                implies alive_in(objs, parent_in(objs, e)->0) by {
                if e != id {
                    assert(alive_in(olds, e));
                }
            }
            assert forall|e: Entity, i: int| alive_in(objs, e) && 0 <= i < children_in(objs, e).len()
                implies #[trigger] alive_in(objs, #[trigger] children_in(objs, e)[i]) by {
                if e != id {
                    assert(alive_in(olds, e));
                    assert(alive_in(olds, children_in(olds, e)[i]));
                }
            }
            assert forall|p: Entity, c: Entity| #[trigger] alive_in(objs, p) && #[trigger] alive_in(objs, c)
                implies (children_in(objs, p).contains(c) <==> parent_in(objs, c) == Some(p)) by {
                if p != id && c != id {
                    assert(alive_in(olds, p) && alive_in(olds, c));
                }
                if p == id && c != id {
                    assert(alive_in(olds, c));
                    if parent_in(olds, c) is Some {
                        assert(alive_in(olds, parent_in(olds, c)->0));
                    }
                }
                if c == id && p != id {
                    assert(alive_in(olds, p));
                    if children_in(olds, p).contains(c) {
                        let k = choose|k: int| 0 <= k < children_in(olds, p).len() && children_in(olds, p)[k] == c;
                        assert(alive_in(olds, children_in(olds, p)[k]));
                    }
                }
            }
            assert forall|e: Entity| #[trigger] alive_in(objs, e) implies children_in(objs, e).no_duplicates() by {
                if e != id {
                    assert(alive_in(olds, e));
                }
            }
            assert forall|p: Entity, c: Entity|
                #[trigger] alive_in(objs, p) && #[trigger] alive_in(objs, c) && parent_in(objs, c) == Some(p)
                && global_changed_in(cs, p) implies global_changed_in(cs, c) by {
                if c != id {
                    assert(alive_in(olds, c));
                    assert(alive_in(olds, p));
                    assert(!Set::<Entity>::empty().contains(p));
                }
            }
            assert forall|e: Entity| #[trigger] alive_in(objs, e) && local_changed_in(cs, e)
                implies global_changed_in(cs, e) by {
                if e != id {
                    assert(alive_in(olds, e));
                }
            }
        }
        id
    }
}

/// `e` names one of `objects`.
pub open spec fn alive_in(objects: Seq<GameObject>, e: Entity) -> bool {
    e.index < objects.len()
}

/// The parent of `e` among `objects`.
pub open spec fn parent_in(objects: Seq<GameObject>, e: Entity) -> Option<Entity> {
    objects[e.index as int].parent
}

/// The children of `e` among `objects`.
pub open spec fn children_in(objects: Seq<GameObject>, e: Entity) -> Seq<Entity> {
    objects[e.index as int].children@
}

/// The global matrix of `e` is marked in `caches`.
pub open spec fn global_changed_in<M: Ident>(caches: Seq<MatrixCache<M>>, e: Entity) -> bool {
    caches[e.index as int].global_matrix.changed
}

/// The local matrix of `e` is marked in `caches`.
pub open spec fn local_changed_in<M: Ident>(caches: Seq<MatrixCache<M>>, e: Entity) -> bool {
    caches[e.index as int].local_matrix.changed
}

/// Parent and children agree, and every entity named is alive.
pub open spec fn structure_ok_in(objects: Seq<GameObject>) -> bool {
    &&& forall|e: Entity| #[trigger] alive_in(objects, e) && parent_in(objects, e) is Some
        ==> alive_in(objects, parent_in(objects, e)->0)
    &&& forall|e: Entity, i: int| alive_in(objects, e) && 0 <= i < children_in(objects, e).len()
        ==> #[trigger] alive_in(objects, #[trigger] children_in(objects, e)[i])
    &&& forall|p: Entity, c: Entity| #[trigger] alive_in(objects, p) && #[trigger] alive_in(objects, c)
        ==> (children_in(objects, p).contains(c) <==> parent_in(objects, c) == Some(p))
    &&& forall|p: Entity| #[trigger] alive_in(objects, p) ==> children_in(objects, p).no_duplicates()
}

/// A cache marked valid only rests on valid caches: an object whose local
/// matrix must be computed has its global one marked too, and a marked global
/// matrix has the global matrices of the children marked. Objects in
/// `pending` are excused from the second rule as parents, and `target`, if
/// any, from both as a child.
pub open spec fn caches_ok_in<M: Ident>(
    objects: Seq<GameObject>,
    caches: Seq<MatrixCache<M>>,
    pending: Set<Entity>,
    target: Option<Entity>,
) -> bool {
    &&& forall|e: Entity| #[trigger] alive_in(objects, e) && local_changed_in(caches, e) && target != Some(e)
        ==> global_changed_in(caches, e)
    &&& forall|p: Entity, c: Entity|
        #[trigger] alive_in(objects, p) && #[trigger] alive_in(objects, c) && parent_in(objects, c) == Some(p)
        && global_changed_in(caches, p) && !pending.contains(p) && target != Some(c)
        ==> global_changed_in(caches, c)
}

/// The `n`-th ancestor of `e` among `objects`: `e` itself for 0, then its
/// parent, and so on.
pub open spec fn ancestor_in(objects: Seq<GameObject>, e: Entity, n: nat) -> Option<Entity>
    decreases n,
{
    if n == 0 {
        Some(e)
    } else {
        match ancestor_in(objects, e, (n - 1) as nat) {
            Some(x) => objects[x.index as int].parent,
            None => None,
        }
    }
}

/// Following parents from `x` while global matrices are marked, an entity
/// with a valid global matrix or without a parent is reached within `n` steps.
pub open spec fn dirty_chain_ends<M: Ident>(objects: Seq<GameObject>, caches: Seq<MatrixCache<M>>, x: Entity, n: nat) -> bool
    decreases n,
{
    !global_changed_in(caches, x) || match parent_in(objects, x) {
        None => true,
        Some(p) => n > 0 && dirty_chain_ends(objects, caches, p, (n - 1) as nat),
    }
}

/// `y` is among the entities with marked global matrices met when following
/// parents from `x`, within `n` steps.
pub open spec fn on_dirty_chain<M: Ident>(objects: Seq<GameObject>, caches: Seq<MatrixCache<M>>, x: Entity, y: Entity, n: nat) -> bool
    decreases n,
{
    global_changed_in(caches, x) && (y == x || match parent_in(objects, x) {
        None => false,
        Some(p) => n > 0 && on_dirty_chain(objects, caches, p, y, (n - 1) as nat),
    })
}

/// A larger step budget does no harm.
proof fn lemma_dirty_chain_ends_mono<M: Ident>(objects: Seq<GameObject>, caches: Seq<MatrixCache<M>>, x: Entity, n: nat)
    requires
        dirty_chain_ends(objects, caches, x, n),
    ensures
        dirty_chain_ends(objects, caches, x, n + 1),
    decreases n,
{
    if global_changed_in(caches, x) && parent_in(objects, x) is Some && n > 0 {
        lemma_dirty_chain_ends_mono(objects, caches, parent_in(objects, x)->0, (n - 1) as nat);
    }
}

/// The chain from an entity met on the chain from `x` ends within the budget
/// of `x`.
proof fn lemma_dirty_chain_ends_along<M: Ident>(objects: Seq<GameObject>, caches: Seq<MatrixCache<M>>, x: Entity, y: Entity, n: nat, m: nat)
    requires
        dirty_chain_ends(objects, caches, x, n),
        on_dirty_chain(objects, caches, x, y, m),
    ensures
        dirty_chain_ends(objects, caches, y, n),
    decreases m,
{
    if y != x {
        let q = parent_in(objects, x)->0;
        lemma_dirty_chain_ends_along(objects, caches, q, y, (n - 1) as nat, (m - 1) as nat);
        lemma_dirty_chain_ends_mono(objects, caches, y, (n - 1) as nat);
    }
}

/// A chain that ends never comes back to where it started.
proof fn lemma_dirty_chain_no_return<M: Ident>(objects: Seq<GameObject>, caches: Seq<MatrixCache<M>>, x: Entity, q: Entity, n: nat, m: nat)
    requires
        dirty_chain_ends(objects, caches, x, n),
        global_changed_in(caches, x),
        parent_in(objects, x) == Some(q),
    ensures
        !on_dirty_chain(objects, caches, q, x, m),
    decreases n,
{
    if on_dirty_chain(objects, caches, q, x, m) {
        lemma_dirty_chain_ends_along(objects, caches, q, x, (n - 1) as nat, m);
        lemma_dirty_chain_no_return(objects, caches, x, q, (n - 1) as nat, m);
    }
}

/// A marked parent of an entity met on an ending chain is met too.
proof fn lemma_dirty_chain_parent<M: Ident>(objects: Seq<GameObject>, caches: Seq<MatrixCache<M>>, x: Entity, e: Entity, z: Entity, m: nat)
    requires
        dirty_chain_ends(objects, caches, x, m),
        on_dirty_chain(objects, caches, x, e, m),
        parent_in(objects, e) == Some(z),
        global_changed_in(caches, z),
    ensures
        on_dirty_chain(objects, caches, x, z, m),
    decreases m,
{
    if e == x {
        assert(m > 0);
        assert(on_dirty_chain(objects, caches, z, z, (m - 1) as nat));
    } else {
        let q = parent_in(objects, x)->0;
        lemma_dirty_chain_parent(objects, caches, q, e, z, (m - 1) as nat);
    }
}

/// The number of `false` marks.
pub open spec fn count_clean(flags: Seq<bool>) -> nat
    decreases flags.len(),
{
    if flags.len() == 0 {
        0
    } else {
        count_clean(flags.drop_last()) + (if flags.last() { 0nat } else { 1nat })
    }
}

/// Turning marks on never adds `false` marks, and turning one on removes one.
proof fn lemma_count_clean_mono(a: Seq<bool>, b: Seq<bool>)
    requires
        a.len() == b.len(),
        forall|i: int| 0 <= i < a.len() && #[trigger] a[i] ==> b[i],
    ensures
        count_clean(b) <= count_clean(a),
        (exists|i: int| 0 <= i < a.len() && !a[i] && #[trigger] b[i]) ==> count_clean(b) < count_clean(a),
    decreases a.len(),
{
    if a.len() > 0 {
        let a2 = a.drop_last();
        let b2 = b.drop_last();
        assert forall|i: int| 0 <= i < a2.len() && #[trigger] a2[i] implies b2[i] by {
            assert(a[i] == a2[i]);
        }
        lemma_count_clean_mono(a2, b2);
        if exists|i: int| 0 <= i < a.len() && !a[i] && #[trigger] b[i] {
            let i = choose|i: int| 0 <= i < a.len() && !a[i] && #[trigger] b[i];
            if i < a.len() - 1 {
                assert(!a2[i] && b2[i]);
            }
        }
    }
}

/// An entity below a child of `a` lies below `a`.
proof fn lemma_descends_through_child<M: Ident>(w: &World<M>, e: Entity, c: Entity, a: Entity)
    requires
        w.descends_from(e, c),
        w.parent(c) == Some(a),
    ensures
        w.descends_from(e, a),
{
    let n = choose|n: nat| #[trigger] ancestor_in(w.objects(), e, n) == Some(c);
    assert(ancestor_in(w.objects(), e, n + 1) == Some(a));
}

/// The children of `e` after `id` moved from `old_parent` to `new_parent`:
/// `id` is appended to the new parent's list, then its first occurrence is
/// taken out of the old parent's list.
pub open spec fn children_after_move(
    children: Seq<Entity>,
    e: Entity,
    id: Entity,
    old_parent: Option<Entity>,
    new_parent: Option<Entity>,
) -> Seq<Entity> {
    let pushed = if new_parent == Some(e) { children.push(id) } else { children };
    if old_parent == Some(e) { pushed.remove_value(id) } else { pushed }
}

/// Taking out the first occurrence of `v`, found at `i`.
proof fn lemma_remove_first(s: Seq<Entity>, i: int, v: Entity)
    requires
        0 <= i < s.len(),
        s[i] == v,
        forall|j: int| 0 <= j < i ==> s[j] != v,
    ensures
        s.remove_value(v) == s.remove(i),
        forall|c: Entity| c != v ==> (s.remove(i).contains(c) <==> s.contains(c)),
        forall|k: int| 0 <= k < s.remove(i).len() ==> s.contains(#[trigger] s.remove(i)[k]),
        s.no_duplicates() ==> s.remove(i).no_duplicates() && !s.remove(i).contains(v),
{
    s.index_of_first_ensures(v);
    s.remove_ensures(i);
    let r = s.remove(i);
    assert forall|c: Entity| c != v implies (r.contains(c) <==> s.contains(c)) by {
        if r.contains(c) {
            let k = choose|k: int| 0 <= k < r.len() && r[k] == c;
            if k < i {
                assert(s[k] == c);
            } else {
                assert(s[k + 1] == c);
            }
        }
        if s.contains(c) {
            let k = choose|k: int| 0 <= k < s.len() && s[k] == c;
            if k < i {
                assert(r[k] == c);
            } else {
                assert(k != i);
                assert(r[k - 1] == c);
            }
        }
    }
    assert forall|k: int| 0 <= k < r.len() implies s.contains(#[trigger] r[k]) by {
        if k < i {
            assert(s[k] == r[k]);
        } else {
            assert(s[k + 1] == r[k]);
        }
    }
    if s.no_duplicates() {
        assert forall|a: int, b: int| 0 <= a < r.len() && 0 <= b < r.len() && a != b implies r[a] != r[b] by {
            let a2 = if a < i { a } else { a + 1 };
            let b2 = if b < i { b } else { b + 1 };
            assert(r[a] == s[a2]);
            assert(r[b] == s[b2]);
        }
        if r.contains(v) {
            let k = choose|k: int| 0 <= k < r.len() && r[k] == v;
            let k2 = if k < i { k } else { k + 1 };
            assert(s[k2] == v);
        }
    }
}

/// Taking out the first occurrence of `v`, at the position that comes back:
/// the other entries keep their order, also when `v` was first appended.
proof fn lemma_first_removed(s: Seq<Entity>, v: Entity) -> (i: int)
    requires
        s.contains(v),
    ensures
        0 <= i < s.len(),
        s[i] == v,
        s.remove_value(v) == s.remove(i),
        s.push(v).remove_value(v) == s.remove(i).push(v),
{
    s.index_of_first_ensures(v);
    let i = s.index_of_first(v)->0;
    lemma_remove_first(s, i, v);
    let u = s.push(v);
    assert forall|j: int| 0 <= j < i implies u[j] != v by {
        assert(u[j] == s[j]);
    }
    assert(u[i] == v);
    lemma_remove_first(u, i, v);
    s.remove_ensures(i);
    u.remove_ensures(i);
    assert(u.remove(i) =~= s.remove(i).push(v));
    i
}

/// What moving `id` does to a list of children that holds it exactly when
/// `p` was its parent.
proof fn lemma_children_after_move(s: Seq<Entity>, p: Entity, id: Entity, old_parent: Option<Entity>, new_parent: Option<Entity>)
    requires
        s.no_duplicates(),
        (old_parent == Some(p)) == s.contains(id),
    ensures
        children_after_move(s, p, id, old_parent, new_parent).no_duplicates(),
        forall|c: Entity| c != id ==> (children_after_move(s, p, id, old_parent, new_parent).contains(c) <==> s.contains(c)),
        children_after_move(s, p, id, old_parent, new_parent).contains(id) == (new_parent == Some(p)),
        forall|k: int| 0 <= k < children_after_move(s, p, id, old_parent, new_parent).len() ==>
            #[trigger] children_after_move(s, p, id, old_parent, new_parent)[k] == id
            || s.contains(children_after_move(s, p, id, old_parent, new_parent)[k]),
{
    let t = children_after_move(s, p, id, old_parent, new_parent);
    if old_parent == Some(p) {
        let i = choose|i: int| 0 <= i < s.len() && s[i] == id;
        assert forall|j: int| 0 <= j < i implies s[j] != id by {}
        lemma_remove_first(s, i, id);
        if new_parent == Some(p) {
            let u = s.push(id);
            assert forall|j: int| 0 <= j < i implies u[j] != id by {
                assert(u[j] == s[j]);
            }
            assert(u[i] == id);
            lemma_remove_first(u, i, id);
            s.remove_ensures(i);
            u.remove_ensures(i);
            assert(u.remove(i) =~= s.remove(i).push(id));
            assert(t == s.remove(i).push(id));
            let r = s.remove(i);
            assert(r.push(id)[r.len() as int] == id);
            assert forall|c: Entity| c != id implies (t.contains(c) <==> s.contains(c)) by {
                if t.contains(c) {
                    let k = choose|k: int| 0 <= k < t.len() && t[k] == c;
                    assert(r[k] == c);
                }
                if r.contains(c) {
                    let k = choose|k: int| 0 <= k < r.len() && r[k] == c;
                    assert(t[k] == c);
                }
            }
            assert forall|k: int| 0 <= k < t.len() implies #[trigger] t[k] == id || s.contains(t[k]) by {
                if k < r.len() {
                    assert(t[k] == r[k]);
                }
            }
            assert forall|a: int, b: int| 0 <= a < t.len() && 0 <= b < t.len() && a != b implies t[a] != t[b] by {
                if a < r.len() && b < r.len() {
                    assert(t[a] == r[a] && t[b] == r[b]);
                } else if a < r.len() {
                    assert(t[a] == r[a]);
                } else if b < r.len() {
                    assert(t[b] == r[b]);
                }
            }
        }
    } else {
        if new_parent == Some(p) {
            assert(t == s.push(id));
            assert forall|c: Entity| c != id implies (t.contains(c) <==> s.contains(c)) by {
                if t.contains(c) {
                    let k = choose|k: int| 0 <= k < t.len() && t[k] == c;
                    assert(s[k] == c);
                }
                if s.contains(c) {
                    let k = choose|k: int| 0 <= k < s.len() && s[k] == c;
                    assert(t[k] == c);
                }
            }
            assert(t[s.len() as int] == id);
            assert forall|k: int| 0 <= k < t.len() implies #[trigger] t[k] == id || s.contains(t[k]) by {
                if k < s.len() {
                    assert(t[k] == s[k]);
                }
            }
            assert forall|a: int, b: int| 0 <= a < t.len() && 0 <= b < t.len() && a != b implies t[a] != t[b] by {
                if a < s.len() && b < s.len() {
                    assert(t[a] == s[a] && t[b] == s[b]);
                } else if a < s.len() {
                    assert(t[a] == s[a]);
                } else if b < s.len() {
                    assert(t[b] == s[b]);
                }
            }
        } else {
            assert forall|k: int| 0 <= k < t.len() implies #[trigger] t[k] == id || s.contains(t[k]) by {
                assert(t[k] == s[k]);
            }
        }
    }
}

/// Moving `id` under an entity of the world, or to the top, keeps parents and
/// children in agreement.
proof fn lemma_move_keeps_structure(olds: Seq<GameObject>, objs: Seq<GameObject>, id: Entity, new_parent: Option<Entity>)
    requires
        structure_ok_in(olds),
        objs.len() == olds.len(),
        alive_in(olds, id),
        new_parent matches Some(x) ==> alive_in(olds, x),
        parent_in(objs, id) == new_parent,
        forall|e: Entity| #[trigger] alive_in(olds, e) ==>
            children_in(objs, e) == children_after_move(children_in(olds, e), e, id, parent_in(olds, id), new_parent)
            && (e != id ==> parent_in(objs, e) == parent_in(olds, e)),
    ensures
        structure_ok_in(objs),
{
    let y = parent_in(olds, id);
    assert forall|p: Entity| #[trigger] alive_in(olds, p) implies {
        let t = children_in(objs, p);
        let s = children_in(olds, p);
        &&& t.no_duplicates()
        &&& forall|c: Entity| c != id ==> (t.contains(c) <==> s.contains(c))
        &&& t.contains(id) == (new_parent == Some(p))
        &&& forall|k: int| 0 <= k < t.len() ==> #[trigger] t[k] == id || s.contains(t[k])
    } by {
        assert((y == Some(p)) == children_in(olds, p).contains(id));
        lemma_children_after_move(children_in(olds, p), p, id, y, new_parent);
    }
    assert forall|e: Entity| #[trigger] alive_in(objs, e) && parent_in(objs, e) is Some
        implies alive_in(objs, parent_in(objs, e)->0) by {
        assert(alive_in(olds, e));
    }
    assert forall|e: Entity, i: int| alive_in(objs, e) && 0 <= i < children_in(objs, e).len()
        implies #[trigger] alive_in(objs, #[trigger] children_in(objs, e)[i]) by {
        assert(alive_in(olds, e));
        let c = children_in(objs, e)[i];
        if c != id {
            assert(children_in(olds, e).contains(c));
            let k = choose|k: int| 0 <= k < children_in(olds, e).len() && children_in(olds, e)[k] == c;
            assert(alive_in(olds, children_in(olds, e)[k]));
        }
    }
    assert forall|p: Entity, c: Entity| #[trigger] alive_in(objs, p) && #[trigger] alive_in(objs, c)
        implies (children_in(objs, p).contains(c) <==> parent_in(objs, c) == Some(p)) by {
        assert(alive_in(olds, p) && alive_in(olds, c));
    }
    assert forall|p: Entity| #[trigger] alive_in(objs, p) implies children_in(objs, p).no_duplicates() by {
        assert(alive_in(olds, p));
    }
}

/// The first position of `v` in `list`, which holds it.
fn first_position(list: &Vec<Entity>, v: Entity) -> (i: usize)
    requires
        list@.contains(v),
    ensures
        i < list@.len(),
        list@[i as int] == v,
        forall|j: int| 0 <= j < i ==> list@[j] != v,
{
    let mut i: usize = 0;
    while i < list.len()
        invariant
            i <= list@.len(),
            list@.contains(v),
            forall|j: int| 0 <= j < i ==> list@[j] != v,
        decreases list@.len() - i,
    {
        if list[i] == v {
            return i;
        }
        i = i + 1;
    }
    proof {
        let k = choose|k: int| 0 <= k < list@.len() && list@[k] == v;
        assert(list@[k] != v);
    }
    0
}

/// Operations on the hierarchy of a world and on its matrix caches.
pub struct TransformHierarchy;

impl TransformHierarchy {
    /// Marks the global matrix of `id` to be computed, and those below it
    /// down to the ones already marked.
    fn void_global_matrix<M: Ident>(world: &mut World<M>, id: Entity, Ghost(pending): Ghost<Set<Entity>>)
        requires
            old(world).structure_ok(),
            old(world).alive(id),
            old(world).caches_ok_except(pending, Some(id)),
            forall|e: Entity| #[trigger] pending.contains(e) ==> old(world).alive(e) && old(world).global_changed(e),
        ensures
            final(world).structure_ok(),
            old(world).only_marks_globals(&*final(world)),
            final(world).global_changed(id),
            final(world).caches_ok_except(pending, None),
            forall|e: Entity| #[trigger] old(world).alive(e) && final(world).global_changed(e)
                && !old(world).global_changed(e) ==> old(world).descends_from(e, id),
            final(world).clean_count() <= old(world).clean_count(),
        decreases old(world).clean_count(),
    {
        let ghost w0 = *world;
        if world.caches[id.index].global_matrix.changed {
            proof {
                lemma_count_clean_mono(w0.global_flags(), world.global_flags());
            }
            return;
        }
        world.caches[id.index].global_matrix.changed = true;
        proof {
            assert(ancestor_in(w0.objects(), id, 0) == Some(id));
            assert(world.caches() == w0.caches().update(id.index as int, world.caches()[id.index as int]));
            assert forall|e: Entity| #[trigger] world.alive(e) && e != id
                implies world.caches()[e.index as int] == w0.caches()[e.index as int] by {}
            assert forall|e: Entity| #[trigger] world.alive(e) && world.local_changed(e)
                implies world.global_changed(e) by {
                if e != id {
                    assert(w0.alive(e));
                }
            }
            assert forall|p: Entity, c: Entity|
                #[trigger] world.alive(p) && #[trigger] world.alive(c) && world.parent(c) == Some(p)
                && world.global_changed(p) && !pending.insert(id).contains(p) implies world.global_changed(c) by {
                if c != id {
                    assert(w0.alive(p) && w0.alive(c));
                }
            }
            assert forall|i: int| 0 <= i < w0.global_flags().len() && #[trigger] w0.global_flags()[i]
                implies world.global_flags()[i] by {
            }
            assert(!w0.global_flags()[id.index as int] && world.global_flags()[id.index as int]);
            lemma_count_clean_mono(w0.global_flags(), world.global_flags());
        }
        let ghost pend = pending.insert(id);
        let n = world.objects[id.index].children.len();
        let mut i: usize = 0;
        while i < n
            invariant
                world.structure_ok(),
                w0.structure_ok(),
                w0.alive(id),
                w0 == *old(world),
                n == w0.children(id).len(),
                i <= n,
                w0.only_marks_globals(&*world),
                world.global_changed(id),
                world.caches_ok_except(pend, None),
                pend == pending.insert(id),
                forall|e: Entity| #[trigger] pend.contains(e) ==> world.alive(e) && world.global_changed(e),
                forall|j: int| 0 <= j < i ==> world.global_changed(#[trigger] w0.children(id)[j]),
                forall|e: Entity| #[trigger] w0.alive(e) && world.global_changed(e)
                    && !w0.global_changed(e) ==> w0.descends_from(e, id),
                world.clean_count() < w0.clean_count(),
            decreases n - i,
        {
            let child = world.objects[id.index].children[i];
            let ghost w1 = *world;
            proof {
                assert(w0.alive(child));
                assert(w0.children(id).contains(child));
                assert(w0.parent(child) == Some(id));
            }
            Self::void_global_matrix(world, child, Ghost(pend));
            proof {
                assert forall|e: Entity| #[trigger] w0.alive(e) && world.global_changed(e)
                    && !w0.global_changed(e) implies w0.descends_from(e, id) by {
                    assert(w1.alive(e));
                    if !w1.global_changed(e) {
                        assert(w1.descends_from(e, child));
                        lemma_descends_through_child(&w0, e, child, id);
                    }
                }
                assert(child == w0.children(id)[i as int]);
                assert forall|j: int| 0 <= j < i + 1 implies world.global_changed(#[trigger] w0.children(id)[j]) by {
                    let x = w0.children(id)[j];
                    assert(w0.alive(x));
                    assert(w1.alive(x));
                    if j < i {
                        assert(w1.global_changed(x));
                        assert(w1.only_marks_globals(&*world));
                        assert(world.global_changed(x));
                    } else {
                        assert(x == child);
                        assert(world.global_changed(child));
                    }
                }
                assert forall|e: Entity| #[trigger] w0.alive(e) implies {
                    &&& world.caches()[e.index as int].local_matrix == w0.caches()[e.index as int].local_matrix
                    &&& world.global_item(e) == w0.global_item(e)
                    &&& (w0.global_changed(e) ==> world.global_changed(e))
                } by {
                    assert(w1.alive(e));
                }
            }
            i = i + 1;
        }
        proof {
            assert forall|p: Entity, c: Entity|
                #[trigger] world.alive(p) && #[trigger] world.alive(c) && world.parent(c) == Some(p)
                && world.global_changed(p) && !pending.contains(p) implies world.global_changed(c) by {
                if p == id {
                    assert(world.children(p).contains(c));
                    let j = choose|j: int| 0 <= j < world.children(p).len() && world.children(p)[j] == c;
                    assert(world.global_changed(w0.children(id)[j]));
                }
            }
        }
    }

    /// Marks the local matrix of `id` to be computed, then its global matrix
    /// and those below it; `id` may have just been placed under a new parent.
    fn void_local_matrix_of<M: Ident>(world: &mut World<M>, id: Entity)
        requires
            old(world).structure_ok(),
            old(world).alive(id),
            old(world).caches_ok_except(Set::empty(), Some(id)),
        ensures
            final(world).wf(),
            final(world).objects() == old(world).objects(),
            final(world).caches().len() == old(world).caches().len(),
            final(world).local_changed(id),
            final(world).global_changed(id),
            forall|e: Entity| #[trigger] old(world).alive(e) ==> {
                &&& final(world).local_item(e) == old(world).local_item(e)
                &&& final(world).global_item(e) == old(world).global_item(e)
                &&& (e != id ==> final(world).local_changed(e) == old(world).local_changed(e))
                &&& (old(world).global_changed(e) ==> final(world).global_changed(e))
                &&& (final(world).global_changed(e) && !old(world).global_changed(e)
                    ==> old(world).descends_from(e, id))
            },
    {
        let ghost w0 = *world;
        world.caches[id.index].local_matrix.changed = true;
        let ghost w1 = *world;
        proof {
            assert(w1.caches() == w0.caches().update(id.index as int, w1.caches()[id.index as int]));
            assert forall|e: Entity| #[trigger] w1.alive(e) && e != id
                implies w1.caches()[e.index as int] == w0.caches()[e.index as int] by {}
            assert forall|p: Entity, c: Entity|
                #[trigger] w1.alive(p) && #[trigger] w1.alive(c) && w1.parent(c) == Some(p)
                && w1.global_changed(p) && !Set::<Entity>::empty().contains(p) && Some(id) != Some(c)
                implies w1.global_changed(c) by {
                assert(w0.alive(p) && w0.alive(c));
            }
            assert forall|e: Entity| #[trigger] w1.alive(e) && w1.local_changed(e) && Some(id) != Some(e)
                implies w1.global_changed(e) by {
                assert(w0.alive(e));
            }
        }
        Self::void_global_matrix(world, id, Ghost(Set::empty()));
        proof {
            assert(w1.alive(id));
            assert forall|e: Entity| #[trigger] w0.alive(e) implies {
                &&& world.local_item(e) == w0.local_item(e)
                &&& world.global_item(e) == w0.global_item(e)
                &&& (e != id ==> world.local_changed(e) == w0.local_changed(e))
                &&& (w0.global_changed(e) ==> world.global_changed(e))
                &&& (world.global_changed(e) && !w0.global_changed(e) ==> w0.descends_from(e, id))
            } by {
                assert(w1.alive(e));
                if e != id {
                    assert(w1.caches()[e.index as int] == w0.caches()[e.index as int]);
                }
                if world.global_changed(e) && !w0.global_changed(e) {
                    assert(!w1.global_changed(e));
                    assert(w1.descends_from(e, id));
                }
            }
            assert forall|e: Entity| #[trigger] world.alive(e) && world.local_changed(e)
                implies world.global_changed(e) by {
                assert(w1.alive(e));
                if e != id {
                    assert(w0.alive(e));
                }
            }
        }
    }

    /// Marks the local matrix of `id` to be computed, and the global matrices
    /// of `id` and of everything below it.
    pub fn void_local_matrix<M: Ident>(world: &mut World<M>, id: Entity)
        requires
            old(world).wf(),
            old(world).alive(id),
        ensures
            final(world).wf(),
            final(world).objects() == old(world).objects(),
            final(world).caches().len() == old(world).caches().len(),
            final(world).local_changed(id),
            final(world).global_changed(id),
            forall|e: Entity| #[trigger] old(world).alive(e) ==> {
                &&& final(world).local_item(e) == old(world).local_item(e)
                &&& final(world).global_item(e) == old(world).global_item(e)
                &&& (e != id ==> final(world).local_changed(e) == old(world).local_changed(e))
                &&& (old(world).global_changed(e) ==> final(world).global_changed(e))
                &&& (final(world).global_changed(e) && !old(world).global_changed(e)
                    ==> old(world).descends_from(e, id))
            },
    {
        Self::void_local_matrix_of(world, id);
    }

    /// Places `id` under `new_parent`, or at the top for `None`: `id` is
    /// appended to the children of the new parent and taken out of those of
    /// the old one, and its matrices and those below it are marked to be
    /// computed. Fails, changing nothing, when `id` or the new parent is not
    /// an entity of the world.
    pub fn set_parent<M: Ident>(world: &mut World<M>, id: Entity, new_parent: Option<Entity>) -> (r: Result<(), ()>)
        requires
            old(world).wf(),
        ensures
            final(world).wf(),
            r is Err <==> (!old(world).alive(id) || (new_parent matches Some(x) && !old(world).alive(x))),
            r is Err ==> *final(world) == *old(world),
            r is Ok ==> {
                &&& final(world).len() == old(world).len()
                &&& final(world).parent(id) == new_parent
                &&& final(world).local_changed(id)
                &&& final(world).global_changed(id)
                &&& forall|e: Entity| #[trigger] old(world).alive(e) ==> {
                    &&& (e != id ==> final(world).parent(e) == old(world).parent(e))
                    &&& final(world).children(e) == children_after_move(
                        old(world).children(e), e, id, old(world).parent(id), new_parent)
                    &&& final(world).local_item(e) == old(world).local_item(e)
                    &&& final(world).global_item(e) == old(world).global_item(e)
                    &&& (e != id ==> final(world).local_changed(e) == old(world).local_changed(e))
                    &&& (old(world).global_changed(e) ==> final(world).global_changed(e))
                    &&& (final(world).global_changed(e) && !old(world).global_changed(e)
                        ==> final(world).descends_from(e, id))
                }
            },
            r is Ok ==> match old(world).parent(id) {
                Some(p) => new_parent != Some(p) ==> exists|i: int|
                    0 <= i < old(world).children(p).len() && old(world).children(p)[i] == id
                    && final(world).children(p) == old(world).children(p).remove(i),
                None => true,
            },
            r is Ok ==> match new_parent {
                Some(q) => old(world).parent(id) != Some(q)
                    ==> final(world).children(q) == old(world).children(q).push(id),
                None => true,
            },
            r is Ok ==> match new_parent {
                Some(q) => old(world).parent(id) == Some(q) ==> exists|i: int|
                    0 <= i < old(world).children(q).len() && old(world).children(q)[i] == id
                    && final(world).children(q) == old(world).children(q).remove(i).push(id),
                None => true,
            },
            r is Ok ==> forall|e: Entity| #[trigger] old(world).alive(e) && old(world).parent(id) != Some(e)
                && new_parent != Some(e) ==> final(world).children(e) == old(world).children(e),
    {
        if !world.is_alive(id) {
            return Err(());
        }
        let ghost w0 = *world;
        let ghost olds = w0.objects();
        let ghost old_parent = w0.parent(id);
        match new_parent {
            Some(x) => {
                if !world.is_alive(x) {
                    return Err(());
                }
                world.objects[x.index].children.push(id);
                proof {
                    assert forall|k: int| 0 <= k < olds.len() && k != x.index implies world.objects()[k] == olds[k] by {}
                    assert(world.objects()[x.index as int].children@ == olds[x.index as int].children@.push(id));
                    assert(world.objects()[x.index as int].parent == olds[x.index as int].parent);
                }
            },
            None => {},
        }
        let ghost w1 = *world;
        assert(w1.objects().len() == olds.len());
        assert forall|e: Entity| #[trigger] alive_in(olds, e) implies w1.objects()[e.index as int].children@
            == (if new_parent == Some(e) { olds[e.index as int].children@.push(id) } else { olds[e.index as int].children@ })
            && w1.objects()[e.index as int].parent == olds[e.index as int].parent by {
            if new_parent is Some {
                let x = new_parent->0;
                if e.index != x.index {
                    assert(new_parent != Some(e));
                }
            }
        }
        let parent = Self::get_parent(world, id);
        match parent {
            None => {},
            Some(y) => {
                proof {
                    assert(alive_in(olds, id));
                    assert(alive_in(olds, y));
                    assert(children_in(olds, y).contains(id));
                    let k = choose|k: int| 0 <= k < children_in(olds, y).len() && children_in(olds, y)[k] == id;
                    assert(w1.objects()[y.index as int].children@[k] == id);
                }
                let index = first_position(&world.objects[y.index].children, id);
                let ghost before = world.objects@[y.index as int].children@;
                world.objects[y.index].children.remove(index);
                proof {
                    lemma_remove_first(before, index as int, id);
                    assert forall|k: int| 0 <= k < olds.len() && k != y.index implies world.objects()[k] == w1.objects()[k] by {}
                    assert(world.objects()[y.index as int].children@ == before.remove_value(id));
                    assert(world.objects()[y.index as int].parent == w1.objects()[y.index as int].parent);
                }
            },
        }
        world.objects[id.index].parent = new_parent;
        let ghost w2 = *world;
        proof {
            let objs = w2.objects();
            assert(objs.len() == olds.len());
            assert forall|e: Entity| #[trigger] alive_in(olds, e) implies
                children_in(objs, e) == children_after_move(children_in(olds, e), e, id, old_parent, new_parent)
                && (e != id ==> parent_in(objs, e) == parent_in(olds, e)) by {
                let k = e.index as int;
                assert(w1.objects()[k].children@ == (if new_parent == Some(e) { olds[k].children@.push(id) } else { olds[k].children@ }));
            }
            assert(parent_in(objs, id) == new_parent);
            lemma_move_keeps_structure(olds, objs, id, new_parent);
            assert(w2.caches() == w0.caches());
            assert forall|e: Entity| #[trigger] alive_in(objs, e) && local_changed_in(w2.caches(), e) && Some(id) != Some(e)
                implies global_changed_in(w2.caches(), e) by {
                assert(alive_in(olds, e));
            }
            assert forall|p: Entity, c: Entity|
                #[trigger] alive_in(objs, p) && #[trigger] alive_in(objs, c) && parent_in(objs, c) == Some(p)
                && global_changed_in(w2.caches(), p) && !Set::<Entity>::empty().contains(p) && Some(id) != Some(c)
                implies global_changed_in(w2.caches(), c) by {
                assert(alive_in(olds, p) && alive_in(olds, c));
            }
        }
        Self::void_local_matrix_of(world, id);
        proof {
            assert(world.objects() == w2.objects());
            assert forall|e: Entity| #[trigger] w0.alive(e) implies {
                &&& (e != id ==> world.parent(e) == w0.parent(e))
                &&& world.children(e) == children_after_move(w0.children(e), e, id, w0.parent(id), new_parent)
                &&& world.local_item(e) == w0.local_item(e)
                &&& world.global_item(e) == w0.global_item(e)
                &&& (e != id ==> world.local_changed(e) == w0.local_changed(e))
                &&& (w0.global_changed(e) ==> world.global_changed(e))
                &&& (world.global_changed(e) && !w0.global_changed(e) ==> world.descends_from(e, id))
            } by {
                assert(alive_in(olds, e));
                assert(w2.alive(e));
                assert(w2.caches()[e.index as int] == w0.caches()[e.index as int]);
                if world.global_changed(e) && !w0.global_changed(e) {
                    assert(w2.descends_from(e, id));
                }
            }
            if let Some(p) = w0.parent(id) {
                assert(alive_in(olds, id));
                assert(alive_in(olds, p));
                assert(w0.children(p).contains(id));
                let i = lemma_first_removed(w0.children(p), id);
                assert(w0.alive(p));
                if new_parent == Some(p) {
                    assert(world.children(p) == w0.children(p).remove(i).push(id));
                } else {
                    assert(world.children(p) == w0.children(p).remove(i));
                }
            }
            if let Some(q) = new_parent {
                assert(w0.alive(q));
            }
        }
        Ok(())
    }

    /// The local matrix of `id`: the cached one, or, when it must be
    /// computed, what `local_of` gives for `id`, which is then cached.
    fn get_local_matrix<M: Ident + Copy, L: Fn(Entity) -> M>(world: &mut World<M>, id: Entity, local_of: &L) -> (r: M)
        requires
            old(world).wf(),
            old(world).alive(id),
            forall|e: Entity| local_of.requires((e,)),
        ensures
            final(world).wf(),
            final(world).objects() == old(world).objects(),
            final(world).caches().len() == old(world).caches().len(),
            forall|e: Entity| #[trigger] old(world).alive(e) && e != id
                ==> final(world).caches()[e.index as int] == old(world).caches()[e.index as int],
            final(world).caches()[id.index as int].global_matrix == old(world).caches()[id.index as int].global_matrix,
            !final(world).local_changed(id),
            r == final(world).local_item(id),
            old(world).local_changed(id) ==> call_ensures(local_of, (id,), r),
            !old(world).local_changed(id) ==> r == old(world).local_item(id),
    {
        let ghost w0 = *world;
        if world.caches[id.index].local_matrix.changed {
            let m = local_of(id);
            world.caches[id.index].local_matrix.item = m;
            world.caches[id.index].local_matrix.changed = false;
            proof {
                let objs = world.objects();
                let cs = world.caches();
                assert forall|e: Entity| #[trigger] w0.alive(e) && e != id
                    implies cs[e.index as int] == w0.caches()[e.index as int] by {}
                assert forall|e: Entity| #[trigger] alive_in(objs, e) && local_changed_in(cs, e) && None::<Entity> != Some(e)
                    implies global_changed_in(cs, e) by {
                    assert(w0.alive(e));
                }
                assert forall|p: Entity, c: Entity|
                    #[trigger] alive_in(objs, p) && #[trigger] alive_in(objs, c) && parent_in(objs, c) == Some(p)
                    && global_changed_in(cs, p) && !Set::<Entity>::empty().contains(p) && None::<Entity> != Some(c)
                    implies global_changed_in(cs, c) by {
                    assert(w0.alive(p) && w0.alive(c));
                }
            }
        }
        world.caches[id.index].local_matrix.item
    }

    /// The global matrix of `id` along an ending chain of `n` steps.
    fn global_matrix_along<M: Ident + Copy, L: Fn(Entity) -> M, C: Fn(M, M) -> M>(
        world: &mut World<M>,
        id: Entity,
        local_of: &L,
        compose: &C,
        Ghost(n): Ghost<nat>,
    ) -> (r: M)
        requires
            old(world).wf(),
            old(world).alive(id),
            dirty_chain_ends(old(world).objects(), old(world).caches(), id, n),
            forall|e: Entity| local_of.requires((e,)),
            forall|a: M, b: M| compose.requires((a, b)),
        ensures
            final(world).wf(),
            final(world).objects() == old(world).objects(),
            final(world).caches().len() == old(world).caches().len(),
            r == final(world).global_item(id),
            !final(world).global_changed(id),
            forall|e: Entity| #[trigger] old(world).alive(e)
                && !on_dirty_chain(old(world).objects(), old(world).caches(), id, e, n)
                ==> final(world).caches()[e.index as int] == old(world).caches()[e.index as int],
            forall|e: Entity| #[trigger] old(world).alive(e)
                && on_dirty_chain(old(world).objects(), old(world).caches(), id, e, n)
                ==> final(world).computed_from(&*old(world), e, local_of, compose),
        decreases n,
    {
        let ghost w0 = *world;
        if !world.caches[id.index].global_matrix.changed {
            return world.caches[id.index].global_matrix.item;
        }
        let parent_matrix = match world.objects[id.index].parent {
            None => M::empty(),
            Some(p) => {
                proof {
                    assert(alive_in(w0.objects(), p));
                }
                Self::global_matrix_along(world, p, local_of, compose, Ghost((n - 1) as nat))
            },
        };
        let ghost w1 = *world;
        proof {
            if w0.parent(id) is Some {
                lemma_dirty_chain_no_return(w0.objects(), w0.caches(), id, w0.parent(id)->0, n, (n - 1) as nat);
                assert(w1.caches()[id.index as int] == w0.caches()[id.index as int]);
            }
        }
        let local = Self::get_local_matrix(world, id, local_of);
        let ghost w2 = *world;
        let mat = compose(parent_matrix, local);
        world.caches[id.index].global_matrix.item = mat;
        world.caches[id.index].global_matrix.changed = false;
        proof {
            let objs = w0.objects();
            let c0 = w0.caches();
            let cs = world.caches();
            assert(world.objects() == objs);
            assert forall|e: Entity| #[trigger] w0.alive(e) && e != id
                implies cs[e.index as int] == w2.caches()[e.index as int] by {}
            if w0.parent(id) is Some {
                let p = w0.parent(id)->0;
                assert(p != id);
                assert(!w1.global_changed(p));
            }
            // consistency of the caches
            assert forall|e: Entity| #[trigger] alive_in(objs, e) && local_changed_in(cs, e) && None::<Entity> != Some(e)
                implies global_changed_in(cs, e) by {
                assert(w2.alive(e));
            }
            assert forall|q: Entity, c: Entity|
                #[trigger] alive_in(objs, q) && #[trigger] alive_in(objs, c) && parent_in(objs, c) == Some(q)
                && global_changed_in(cs, q) && !Set::<Entity>::empty().contains(q) && None::<Entity> != Some(c)
                implies global_changed_in(cs, c) by {
                assert(w2.alive(q) && w2.alive(c));
                assert(w0.alive(q) && w0.alive(c));
                if c == id {
                    assert(q == w0.parent(id)->0);
                    assert(w1.alive(q));
                    assert(w2.caches()[q.index as int] == w1.caches()[q.index as int]);
                }
            }
            // entities off the chain are untouched
            assert forall|e: Entity| #[trigger] w0.alive(e) && !on_dirty_chain(objs, c0, id, e, n)
                implies cs[e.index as int] == c0[e.index as int] by {
                assert(e != id);
                assert(w1.alive(e));
                assert(w2.caches()[e.index as int] == w1.caches()[e.index as int]);
                if w0.parent(id) is Some {
                    let p = w0.parent(id)->0;
                    assert(!on_dirty_chain(objs, c0, p, e, (n - 1) as nat));
                    assert(w1.caches()[e.index as int] == c0[e.index as int]);
                }
            }
            // entities on the chain are computed
            assert forall|e: Entity| #[trigger] w0.alive(e) && on_dirty_chain(objs, c0, id, e, n)
                implies world.computed_from(&w0, e, local_of, compose) by {
                if e == id {
                    assert(w1.caches()[id.index as int] == c0[id.index as int]);
                    assert(cs[id.index as int].local_matrix == w2.caches()[id.index as int].local_matrix);
                    assert(!world.local_changed(id));
                    assert(w0.local_changed(id) ==> call_ensures(*local_of, (id,), world.local_item(id)));
                    assert(!w0.local_changed(id) ==> world.local_item(id) == w0.local_item(id));
                    match w0.parent(id) {
                        Some(p) => {
                            assert(p != id);
                            assert(alive_in(objs, p));
                            assert(w0.alive(p) && w1.alive(p));
                            assert(w2.caches()[p.index as int] == w1.caches()[p.index as int]);
                            assert(world.global_item(p) == w1.global_item(p));
                            assert(call_ensures(*compose, (world.global_item(p), world.local_item(e)), world.global_item(e)));
                        },
                        None => {
                            assert(call_ensures(*compose, (parent_matrix, world.local_item(e)), world.global_item(e)));
                        },
                    }
                } else {
                    let p = w0.parent(id)->0;
                    assert(on_dirty_chain(objs, c0, p, e, (n - 1) as nat));
                    assert(w1.computed_from(&w0, e, local_of, compose));
                    lemma_dirty_chain_no_return(objs, c0, id, p, n, (n - 1) as nat);
                    assert(dirty_chain_ends(objs, c0, p, (n - 1) as nat));
                    assert(e != id);
                    assert(w1.alive(e));
                    assert(w2.caches()[e.index as int] == w1.caches()[e.index as int]);
                    assert(cs[e.index as int] == w1.caches()[e.index as int]);
                    if w0.parent(e) is Some {
                        let z = w0.parent(e)->0;
                        if z == id {
                            lemma_dirty_chain_parent(objs, c0, p, e, id, (n - 1) as nat);
                        }
                        assert(z != id);
                        assert(alive_in(objs, z));
                        assert(w0.alive(z) && w1.alive(z));
                        assert(w2.caches()[z.index as int] == w1.caches()[z.index as int]);
                        assert(cs[z.index as int] == w1.caches()[z.index as int]);
                    } else {
                        let i = choose|i: M| call_ensures(M::empty, (), i)
                            && #[trigger] call_ensures(*compose, (i, w1.local_item(e)), w1.global_item(e));
                        assert(world.local_item(e) == w1.local_item(e));
                        assert(world.global_item(e) == w1.global_item(e));
                        assert(call_ensures(*compose, (i, world.local_item(e)), world.global_item(e)));
                    }
                }
            }
        }
        world.caches[id.index].global_matrix.item
    }

    /// Whether the global matrix of `id` can be computed: following parents
    /// from `id` while their global matrices are marked reaches a valid one
    /// or the top within as many steps as there are entities. When it does
    /// not, the marked parents go round in a cycle and the computation would
    /// never end.
    pub fn can_compute_global_matrix<M: Ident>(world: &World<M>, id: Entity) -> (r: bool)
        requires
            world.wf(),
            world.alive(id),
        ensures
            r == dirty_chain_ends(world.objects(), world.caches(), id, world.len()),
    {
        let ghost objs = world.objects();
        let ghost cs = world.caches();
        let mut x = id;
        let mut budget: usize = world.objects.len();
        loop
            invariant
                world.wf(),
                alive_in(objs, x),
                objs == world.objects(),
                cs == world.caches(),
                dirty_chain_ends(objs, cs, id, world.len()) == dirty_chain_ends(objs, cs, x, budget as nat),
            decreases budget,
        {
            if !world.caches[x.index].global_matrix.changed {
                return true;
            }
            match world.objects[x.index].parent {
                None => {
                    return true;
                },
                Some(p) => {
                    if budget == 0 {
                        return false;
                    }
                    proof {
                        assert(alive_in(objs, p));
                    }
                    x = p;
                    budget = budget - 1;
                },
            }
        }
    }

    /// The global matrix of `id`. A valid cached matrix is returned as it
    /// is. Otherwise the parent's global matrix (a neutral one at the top) is
    /// obtained first, the local matrix is taken from its cache or from
    /// `local_of`, the two are joined by `compose`, and the result is cached.
    pub fn get_global_matrix<M: Ident + Copy, L: Fn(Entity) -> M, C: Fn(M, M) -> M>(
        world: &mut World<M>,
        id: Entity,
        local_of: &L,
        compose: &C,
    ) -> (r: M)
        requires
            old(world).wf(),
            old(world).alive(id),
            dirty_chain_ends(old(world).objects(), old(world).caches(), id, old(world).len()),
            forall|e: Entity| local_of.requires((e,)),
            forall|a: M, b: M| compose.requires((a, b)),
        ensures
            final(world).wf(),
            final(world).objects() == old(world).objects(),
            final(world).caches().len() == old(world).caches().len(),
            r == final(world).global_item(id),
            !final(world).global_changed(id),
            !old(world).global_changed(id) ==> r == old(world).global_item(id)
                && final(world).caches() == old(world).caches(),
            forall|e: Entity| #[trigger] old(world).alive(e)
                && !on_dirty_chain(old(world).objects(), old(world).caches(), id, e, old(world).len())
                ==> final(world).caches()[e.index as int] == old(world).caches()[e.index as int],
            forall|e: Entity| #[trigger] old(world).alive(e)
                && on_dirty_chain(old(world).objects(), old(world).caches(), id, e, old(world).len())
                ==> final(world).computed_from(&*old(world), e, local_of, compose),
    {
        let ghost w0 = *world;
        let r = Self::global_matrix_along(world, id, local_of, compose, Ghost(w0.len()));
        proof {
            if !w0.global_changed(id) {
                assert forall|i: int| 0 <= i < world.caches().len() implies world.caches()[i] == w0.caches()[i] by {
                    assert(w0.caches@.len() == w0.caches.len());
                    let e = Entity { index: i as usize };
                    assert(e.index as int == i);
                    assert(w0.alive(e));
                    assert(!on_dirty_chain(w0.objects(), w0.caches(), id, e, w0.len()));
                }
                assert(world.caches() =~= w0.caches());
            }
        }
        r
    }

    /// The parent of `id`.
    pub fn get_parent<M: Ident>(world: &World<M>, id: Entity) -> (r: Option<Entity>)
        requires
            world.alive(id),
        ensures
            r == world.parent(id),
    {
        world.objects[id.index].parent
    }
}

} // verus!

verus! {

/// Every ancestor of an entity of a consistent world is an entity of it.
proof fn lemma_ancestor_alive(objects: Seq<GameObject>, e: Entity, n: nat)
    requires
        structure_ok_in(objects),
        alive_in(objects, e),
    ensures
        ancestor_in(objects, e, n) matches Some(x) ==> alive_in(objects, x),
    decreases n,
{
    if n > 0 {
        lemma_ancestor_alive(objects, e, (n - 1) as nat);
    }
}

/// A global matrix marked to be computed has everything below it marked too,
/// so marking an entity is enough to have its whole subtree computed again.
pub proof fn lemma_marks_reach_descendants<M: Ident>(w: &World<M>, a: Entity, e: Entity)
    requires
        w.wf(),
        w.alive(e),
        w.global_changed(a),
        w.descends_from(e, a),
    ensures
        w.global_changed(e),
{
    let n = choose|n: nat| #[trigger] ancestor_in(w.objects(), e, n) == Some(a);
    lemma_marks_reach_descendants_at(w, a, e, n);
}

proof fn lemma_marks_reach_descendants_at<M: Ident>(w: &World<M>, a: Entity, e: Entity, n: nat)
    requires
        w.wf(),
        w.alive(e),
        w.global_changed(a),
        ancestor_in(w.objects(), e, n) == Some(a),
    ensures
        w.global_changed(e),
    decreases n,
{
    if n > 0 {
        let x = ancestor_in(w.objects(), e, (n - 1) as nat)->0;
        lemma_ancestor_alive(w.objects(), e, (n - 1) as nat);
        lemma_ancestor_alive(w.objects(), e, n);
        assert(parent_in(w.objects(), x) == Some(a));
        assert(alive_in(w.objects(), x) && alive_in(w.objects(), a));
        assert(!Set::<Entity>::empty().contains(a));
        assert(global_changed_in(w.caches(), x));
        lemma_marks_reach_descendants_at(w, x, e, (n - 1) as nat);
    }
}

/// Once a change is marked at `a`, the global matrix of `a` and of every
/// object below it is computed afresh the next time it is asked for: the
/// object lies on its own chain of matrices to compute, so `get_global_matrix`
/// computes it from its parent's matrix and its local one.
pub proof fn lemma_marked_below_is_recomputed<M: Ident>(w: &World<M>, a: Entity, e: Entity)
    requires
        w.wf(),
        w.alive(e),
        w.global_changed(a),
        w.descends_from(e, a),
    ensures
        on_dirty_chain(w.objects(), w.caches(), e, e, w.len()),
{
    lemma_marks_reach_descendants(w, a, e);
}

/// A valid global matrix needs no work: it may always be asked for, and no
/// entity is on the chain to compute, so `get_global_matrix` hands back the
/// cached matrix and changes nothing.
pub proof fn lemma_valid_global_needs_no_work<M: Ident>(w: &World<M>, id: Entity, e: Entity)
    requires
        w.alive(id),
        !w.global_changed(id),
    ensures
        dirty_chain_ends(w.objects(), w.caches(), id, w.len()),
        !on_dirty_chain(w.objects(), w.caches(), id, e, w.len()),
{
}


/// The global matrix an object's valid cache should hold: `comp` of its
/// parent's cached global matrix (`emp` at the top) and its own local one.
pub open spec fn expected_global<M: Ident>(w: World<M>, comp: spec_fn(M, M) -> M, emp: M, e: Entity) -> M {
    let above = match w.parent(e) {
        Some(p) => w.global_item(p),
        None => emp,
    };
    comp(above, w.local_item(e))
}

/// The caches of `w` agree with the local matrices `loc`, joined by `comp`
/// under the neutral matrix `emp`: every valid local matrix is `loc` of its
/// object, and every valid global matrix is `comp` of its parent's global
/// matrix (`emp` at the top) and its local one.
pub open spec fn coherent<M: Ident>(w: World<M>, loc: spec_fn(Entity) -> M, comp: spec_fn(M, M) -> M, emp: M) -> bool {
    forall|e: Entity| #[trigger] w.alive(e) ==> {
        &&& (!w.local_changed(e) ==> w.local_item(e) == loc(e))
        &&& (!w.global_changed(e) ==> w.global_item(e) == expected_global(w, comp, emp, e))
    }
}

/// The product of the local matrices `loc` from the top of the hierarchy
/// down to `e`, joined by `comp` under `emp`, following at most `n` parents;
/// `None` when the top is not reached within `n` steps.
pub open spec fn chain_product<M>(
    objects: Seq<GameObject>,
    loc: spec_fn(Entity) -> M,
    comp: spec_fn(M, M) -> M,
    emp: M,
    e: Entity,
    n: nat,
) -> Option<M>
    decreases n,
{
    match parent_in(objects, e) {
        None => Some(comp(emp, loc(e))),
        Some(p) => if n == 0 {
            None
        } else {
            match chain_product(objects, loc, comp, emp, p, (n - 1) as nat) {
                Some(g) => Some(comp(g, loc(e))),
                None => None,
            }
        },
    }
}

/// A valid cached global matrix of a coherent world is the product of the
/// local matrices along the object's chain of ancestors, from the top down.
pub proof fn lemma_valid_global_is_chain_product<M: Ident>(
    w: &World<M>,
    loc: spec_fn(Entity) -> M,
    comp: spec_fn(M, M) -> M,
    emp: M,
    e: Entity,
    n: nat,
)
    requires
        w.wf(),
        coherent(*w, loc, comp, emp),
        w.alive(e),
        !w.global_changed(e),
        chain_product(w.objects(), loc, comp, emp, e, n) is Some,
    ensures
        chain_product(w.objects(), loc, comp, emp, e, n) == Some(w.global_item(e)),
    decreases n,
{
    assert(alive_in(w.objects(), e));
    assert(!w.local_changed(e));
    match w.parent(e) {
        Some(p) => {
            assert(alive_in(w.objects(), p));
            assert(!Set::<Entity>::empty().contains(p));
            assert(!w.global_changed(p));
            lemma_valid_global_is_chain_product(w, loc, comp, emp, p, (n - 1) as nat);
        },
        None => {},
    }
}

/// An empty world is coherent with any local matrices.
pub proof fn lemma_empty_world_coherent<M: Ident>(w: &World<M>, loc: spec_fn(Entity) -> M, comp: spec_fn(M, M) -> M, emp: M)
    requires
        w.len() == 0,
    ensures
        coherent(*w, loc, comp, emp),
{
}

/// Adding an object, as `GameObject::create_empty` does, keeps the caches
/// coherent: the new object's matrices are both marked, and nothing else
/// changes.
pub proof fn lemma_create_keeps_coherent<M: Ident>(
    before: &World<M>,
    after: &World<M>,
    id: Entity,
    loc: spec_fn(Entity) -> M,
    comp: spec_fn(M, M) -> M,
    emp: M,
)
    requires
        before.wf(),
        after.wf(),
        coherent(*before, loc, comp, emp),
        id.index == before.len(),
        after.len() == before.len() + 1,
        after.objects().take(id.index as int) == before.objects(),
        after.caches().take(id.index as int) == before.caches(),
        after.global_changed(id),
        after.local_changed(id),
    ensures
        coherent(*after, loc, comp, emp),
{
    assert forall|e: Entity| #[trigger] after.alive(e) implies {
        &&& (!after.local_changed(e) ==> after.local_item(e) == loc(e))
        &&& (!after.global_changed(e) ==> after.global_item(e) == expected_global(*after, comp, emp, e))
    } by {
        if e != id {
            assert(before.alive(e));
            assert(after.objects()[e.index as int] == after.objects().take(id.index as int)[e.index as int]);
            assert(after.caches()[e.index as int] == after.caches().take(id.index as int)[e.index as int]);
            if !after.global_changed(e) {
                if let Some(p) = before.parent(e) {
                    assert(alive_in(before.objects(), p));
                    assert(after.caches()[p.index as int] == after.caches().take(id.index as int)[p.index as int]);
                }
            }
        }
    }
}


/// Marking an object as `void_local_matrix` and `set_parent` do keeps the
/// caches coherent, even when the object's local matrix changed from
/// `loc(id)` to `new_loc(id)` (as after a new position, rotation or scale):
/// the object's matrices are marked, other objects keep their parents and
/// cached items, and no mark is cleared.
pub proof fn lemma_marking_keeps_coherent<M: Ident>(
    before: &World<M>,
    after: &World<M>,
    id: Entity,
    loc: spec_fn(Entity) -> M,
    new_loc: spec_fn(Entity) -> M,
    comp: spec_fn(M, M) -> M,
    emp: M,
)
    requires
        coherent(*before, loc, comp, emp),
        forall|e: Entity| e != id ==> #[trigger] new_loc(e) == loc(e),
        after.len() == before.len(),
        after.local_changed(id),
        after.global_changed(id),
        forall|e: Entity| #[trigger] before.alive(e) ==> {
            &&& (e != id ==> after.parent(e) == before.parent(e))
            &&& after.local_item(e) == before.local_item(e)
            &&& after.global_item(e) == before.global_item(e)
            &&& (e != id ==> after.local_changed(e) == before.local_changed(e))
            &&& (before.global_changed(e) ==> after.global_changed(e))
        },
        forall|e: Entity| #[trigger] before.alive(e) && before.parent(e) is Some ==> before.alive(before.parent(e)->0),
    ensures
        coherent(*after, new_loc, comp, emp),
{
    assert forall|e: Entity| #[trigger] after.alive(e) implies {
        &&& (!after.local_changed(e) ==> after.local_item(e) == new_loc(e))
        &&& (!after.global_changed(e) ==> after.global_item(e) == expected_global(*after, comp, emp, e))
    } by {
        assert(before.alive(e));
        if !after.global_changed(e) {
            assert(e != id);
            if let Some(p) = before.parent(e) {
                assert(before.alive(p));
            }
        }
    }
}

/// Everything met on a chain of marked matrices is marked.
proof fn lemma_dirty_chain_marked<M: Ident>(objects: Seq<GameObject>, caches: Seq<MatrixCache<M>>, x: Entity, y: Entity, n: nat)
    requires
        on_dirty_chain(objects, caches, x, y, n),
    ensures
        global_changed_in(caches, y),
    decreases n,
{
    if y != x {
        lemma_dirty_chain_marked(objects, caches, parent_in(objects, x)->0, y, (n - 1) as nat);
    }
}

/// Asking for a global matrix keeps the caches coherent when `local_of`,
/// `compose` and `M::empty` give what `loc`, `comp` and `emp` say; the matrix
/// handed back is then the one a coherent cache holds, `comp` of the parent's
/// global matrix (`emp` at the top) and `loc(id)`.
pub proof fn lemma_get_global_keeps_coherent<M: Ident, L: Fn(Entity) -> M, C: Fn(M, M) -> M>(
    before: &World<M>,
    after: &World<M>,
    id: Entity,
    local_of: &L,
    compose: &C,
    loc: spec_fn(Entity) -> M,
    comp: spec_fn(M, M) -> M,
    emp: M,
)
    requires
        before.wf(),
        after.wf(),
        coherent(*before, loc, comp, emp),
        forall|e: Entity, r: M| call_ensures(*local_of, (e,), r) ==> r == loc(e),
        forall|a: M, b: M, r: M| call_ensures(*compose, (a, b), r) ==> r == comp(a, b),
        forall|r: M| call_ensures(M::empty, (), r) ==> r == emp,
        before.alive(id),
        after.objects() == before.objects(),
        after.caches().len() == before.caches().len(),
        !after.global_changed(id),
        forall|e: Entity| #[trigger] before.alive(e)
            && !on_dirty_chain(before.objects(), before.caches(), id, e, before.len())
            ==> after.caches()[e.index as int] == before.caches()[e.index as int],
        forall|e: Entity| #[trigger] before.alive(e)
            && on_dirty_chain(before.objects(), before.caches(), id, e, before.len())
            ==> after.computed_from(before, e, local_of, compose),
    ensures
        coherent(*after, loc, comp, emp),
        after.local_item(id) == loc(id),
        after.global_item(id) == expected_global(*after, comp, emp, id),
{
    assert forall|e: Entity| #[trigger] after.alive(e) implies {
        &&& (!after.local_changed(e) ==> after.local_item(e) == loc(e))
        &&& (!after.global_changed(e) ==> after.global_item(e) == expected_global(*after, comp, emp, e))
    } by {
        assert(before.alive(e));
        if on_dirty_chain(before.objects(), before.caches(), id, e, before.len()) {
            assert(after.computed_from(before, e, local_of, compose));
            if !before.local_changed(e) {
                assert(before.local_item(e) == loc(e));
            }
            if after.parent(e) is None {
                let i = choose|i: M| call_ensures(M::empty, (), i)
                    && #[trigger] call_ensures(*compose, (i, after.local_item(e)), after.global_item(e));
                assert(i == emp);
            }
        } else {
            assert(after.caches()[e.index as int] == before.caches()[e.index as int]);
            if !after.global_changed(e) {
                assert(!before.global_changed(e));
                assert(alive_in(before.objects(), e));
                assert(!before.local_changed(e));
                if let Some(p) = before.parent(e) {
                    assert(alive_in(before.objects(), p));
                    assert(!Set::<Entity>::empty().contains(p));
                    assert(!before.global_changed(p));
                    if on_dirty_chain(before.objects(), before.caches(), id, p, before.len()) {
                        lemma_dirty_chain_marked(before.objects(), before.caches(), id, p, before.len());
                    }
                    assert(before.alive(p));
                    assert(after.caches()[p.index as int] == before.caches()[p.index as int]);
                }
            }
        }
    }
    assert(after.alive(id));
    assert(alive_in(after.objects(), id));
}


/// Following parents from every object of `w` ends at the top: no object is
/// its own ancestor.
pub open spec fn acyclic<M: Ident>(w: World<M>) -> bool {
    forall|e: Entity| #[trigger] w.alive(e) ==> exists|n: nat| #[trigger] ancestor_in(w.objects(), e, n) is None
}

/// Going up `a` steps and then `b` steps is going up `a + b` steps.
proof fn lemma_ancestor_add(objects: Seq<GameObject>, e: Entity, x: Entity, a: nat, b: nat)
    requires
        ancestor_in(objects, e, a) == Some(x),
    ensures
        ancestor_in(objects, e, a + b) == ancestor_in(objects, x, b),
    decreases b,
{
    if b > 0 {
        lemma_ancestor_add(objects, e, x, a, (b - 1) as nat);
        assert(a + b - 1 == a + (b - 1) as nat);
    }
}

/// The first step at which the chain of `e` meets `id`.
proof fn lemma_first_meeting(objects: Seq<GameObject>, e: Entity, id: Entity, k: nat) -> (j: nat)
    requires
        ancestor_in(objects, e, k) == Some(id),
    ensures
        j <= k,
        ancestor_in(objects, e, j) == Some(id),
        forall|i: nat| i < j ==> #[trigger] ancestor_in(objects, e, i) != Some(id),
    decreases k,
{
    if exists|i: nat| i < k && #[trigger] ancestor_in(objects, e, i) == Some(id) {
        let i = choose|i: nat| i < k && #[trigger] ancestor_in(objects, e, i) == Some(id);
        lemma_first_meeting(objects, e, id, i)
    } else {
        k
    }
}

/// Until the chain of `e` meets `id`, it is the same in a world where only
/// the parent of `id` changed.
proof fn lemma_chain_unchanged_before<M: Ident>(before: &World<M>, after: &World<M>, id: Entity, e: Entity, n: nat)
    requires
        structure_ok_in(before.objects()),
        before.alive(e),
        forall|x: Entity| #[trigger] before.alive(x) && x != id ==> after.parent(x) == before.parent(x),
        forall|i: nat| i < n ==> #[trigger] ancestor_in(before.objects(), e, i) != Some(id),
    ensures
        ancestor_in(after.objects(), e, n) == ancestor_in(before.objects(), e, n),
    decreases n,
{
    if n > 0 {
        lemma_chain_unchanged_before(before, after, id, e, (n - 1) as nat);
        lemma_ancestor_alive(before.objects(), e, (n - 1) as nat);
        if let Some(y) = ancestor_in(before.objects(), e, (n - 1) as nat) {
            assert(y != id);
            assert(before.alive(y));
            assert(after.parent(y) == before.parent(y));
        }
    }
}

/// Moving an object under a parent that does not lie below it, or to the
/// top, as `set_parent` does, keeps the hierarchy free of cycles, so every
/// global matrix can still be computed.
pub proof fn lemma_reparent_keeps_acyclic<M: Ident>(
    before: &World<M>,
    after: &World<M>,
    id: Entity,
    new_parent: Option<Entity>,
)
    requires
        before.wf(),
        acyclic(*before),
        before.alive(id),
        new_parent matches Some(p) ==> before.alive(p) && !before.descends_from(p, id),
        after.len() == before.len(),
        after.parent(id) == new_parent,
        forall|x: Entity| #[trigger] before.alive(x) && x != id ==> after.parent(x) == before.parent(x),
    ensures
        acyclic(*after),
{
    let ob = before.objects();
    let oa = after.objects();
    assert forall|e: Entity| #[trigger] after.alive(e) implies exists|n: nat| #[trigger] ancestor_in(oa, e, n) is None by {
        assert(before.alive(e));
        if before.descends_from(e, id) {
            let k0 = choose|n: nat| #[trigger] ancestor_in(ob, e, n) == Some(id);
            let k = lemma_first_meeting(ob, e, id, k0);
            lemma_chain_unchanged_before(before, after, id, e, k);
            assert(ancestor_in(oa, e, k) == Some(id));
            assert(ancestor_in(oa, e, k + 1) == new_parent);
            match new_parent {
                None => {
                    assert(ancestor_in(oa, e, k + 1) is None);
                },
                Some(p) => {
                    assert(before.alive(p));
                    let m = choose|n: nat| #[trigger] ancestor_in(ob, p, n) is None;
                    assert forall|i: nat| i < m implies #[trigger] ancestor_in(ob, p, i) != Some(id) by {
                        if ancestor_in(ob, p, i) == Some(id) {
                            assert(before.descends_from(p, id));
                        }
                    }
                    lemma_chain_unchanged_before(before, after, id, p, m);
                    lemma_ancestor_add(oa, e, p, k + 1, m);
                    assert(ancestor_in(oa, e, k + 1 + m) is None);
                },
            }
        } else {
            let n = choose|n: nat| #[trigger] ancestor_in(ob, e, n) is None;
            assert forall|i: nat| i < n implies #[trigger] ancestor_in(ob, e, i) != Some(id) by {
                if ancestor_in(ob, e, i) == Some(id) {
                    assert(before.descends_from(e, id));
                }
            }
            lemma_chain_unchanged_before(before, after, id, e, n);
            assert(ancestor_in(oa, e, n) is None);
        }
    }
}


/// Once the chain of `e` has ended, it stays ended.
proof fn lemma_chain_end_stays(objects: Seq<GameObject>, e: Entity, k: nat, t: nat)
    requires
        ancestor_in(objects, e, k) is None,
    ensures
        ancestor_in(objects, e, k + t) is None,
    decreases t,
{
    if t > 0 {
        lemma_chain_end_stays(objects, e, k, (t - 1) as nat);
        assert(k + t - 1 == k + (t - 1) as nat);
    }
}

/// A chain that meets the same object twice never ends.
proof fn lemma_cycle_never_ends(objects: Seq<GameObject>, e: Entity, i: nat, j: nat, m: nat)
    requires
        i < j,
        ancestor_in(objects, e, i) is Some,
        ancestor_in(objects, e, i) == ancestor_in(objects, e, j),
        forall|k: nat| i <= k <= j ==> #[trigger] ancestor_in(objects, e, k) is Some,
        i <= m,
    ensures
        ancestor_in(objects, e, m) is Some,
    decreases m,
{
    if m > j {
        let x = ancestor_in(objects, e, i)->0;
        let d = (m - j) as nat;
        lemma_ancestor_add(objects, e, x, j, d);
        lemma_ancestor_add(objects, e, x, i, d);
        lemma_cycle_never_ends(objects, e, i, j, i + d);
    }
}

/// In a consistent world free of cycles, the chain of every object ends
/// within as many steps as there are objects.
pub proof fn lemma_acyclic_chain_ends<M: Ident>(w: &World<M>, e: Entity)
    requires
        w.wf(),
        acyclic(*w),
        w.alive(e),
    ensures
        ancestor_in(w.objects(), e, w.len()) is None,
{
    let objs = w.objects();
    let len = w.len();
    if ancestor_in(objs, e, len) is Some {
        assert forall|k: nat| k <= len implies #[trigger] ancestor_in(objs, e, k) is Some by {
            if ancestor_in(objs, e, k) is None {
                lemma_chain_end_stays(objs, e, k, (len - k) as nat);
            }
        }
        let f = |k: int| ancestor_in(objs, e, k as nat)->0.index as int;
        let x = vstd::set_lib::set_int_range(0, len as int + 1);
        let y = x.map(f);
        vstd::set_lib::lemma_int_range(0, len as int + 1);
        vstd::set_lib::lemma_int_range(0, len as int);
        assert(y.subset_of(vstd::set_lib::set_int_range(0, len as int))) by {
            assert forall|v: int| y.contains(v) implies vstd::set_lib::set_int_range(0, len as int).contains(v) by {
                let k = choose|k: int| x.contains(k) && f(k) == v;
                lemma_ancestor_alive(objs, e, k as nat);
            }
        }
        vstd::set_lib::lemma_len_subset(y, vstd::set_lib::set_int_range(0, len as int));
        if vstd::relations::injective_on(f, x) {
            vstd::set_lib::lemma_map_size(x, y, f);
            assert(false);
        } else {
            let (a, b) = choose|a: int, b: int| x.contains(a) && x.contains(b) && #[trigger] f(a) == #[trigger] f(b) && a != b;
            let (i, j) = if a < b { (a as nat, b as nat) } else { (b as nat, a as nat) };
            assert(ancestor_in(objs, e, i)->0.index == ancestor_in(objs, e, j)->0.index);
            assert(ancestor_in(objs, e, i) == ancestor_in(objs, e, j));
            let n = choose|n: nat| #[trigger] ancestor_in(objs, e, n) is None;
            let m = if n < i { i } else { n };
            lemma_cycle_never_ends(objs, e, i, j, m);
            lemma_chain_end_stays(objs, e, n, (m - n) as nat);
            assert(false);
        }
    }
}

/// A chain that ends within `n` steps ends in particular on its marked part.
proof fn lemma_ended_chain_dirty_ends<M: Ident>(objects: Seq<GameObject>, caches: Seq<MatrixCache<M>>, x: Entity, n: nat)
    requires
        ancestor_in(objects, x, n) is None,
    ensures
        dirty_chain_ends(objects, caches, x, n),
    decreases n,
{
    if let Some(p) = parent_in(objects, x) {
        assert(n > 0);
        assert(ancestor_in(objects, x, 0) == Some(x));
        assert(ancestor_in(objects, x, 1) == Some(p));
        lemma_ancestor_add(objects, x, p, 1, (n - 1) as nat);
        assert(1 + (n - 1) as nat == n);
        lemma_ended_chain_dirty_ends(objects, caches, p, (n - 1) as nat);
    }
}

/// In a consistent world free of cycles, the global matrix of every object
/// can be computed: `get_global_matrix` may be asked for any of them.
pub proof fn lemma_acyclic_can_compute<M: Ident>(w: &World<M>, e: Entity)
    requires
        w.wf(),
        acyclic(*w),
        w.alive(e),
    ensures
        dirty_chain_ends(w.objects(), w.caches(), e, w.len()),
{
    lemma_acyclic_chain_ends(w, e);
    lemma_ended_chain_dirty_ends(w.objects(), w.caches(), e, w.len());
}

/// Adding an object, as `GameObject::create_empty` does, keeps the world
/// free of cycles, and an empty world has none.
pub proof fn lemma_create_keeps_acyclic<M: Ident>(before: &World<M>, after: &World<M>, id: Entity)
    requires
        before.wf(),
        acyclic(*before),
        id.index == before.len(),
        after.len() == before.len() + 1,
        after.objects().take(id.index as int) == before.objects(),
        after.parent(id) is None,
    ensures
        acyclic(*after),
{
    assert forall|e: Entity| #[trigger] after.alive(e) implies exists|n: nat| #[trigger] ancestor_in(after.objects(), e, n) is None by {
        if e == id {
            assert(ancestor_in(after.objects(), e, 0) == Some(e));
            assert(ancestor_in(after.objects(), e, 1) is None);
        } else {
            assert(before.alive(e));
            assert forall|x: Entity| #[trigger] before.alive(x) && x != id implies after.parent(x) == before.parent(x) by {
                assert(after.objects()[x.index as int] == after.objects().take(id.index as int)[x.index as int]);
            }
            let n = choose|n: nat| #[trigger] ancestor_in(before.objects(), e, n) is None;
            assert forall|i: nat| i < n implies #[trigger] ancestor_in(before.objects(), e, i) != Some(id) by {
                lemma_ancestor_alive(before.objects(), e, i);
            }
            lemma_chain_unchanged_before(before, after, id, e, n);
            assert(ancestor_in(after.objects(), e, n) is None);
        }
    }
}


/// When the chain of `e` ends within `n + 1` steps, the product of the local
/// matrices along it is defined.
proof fn lemma_ended_chain_has_product<M>(
    objects: Seq<GameObject>,
    loc: spec_fn(Entity) -> M,
    comp: spec_fn(M, M) -> M,
    emp: M,
    e: Entity,
    n: nat,
)
    requires
        ancestor_in(objects, e, n + 1) is None,
    ensures
        chain_product(objects, loc, comp, emp, e, n) is Some,
    decreases n,
{
    assert(ancestor_in(objects, e, 0) == Some(e));
    if let Some(p) = parent_in(objects, e) {
        assert(ancestor_in(objects, e, 1) == Some(p));
        lemma_ancestor_add(objects, e, p, 1, n);
        assert(1 + n == n + 1);
        if n == 0 {
            assert(ancestor_in(objects, p, 0) == Some(p));
        } else {
            lemma_ended_chain_has_product(objects, loc, comp, emp, p, (n - 1) as nat);
        }
    }
}

/// In a consistent world free of cycles whose caches are coherent with the
/// local matrices `loc`, a valid cached global matrix is the product, by
/// `comp`, of `emp` and the local matrices from the top of the hierarchy
/// down to the object: a cached matrix is never stale.
pub proof fn lemma_valid_global_is_product_of_locals<M: Ident>(
    w: &World<M>,
    loc: spec_fn(Entity) -> M,
    comp: spec_fn(M, M) -> M,
    emp: M,
    e: Entity,
)
    requires
        w.wf(),
        acyclic(*w),
        coherent(*w, loc, comp, emp),
        w.alive(e),
        !w.global_changed(e),
    ensures
        chain_product(w.objects(), loc, comp, emp, e, w.len()) == Some(w.global_item(e)),
{
    lemma_acyclic_chain_ends(w, e);
    lemma_chain_end_stays(w.objects(), e, w.len(), 1);
    lemma_ended_chain_has_product(w.objects(), loc, comp, emp, e, w.len());
    lemma_valid_global_is_chain_product(w, loc, comp, emp, e, w.len());
}

} // verus!
