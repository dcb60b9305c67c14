use vstd::prelude::*;
use crate::hierarchy::{Entity, GameObject, Ident, TransformHierarchy, World, ancestor_in};

verus! {

/// An object of a scene, what the engine attaches to it besides its place in
/// the hierarchy, and the objects placed under it.
pub struct SceneNode<T> {
    pub data: T,
    pub children: Vec<SceneNode<T>>,
}

/// How many objects `n` and its descendants make.
pub open spec fn node_count<T>(n: SceneNode<T>) -> nat
    decreases n,
{
    1 + forest_count(n.children@)
}

/// How many objects the trees of `ns` make.
pub open spec fn forest_count<T>(ns: Seq<SceneNode<T>>) -> nat
    decreases ns,
{
    if ns.len() == 0 {
        0
    } else {
        forest_count(ns.drop_last()) + node_count(ns.last())
    }
}

/// An object made for a scene node: its entity, its parent, its children and
/// its data.
pub struct Spawned<T> {
    pub entity: Entity,
    pub parent: Option<Entity>,
    pub children: Seq<Entity>,
    pub data: T,
}

/// The entities of the roots of `ns` when their trees are numbered one after
/// the other from `first`.
pub open spec fn roots_of<T>(ns: Seq<SceneNode<T>>, first: nat) -> Seq<Entity>
    decreases ns.len(),
{
    if ns.len() == 0 {
        Seq::empty()
    } else {
        roots_of(ns.drop_last(), first).push(Entity { index: (first + forest_count(ns.drop_last())) as usize })
    }
}

/// The objects made for `n` and its descendants under `parent`, in the order
/// they are made: a node first, then the trees of its children one after the
/// other; entities are numbered from `first`.
pub open spec fn spawned<T>(n: SceneNode<T>, first: nat, parent: Option<Entity>) -> Seq<Spawned<T>>
    decreases n,
{
    let me = Entity { index: first as usize };
    seq![Spawned { entity: me, parent, children: roots_of(n.children@, first + 1), data: n.data }]
        + spawned_forest(n.children@, first + 1, me)
}

/// The objects made for the trees of `ns` under `parent`, numbered from
/// `first`.
pub open spec fn spawned_forest<T>(ns: Seq<SceneNode<T>>, first: nat, parent: Entity) -> Seq<Spawned<T>>
    decreases ns,
{
    if ns.len() == 0 {
        Seq::empty()
    } else {
        spawned_forest(ns.drop_last(), first, parent)
            + spawned(ns.last(), first + forest_count(ns.drop_last()), Some(parent))
    }
}

/// The object made `k`-th gets entity `first + k`, and there is one object per
/// node.
proof fn lemma_spawned_numbering<T>(n: SceneNode<T>, first: nat, parent: Option<Entity>)
    requires
        first + node_count(n) <= usize::MAX,
    ensures
        spawned(n, first, parent).len() == node_count(n),
        forall|k: int| 0 <= k < node_count(n) ==> (#[trigger] spawned(n, first, parent)[k]).entity.index == first + k,
    decreases n,
{
    lemma_spawned_forest_numbering(n.children@, first + 1, Entity { index: first as usize });
}

proof fn lemma_spawned_forest_numbering<T>(ns: Seq<SceneNode<T>>, first: nat, parent: Entity)
    requires
        first + forest_count(ns) <= usize::MAX,
    ensures
        spawned_forest(ns, first, parent).len() == forest_count(ns),
        forall|k: int| 0 <= k < forest_count(ns) ==> (#[trigger] spawned_forest(ns, first, parent)[k]).entity.index == first + k,
    decreases ns,
{
    if ns.len() > 0 {
        let prev = ns.drop_last();
        lemma_spawned_forest_numbering(prev, first, parent);
        lemma_spawned_numbering(ns.last(), first + forest_count(prev), Some(parent));
        let a = spawned_forest(prev, first, parent);
        let b = spawned(ns.last(), first + forest_count(prev), Some(parent));
        assert forall|k: int| 0 <= k < forest_count(ns) implies (#[trigger] spawned_forest(ns, first, parent)[k]).entity.index == first + k by {
            if k < a.len() {
                assert(spawned_forest(ns, first, parent)[k] == a[k]);
            } else {
                assert(spawned_forest(ns, first, parent)[k] == b[k - a.len()]);
            }
        }
    }
}


/// A prefix of a forest makes no more objects than the whole forest.
proof fn lemma_forest_count_prefix<T>(ns: Seq<SceneNode<T>>, i: int)
    requires
        0 <= i <= ns.len(),
    ensures
        forest_count(ns.take(i)) <= forest_count(ns),
    decreases ns.len(),
{
    if i < ns.len() {
        let prev = ns.drop_last();
        lemma_forest_count_prefix(prev, i);
        assert(prev.take(i) =~= ns.take(i));
    } else {
        assert(ns.take(i) =~= ns);
    }
}

/// The entries of a placement list: each new object with its data.
pub open spec fn placed_of<T>(s: Seq<Spawned<T>>) -> Seq<(Entity, T)> {
    s.map_values(|x: Spawned<T>| (x.entity, x.data))
}

/// Every object of `s` stands in `w` as `s` says: alive, with its parent and
/// its children, and with both matrices to be computed.
pub open spec fn spawned_in<M: Ident, T>(w: World<M>, s: Seq<Spawned<T>>) -> bool {
    forall|k: int| 0 <= k < s.len() ==> {
        let x = #[trigger] s[k];
        &&& w.alive(x.entity)
        &&& w.parent(x.entity) == x.parent
        &&& w.children(x.entity) == x.children
        &&& w.global_changed(x.entity)
        &&& w.local_changed(x.entity)
    }
}

/// Every object of `before` is unchanged in `after`, but that `child` was
/// appended to the children of `parent`.
pub open spec fn kept_with_child<M: Ident>(before: World<M>, after: World<M>, parent: Option<Entity>, child: Entity) -> bool {
    forall|e: Entity| #[trigger] before.alive(e) ==> {
        &&& after.alive(e)
        &&& after.parent(e) == before.parent(e)
        &&& after.children(e) == (if parent == Some(e) { before.children(e).push(child) } else { before.children(e) })
        &&& after.local_item(e) == before.local_item(e)
        &&& after.global_item(e) == before.global_item(e)
        &&& after.local_changed(e) == before.local_changed(e)
        &&& after.global_changed(e) == before.global_changed(e)
    }
}

/// When every entity below `bound` has its parent below `bound`, so have all
/// its ancestors.
proof fn lemma_ancestors_below<M: Ident>(w: World<M>, bound: nat, e: Entity, n: nat)
    requires
        forall|x: Entity| x.index < bound && (#[trigger] w.parent(x)) is Some ==> w.parent(x)->0.index < bound,
        e.index < bound,
    ensures
        ancestor_in(w.objects(), e, n) matches Some(a) ==> a.index < bound,
    decreases n,
{
    if n > 0 {
        lemma_ancestors_below(w, bound, e, (n - 1) as nat);
        if let Some(x) = ancestor_in(w.objects(), e, (n - 1) as nat) {
            assert(w.parent(x) == w.objects()[x.index as int].parent);
        }
    }
}

/// Creates an object for `node` under `parent` (at the top for `None`), then
/// the objects of its children under it, tree after tree, and so on down.
/// Each new object is recorded in `placed` with its data, in the order the
/// objects are made; the object made for `node` comes back. Objects that
/// were there before are left as they were, but that the new object joins the
/// children of `parent`.
pub fn spawn_object<M: Ident, T>(
    world: &mut World<M>,
    node: SceneNode<T>,
    parent: Option<Entity>,
    placed: &mut Vec<(Entity, T)>,
) -> (id: Entity)
    requires
        old(world).wf(),
        parent matches Some(p) ==> old(world).alive(p),
        old(world).len() + node_count(node) <= usize::MAX,
    ensures
        final(world).wf(),
        final(world).len() == old(world).len() + node_count(node),
        id == (Entity { index: old(world).len() as usize }),
        final(placed)@ == old(placed)@ + placed_of(spawned(node, old(world).len(), parent)),
        spawned_in(*final(world), spawned(node, old(world).len(), parent)),
        kept_with_child(*old(world), *final(world), parent, id),
    decreases node,
{
    let ghost w0 = *world;
    let ghost l0 = w0.len();
    let id = GameObject::create_empty(world);
    let ghost w1 = *world;
    proof {
        assert forall|e: Entity| #[trigger] w0.alive(e) implies w1.objects()[e.index as int] == w0.objects()[e.index as int]
            && w1.caches()[e.index as int] == w0.caches()[e.index as int] by {
            assert(w1.objects().take(l0 as int)[e.index as int] == w1.objects()[e.index as int]);
            assert(w1.caches().take(l0 as int)[e.index as int] == w1.caches()[e.index as int]);
        }
    }
    let r = TransformHierarchy::set_parent(world, id, parent);
    let ghost w2 = *world;
    proof {
        assert(r is Ok);
        assert forall|x: Entity| x.index < l0 && (#[trigger] w2.parent(x)) is Some implies w2.parent(x)->0.index < l0 by {
            assert(w0.alive(x));
            assert(w1.alive(x));
        }
        assert forall|e: Entity| #[trigger] w0.alive(e) implies !w2.descends_from(e, id) by {
            if w2.descends_from(e, id) {
                let n = choose|n: nat| #[trigger] ancestor_in(w2.objects(), e, n) == Some(id);
                lemma_ancestors_below(w2, l0, e, n);
            }
        }
        assert forall|e: Entity| #[trigger] w0.alive(e) implies {
            &&& w2.alive(e)
            &&& w2.parent(e) == w0.parent(e)
            &&& w2.children(e) == (if parent == Some(e) { w0.children(e).push(id) } else { w0.children(e) })
            &&& w2.local_item(e) == w0.local_item(e)
            &&& w2.global_item(e) == w0.global_item(e)
            &&& w2.local_changed(e) == w0.local_changed(e)
            &&& w2.global_changed(e) == w0.global_changed(e)
        } by {
            assert(w1.alive(e));
            assert(e != id);
        }
        assert(w1.children(id) == Seq::<Entity>::empty());
        if let Some(p) = parent {
            assert(w0.alive(p));
            assert(p != id);
        }
        assert(w2.children(id) =~= Seq::<Entity>::empty());
    }
    let SceneNode { data, children } = node;
    placed.push((id, data));
    let ghost kids = children@;
    let ghost p0 = old(placed)@;
    let ghost root_entry = (id, node.data);
    proof {
        assert(kids == node.children@);
        assert(kids.take(0) =~= Seq::<SceneNode<T>>::empty());
        assert(placed@ =~= p0.push(root_entry) + placed_of(spawned_forest(kids.take(0), l0 + 1, id)));
    }
    for child in it: children.into_iter()
        invariant
            it.seq() == kids,
            kids == node.children@,
            world.wf(),
            l0 == w0.len(),
            l0 + node_count(node) <= usize::MAX,
            id == (Entity { index: l0 as usize }),
            world.len() == l0 + 1 + forest_count(kids.take(it.index())),
            placed@ == p0.push(root_entry) + placed_of(spawned_forest(kids.take(it.index()), l0 + 1, id)),
            world.alive(id),
            world.parent(id) == parent,
            world.children(id) == roots_of(kids.take(it.index()), l0 + 1),
            world.global_changed(id),
            world.local_changed(id),
            spawned_in(*world, spawned_forest(kids.take(it.index()), l0 + 1, id)),
            kept_with_child(w0, *world, parent, id),
            forall|e: Entity| #[trigger] w0.alive(e) ==> e.index < l0,
    {
        let ghost i = it.index();
        let ghost wb = *world;
        let ghost pb = placed@;
        proof {
            assert(kids.take(i + 1).drop_last() =~= kids.take(i));
            assert(kids.take(i + 1).last() == kids[i]);
            lemma_forest_count_prefix(kids, i + 1);
            assert(forest_count(node.children@) + 1 == node_count(node));
            lemma_spawned_forest_numbering(kids.take(i), l0 + 1, id);
        }
        let child_id = spawn_object(world, child, Some(id), placed);
        proof {
            let before = spawned_forest(kids.take(i), l0 + 1, id);
            let mine = spawned(kids[i], wb.len(), Some(id));
            let after = spawned_forest(kids.take(i + 1), l0 + 1, id);
            assert(after == before + mine);
            assert(placed_of(after) =~= placed_of(before) + placed_of(mine));
            assert(placed@ =~= p0.push(root_entry) + placed_of(after));
            assert(roots_of(kids.take(i + 1), l0 + 1) == roots_of(kids.take(i), l0 + 1).push(child_id));
            assert(wb.alive(id));
            assert forall|k: int| 0 <= k < after.len() implies {
                let x = #[trigger] after[k];
                &&& world.alive(x.entity)
                &&& world.parent(x.entity) == x.parent
                &&& world.children(x.entity) == x.children
                &&& world.global_changed(x.entity)
                &&& world.local_changed(x.entity)
            } by {
                if k < before.len() {
                    assert(after[k] == before[k]);
                    assert(before[k].entity.index == l0 + 1 + k);
                    assert(wb.alive(before[k].entity));
                    assert(before[k].entity != id);
                } else {
                    assert(after[k] == mine[k - before.len()]);
                }
            }
            assert forall|e: Entity| #[trigger] w0.alive(e) implies {
                &&& world.alive(e)
                &&& world.parent(e) == w0.parent(e)
                &&& world.children(e) == (if parent == Some(e) { w0.children(e).push(id) } else { w0.children(e) })
                &&& world.local_item(e) == w0.local_item(e)
                &&& world.global_item(e) == w0.global_item(e)
                &&& world.local_changed(e) == w0.local_changed(e)
                &&& world.global_changed(e) == w0.global_changed(e)
            } by {
                assert(wb.alive(e));
                assert(e != id);
            }
        }
    }
    proof {
        assert(kids.take(kids.len() as int) =~= kids);
        let all = spawned(node, l0, parent);
        let forest = spawned_forest(kids, l0 + 1, id);
        assert(all == seq![Spawned { entity: id, parent, children: roots_of(kids, l0 + 1), data: node.data }] + forest);
        assert(placed_of(all) =~= seq![root_entry] + placed_of(forest));
        assert(p0.push(root_entry) + placed_of(forest) =~= p0 + placed_of(all));
        assert forall|k: int| 0 <= k < all.len() implies {
            let x = #[trigger] all[k];
            &&& world.alive(x.entity)
            &&& world.parent(x.entity) == x.parent
            &&& world.children(x.entity) == x.children
            &&& world.global_changed(x.entity)
            &&& world.local_changed(x.entity)
        } by {
            if k > 0 {
                assert(all[k] == forest[k - 1]);
            }
        }
    }
    id
}

} // verus!
