//! Command groups kept by depth: for each depth ("z order"), the groups in the
//! order in which they were pushed or last maintained.  Presenting draws the
//! groups layer by layer, from the lowest depth up, and drops the groups that
//! asked to be maintained but were not.

use vstd::prelude::*;
use std::collections::{BTreeMap, HashMap};
use linked_hash_map::LinkedHashMap;
use vstd::std_specs::iter::IteratorSpec;
use vstd::pervasive::arbitrary;
use vstd::std_specs::cmp::OrdSpec;
use crate::display::CommandGroupHandle;
use crate::linked::{GroupFlags, has_key, key_index, keys_distinct, layer_entries, layer_get, layer_get_refresh, layer_insert, layer_new, layer_remove, layer_set, layer_to_vec, lemma_key_index, value_of, without_key};

verus! {

broadcast use {
    vstd::std_specs::btree::group_btree_axioms,
    vstd::std_specs::hash::group_hash_axioms,
    vstd::laws_cmp::group_laws_cmp,
};

/// A command group as the list holds it.
pub struct Group<C> {
    /// The commands of the group.
    pub commands: C,
    /// Whether the group is drawn between a save and a restore.
    pub protected: bool,
    /// `None` for a group that needs no maintenance; otherwise whether it
    /// was pushed or maintained since the last presentation.
    pub maintained: Option<bool>,
}

/// What a command list holds: the layers by depth, and the depth recorded
/// for each command-group id.
pub struct ListModel<C> {
    pub layers: Map<i32, Seq<(u64, Group<C>)>>,
    pub lookup: Map<u64, i32>,
}

/// The maintenance state after a group is maintained.
pub open spec fn refreshed(maintained: Option<bool>) -> Option<bool> {
    match maintained {
        Some(_) => Some(true),
        None => None,
    }
}

/// Strictly increasing.
pub open spec fn increasing(zs: Seq<i32>) -> bool {
    forall|i: int, j: int| 0 <= i < j < zs.len() ==> zs[i] < zs[j]
}

/// The depths of `dom` from the lowest to the highest.
pub open spec fn layer_order(dom: Set<i32>) -> Seq<i32> {
    choose|zs: Seq<i32>| increasing(zs) && zs.to_set() == dom
}

/// The layers of `zs`, one after the other.
pub open spec fn concat_layers<X>(zs: Seq<i32>, layers: Map<i32, Seq<X>>) -> Seq<X>
    decreases zs.len(),
{
    if zs.len() == 0 {
        Seq::empty()
    } else {
        concat_layers(zs.drop_last(), layers) + layers[zs.last()]
    }
}

impl<C> ListModel<C> {
    /// Layers hold each id at most once, and there are finitely many.
    pub open spec fn wf(self) -> bool {
        &&& self.layers.dom().finite()
        &&& forall|z: i32| #[trigger] self.layers.contains_key(z) ==> keys_distinct(self.layers[z])
    }

    /// The layer at depth `z`, empty if there is none.
    pub open spec fn layer(self, z: i32) -> Seq<(u64, Group<C>)> {
        if self.layers.contains_key(z) {
            self.layers[z]
        } else {
            Seq::empty()
        }
    }

    /// The group of `id` can be found: its depth is recorded, and the layer
    /// at that depth holds it.
    pub open spec fn reaches(self, id: u64) -> bool {
        &&& self.lookup.contains_key(id)
        &&& self.layers.contains_key(self.lookup[id])
        &&& has_key(self.layers[self.lookup[id]], id)
    }

    /// The group of `id` (meaningful where `reaches(id)`).
    pub open spec fn group(self, id: u64) -> Group<C> {
        value_of(self.layers[self.lookup[id]], id)
    }

    /// After pushing group `g` with `id` at depth `z`: it replaces any group
    /// of that id in the layer and stands last in it.
    pub open spec fn pushed(self, id: u64, z: i32, g: Group<C>) -> Self {
        ListModel {
            layers: self.layers.insert(z, without_key(self.layer(z), id).push((id, g))),
            lookup: self.lookup.insert(id, z),
        }
    }

    /// After removing `id`: its recorded depth is forgotten, and its group
    /// leaves the layer at that depth.
    pub open spec fn removed(self, id: u64) -> Self {
        if self.lookup.contains_key(id) {
            let z = self.lookup[id];
            ListModel {
                layers: if self.layers.contains_key(z) {
                    self.layers.insert(z, without_key(self.layers[z], id))
                } else {
                    self.layers
                },
                lookup: self.lookup.remove(id),
            }
        } else {
            self
        }
    }

    /// After maintaining `id`: its group moves last in its layer, and is
    /// marked as maintained if it needs maintenance.
    pub open spec fn maintained(self, id: u64) -> Self {
        if self.reaches(id) {
            let z = self.lookup[id];
            let g = self.group(id);
            ListModel {
                layers: self.layers.insert(
                    z,
                    without_key(self.layers[z], id).push(
                        (id, Group { commands: g.commands, protected: g.protected, maintained: refreshed(g.maintained) }),
                    ),
                ),
                lookup: self.lookup,
            }
        } else {
            self
        }
    }

    /// Settling `mark` after a presentation would fail: the group should be
    /// marked as not maintained, its depth is recorded and that layer
    /// exists, but the layer does not hold it.
    pub open spec fn settle_blocked(self, mark: (bool, u64)) -> bool {
        &&& mark.0
        &&& self.lookup.contains_key(mark.1)
        &&& self.layers.contains_key(self.lookup[mark.1])
        &&& !has_key(self.layers[self.lookup[mark.1]], mark.1)
    }

    /// After settling `mark = (ok, id)` at the layer recorded for `id`: a
    /// group that was maintained (`ok`) is marked as not maintained since;
    /// otherwise it is dropped.
    pub open spec fn settle_step(self, mark: (bool, u64)) -> Self {
        let id = mark.1;
        if self.lookup.contains_key(id) && self.layers.contains_key(self.lookup[id]) {
            let z = self.lookup[id];
            let l = self.layers[z];
            if mark.0 {
                let g = value_of(l, id);
                ListModel {
                    layers: self.layers.insert(
                        z,
                        l.update(key_index(l, id), (id, Group { commands: g.commands, protected: g.protected, maintained: Some(false) })),
                    ),
                    lookup: self.lookup,
                }
            } else {
                ListModel { layers: self.layers.insert(z, without_key(l, id)), lookup: self.lookup }
            }
        } else {
            self
        }
    }

    /// After settling the marks one after the other.
    pub open spec fn settled(self, marks: Seq<(bool, u64)>) -> Self
        decreases marks.len(),
    {
        if marks.len() == 0 {
            self
        } else {
            self.settled(marks.drop_last()).settle_step(marks.last())
        }
    }

    /// No mark fails when the marks are settled one after the other.
    pub open spec fn settles(self, marks: Seq<(bool, u64)>) -> bool
        decreases marks.len(),
    {
        marks.len() == 0 || (self.settles(marks.drop_last()) && !self.settled(marks.drop_last()).settle_blocked(
            marks.last(),
        ))
    }

    /// All groups, layer by layer from the lowest depth up.
    pub open spec fn flat(self) -> Seq<(u64, Group<C>)> {
        concat_layers(layer_order(self.layers.dom()), self.layers)
    }

    /// Every group in a layer has that layer's depth recorded for its id;
    /// so an id is in at most one layer.
    pub open spec fn consistent(self) -> bool {
        forall|z: i32, k: u64| #[trigger] self.layers.contains_key(z) && #[trigger] has_key(self.layers[z], k)
            ==> self.lookup.contains_key(k) && self.lookup[k] == z
    }
}

// ---- sequences of increasing depths

proof fn lemma_increasing_unique(xs: Seq<i32>, ys: Seq<i32>)
    requires
        increasing(xs),
        increasing(ys),
        xs.to_set() == ys.to_set(),
    ensures
        xs == ys,
    decreases xs.len(),
{
    if xs.len() == 0 {
        if ys.len() > 0 {
            assert(ys.to_set().contains(ys[0]));
        }
        assert(xs =~= ys);
    } else {
        let a = xs.last();
        assert(xs.to_set().contains(a));
        assert(ys.to_set().contains(a));
        assert(ys.len() > 0);
        let b = ys.last();
        assert(ys.to_set().contains(b));
        assert(xs.to_set().contains(b));
        let i = choose|i: int| 0 <= i < xs.len() && xs[i] == b;
        let j = choose|j: int| 0 <= j < ys.len() && ys[j] == a;
        assert(b <= a) by {
            if i < xs.len() - 1 {
                assert(xs[i] < xs[xs.len() - 1]);
            }
        }
        assert(a <= b) by {
            if j < ys.len() - 1 {
                assert(ys[j] < ys[ys.len() - 1]);
            }
        }
        let xd = xs.drop_last();
        let yd = ys.drop_last();
        assert forall|z: i32| xd.to_set().contains(z) implies yd.to_set().contains(z) by {
            let k = choose|k: int| 0 <= k < xd.len() && xd[k] == z;
            assert(xs[k] < a);
            assert(xs.to_set().contains(z));
            let l = choose|l: int| 0 <= l < ys.len() && ys[l] == z;
            assert(l != ys.len() - 1);
            assert(yd[l] == z);
        }
        assert forall|z: i32| yd.to_set().contains(z) implies xd.to_set().contains(z) by {
            let k = choose|k: int| 0 <= k < yd.len() && yd[k] == z;
            assert(ys[k] < b);
            assert(ys.to_set().contains(z));
            let l = choose|l: int| 0 <= l < xs.len() && xs[l] == z;
            assert(l != xs.len() - 1);
            assert(xd[l] == z);
        }
        assert(xd.to_set() =~= yd.to_set());
        lemma_increasing_unique(xd, yd);
        assert(xs =~= xd.push(a));
        assert(ys =~= yd.push(b));
    }
}

/// The depths in increasing order are the unique such sequence.
proof fn lemma_layer_order(zs: Seq<i32>, dom: Set<i32>)
    requires
        increasing(zs),
        zs.to_set() == dom,
    ensures
        layer_order(dom) == zs,
{
    let o = layer_order(dom);
    assert(increasing(o) && o.to_set() == dom);
    lemma_increasing_unique(o, zs);
}

/// The keys of a `BTreeMap` come out in increasing order.
proof fn lemma_increasing_keys(g: Seq<&i32>)
    requires
        vstd::std_specs::btree::increasing_seq(g),
    ensures
        increasing(g.unref()),
{
    assert(vstd::laws_cmp::obeys_cmp::<i32>());
    assert(vstd::laws_cmp::obeys_cmp::<&i32>());
    vstd::std_specs::btree::axiom_increasing_seq_meaning::<&i32>(g);
    assert forall|i: int, j: int| 0 <= i < j < g.len() implies g.unref()[i] < g.unref()[j] by {
        assert(OrdSpec::cmp_spec(&g[i], &g[j]) is Less);
    }
}

// ---- keyed sequences

proof fn lemma_without_key<V>(s: Seq<(u64, V)>, k: u64)
    requires
        keys_distinct(s),
    ensures
        keys_distinct(without_key(s, k)),
        !has_key(without_key(s, k), k),
        forall|j: u64| j != k ==> (has_key(without_key(s, k), j) <==> has_key(s, j)),
        forall|j: u64| j != k && has_key(s, j) ==> value_of(without_key(s, k), j) == value_of(s, j),
        without_key(s, k).len() == (if has_key(s, k) { s.len() - 1 } else { s.len() as int }),
{
    if has_key(s, k) {
        let i = key_index(s, k);
        let w = s.remove(i);
        assert(w == without_key(s, k));
        assert forall|a: int, b: int| 0 <= a < b < w.len() implies #[trigger] w[a].0 != #[trigger] w[b].0 by {
            let a2 = if a < i { a } else { a + 1 };
            let b2 = if b < i { b } else { b + 1 };
            assert(w[a] == s[a2] && w[b] == s[b2]);
            assert(s[a2].0 != s[b2].0);
        }
        if has_key(w, k) {
            let a = key_index(w, k);
            let a2 = if a < i { a } else { a + 1 };
            assert(w[a] == s[a2]);
            lemma_key_index(s, a2);
        }
        assert forall|j: u64| j != k implies (has_key(w, j) <==> has_key(s, j)) by {
            if has_key(s, j) {
                let b = key_index(s, j);
                assert(b != i);
                let b1 = if b < i { b } else { b - 1 };
                assert(w[b1] == s[b]);
            }
            if has_key(w, j) {
                let a = key_index(w, j);
                let a2 = if a < i { a } else { a + 1 };
                assert(w[a] == s[a2]);
            }
        }
        assert forall|j: u64| j != k && has_key(s, j) implies value_of(w, j) == value_of(s, j) by {
            let b = key_index(s, j);
            let b1 = if b < i { b } else { b - 1 };
            assert(w[b1] == s[b]);
            lemma_key_index(w, b1);
        }
    }
}

proof fn lemma_push_key<V>(s: Seq<(u64, V)>, k: u64, v: V)
    requires
        keys_distinct(s),
        !has_key(s, k),
    ensures
        keys_distinct(s.push((k, v))),
        has_key(s.push((k, v)), k),
        value_of(s.push((k, v)), k) == v,
        key_index(s.push((k, v)), k) == s.len(),
        forall|j: u64| j != k ==> (has_key(s.push((k, v)), j) <==> has_key(s, j)),
        forall|j: u64| j != k && has_key(s, j) ==> value_of(s.push((k, v)), j) == value_of(s, j),
{
    let p = s.push((k, v));
    assert forall|a: int, b: int| 0 <= a < b < p.len() implies #[trigger] p[a].0 != #[trigger] p[b].0 by {
        if b == s.len() {
            assert(s[a].0 != k);
        } else {
            assert(s[a].0 != s[b].0);
        }
    }
    lemma_key_index(p, s.len() as int);
    assert forall|j: u64| j != k implies (has_key(p, j) <==> has_key(s, j)) by {
        if has_key(s, j) {
            let b = key_index(s, j);
            assert(p[b] == s[b]);
        }
    }
    assert forall|j: u64| j != k && has_key(s, j) implies value_of(p, j) == value_of(s, j) by {
        let b = key_index(s, j);
        assert(p[b] == s[b]);
        lemma_key_index(p, b);
        lemma_key_index(s, b);
    }
}

// ---- the layers seen through their payloads

/// A layer of flags seen with the commands stored for it.
spec fn layer_view<C>(z: i32, f: Seq<(u64, GroupFlags)>, c: Map<(i32, u64), C>) -> Seq<(u64, Group<C>)> {
    f.map_values(|e: (u64, GroupFlags)| (e.0, Group { commands: c[(z, e.0)], protected: e.1.0, maintained: e.1.1 }))
}

/// A layer's commands are all stored.
spec fn layer_stored<C>(z: i32, f: Seq<(u64, GroupFlags)>, c: Map<(i32, u64), C>) -> bool {
    forall|i: int| 0 <= i < f.len() ==> #[trigger] c.contains_key((z, f[i].0))
}

proof fn lemma_stored_keys<C>(z: i32, f: Seq<(u64, GroupFlags)>, c: Map<(i32, u64), C>)
    ensures
        layer_stored(z, f, c) <==> forall|k: u64| #[trigger] has_key(f, k) ==> c.contains_key((z, k)),
{
    if layer_stored(z, f, c) {
        assert forall|k: u64| #[trigger] has_key(f, k) implies c.contains_key((z, k)) by {
            let i = key_index(f, k);
            assert(c.contains_key((z, f[i].0)));
        }
    }
    if forall|k: u64| #[trigger] has_key(f, k) ==> c.contains_key((z, k)) {
        assert forall|i: int| 0 <= i < f.len() implies #[trigger] c.contains_key((z, f[i].0)) by {
            assert(has_key(f, f[i].0));
        }
    }
}

proof fn lemma_view_keys<C>(z: i32, f: Seq<(u64, GroupFlags)>, c: Map<(i32, u64), C>)
    ensures
        forall|k: u64| has_key(layer_view(z, f, c), k) <==> #[trigger] has_key(f, k),
        keys_distinct(f) <==> keys_distinct(layer_view(z, f, c)),
        keys_distinct(f) ==> forall|k: u64| #[trigger] has_key(f, k) ==> key_index(layer_view(z, f, c), k)
            == key_index(f, k) && value_of(layer_view(z, f, c), k) == (Group {
            commands: c[(z, k)],
            protected: value_of(f, k).0,
            maintained: value_of(f, k).1,
        }),
{
    let v = layer_view(z, f, c);
    assert forall|k: u64| has_key(v, k) <==> #[trigger] has_key(f, k) by {
        if has_key(f, k) {
            let i = key_index(f, k);
            assert(v[i].0 == k);
        }
        if has_key(v, k) {
            let i = key_index(v, k);
            assert(f[i].0 == k);
        }
    }
    if keys_distinct(f) {
        assert forall|a: int, b: int| 0 <= a < b < v.len() implies #[trigger] v[a].0 != #[trigger] v[b].0 by {
            assert(f[a].0 != f[b].0);
        }
        assert forall|k: u64| #[trigger] has_key(f, k) implies key_index(v, k) == key_index(f, k) && value_of(v, k)
            == (Group { commands: c[(z, k)], protected: value_of(f, k).0, maintained: value_of(f, k).1 }) by {
            let i = key_index(f, k);
            lemma_key_index(f, i);
            lemma_key_index(v, i);
        }
    }
    if keys_distinct(v) {
        assert forall|a: int, b: int| 0 <= a < b < f.len() implies #[trigger] f[a].0 != #[trigger] f[b].0 by {
            assert(v[a].0 != v[b].0);
        }
    }
}

proof fn lemma_view_without<C>(z: i32, f: Seq<(u64, GroupFlags)>, c: Map<(i32, u64), C>, k: u64)
    requires
        keys_distinct(f),
    ensures
        layer_view(z, without_key(f, k), c) == without_key(layer_view(z, f, c), k),
{
    lemma_view_keys(z, f, c);
    if has_key(f, k) {
        assert(layer_view(z, without_key(f, k), c) =~= without_key(layer_view(z, f, c), k));
    }
}

proof fn lemma_view_frame<C>(z: i32, f: Seq<(u64, GroupFlags)>, c1: Map<(i32, u64), C>, c2: Map<(i32, u64), C>)
    requires
        forall|i: int| 0 <= i < f.len() ==> #[trigger] c1.contains_key((z, f[i].0)) ==> c2.contains_key((z, f[i].0))
            && c1[(z, f[i].0)] == c2[(z, f[i].0)],
        layer_stored(z, f, c1),
    ensures
        layer_view(z, f, c1) == layer_view(z, f, c2),
        layer_stored(z, f, c2),
{
    assert forall|i: int| 0 <= i < f.len() implies c2.contains_key((z, f[i].0)) && c1[(z, f[i].0)] == c2[(z, f[i].0)] by {
        assert(c1.contains_key((z, f[i].0)));
    }
    assert(layer_view(z, f, c1) =~= layer_view(z, f, c2));
}

/// Of the first `n` groups of `f`, where `vis` says which are visible, the
/// positions of those that are drawn: visible, and not waiting to be
/// dropped.
pub open spec fn frame_draws<C>(f: Seq<(u64, Group<C>)>, vis: Seq<bool>, n: int) -> Seq<int>
    decreases n,
{
    if n <= 0 {
        Seq::empty()
    } else {
        let prev = frame_draws(f, vis, n - 1);
        if vis[n - 1] && f[n - 1].1.maintained != Some(false) {
            prev.push(n - 1)
        } else {
            prev
        }
    }
}

/// Of the first `n` groups of `f`, where `vis` says which are visible, the
/// marks to settle after the presentation: for each visible group that
/// needs maintenance, whether it was maintained, and its id.
pub open spec fn frame_marks<C>(f: Seq<(u64, Group<C>)>, vis: Seq<bool>, n: int) -> Seq<(bool, u64)>
    decreases n,
{
    if n <= 0 {
        Seq::empty()
    } else {
        let prev = frame_marks(f, vis, n - 1);
        if vis[n - 1] && f[n - 1].1.maintained is Some {
            prev.push((f[n - 1].1.maintained == Some(true), f[n - 1].0))
        } else {
            prev
        }
    }
}

proof fn lemma_settles_prefix<C>(m: ListModel<C>, marks: Seq<(bool, u64)>, n: int)
    requires
        m.settles(marks),
        0 <= n <= marks.len(),
    ensures
        m.settles(marks.take(n)),
    decreases marks.len(),
{
    if n == marks.len() {
        assert(marks.take(n) =~= marks);
    } else {
        lemma_settles_prefix(m, marks.drop_last(), n);
        assert(marks.drop_last().take(n) =~= marks.take(n));
    }
}

/// `r` lists the groups of `s`: id, commands, protected flag and
/// maintenance state, in the same order.
pub open spec fn lists<C>(r: Seq<(u64, &C, bool, Option<bool>)>, s: Seq<(u64, Group<C>)>) -> bool {
    &&& r.len() == s.len()
    &&& forall|i: int| 0 <= i < r.len() ==> {
        &&& (#[trigger] r[i]).0 == s[i].0
        &&& *r[i].1 == s[i].1.commands
        &&& r[i].2 == s[i].1.protected
        &&& r[i].3 == s[i].1.maintained
    }
}

/// The command list of the parts.
spec fn parts_model<C>(
    groups: Map<i32, LinkedHashMap<u64, GroupFlags>>,
    lookup: Map<u64, i32>,
    commands: Map<(i32, u64), C>,
) -> ListModel<C> {
    ListModel {
        layers: Map::new(|z: i32| groups.contains_key(z), |z: i32| layer_view(z, layer_entries(groups[z]), commands)),
        lookup,
    }
}

/// The parts hold distinct ids per layer, and every group's commands.
spec fn parts_wf<C>(groups: Map<i32, LinkedHashMap<u64, GroupFlags>>, commands: Map<(i32, u64), C>) -> bool {
    &&& groups.dom().finite()
    &&& forall|z: i32| #[trigger] groups.contains_key(z) ==> keys_distinct(layer_entries(groups[z]))
            && layer_stored(z, layer_entries(groups[z]), commands)
}

/// Command groups kept by depth, each depth in the order in which its groups
/// were pushed or last maintained.
pub struct CommandList<C> {
    command_groups: BTreeMap<i32, LinkedHashMap<u64, GroupFlags>>,
    z_lookup: HashMap<u64, i32>,
    commands: BTreeMap<(i32, u64), C>,
}

impl<C> View for CommandList<C> {
    type V = ListModel<C>;

    closed spec fn view(&self) -> ListModel<C> {
        parts_model(self.command_groups@, self.z_lookup@, self.commands@)
    }
}

impl<C> Default for CommandList<C> {
    /// An empty list.
    fn default() -> (l: Self)
        ensures
            l@.layers == Map::<i32, Seq<(u64, Group<C>)>>::empty(),
            l@.lookup == Map::<u64, i32>::empty(),
            l@.wf(),
            l@.consistent(),
    {
        let l = CommandList { command_groups: BTreeMap::new(), z_lookup: HashMap::new(), commands: BTreeMap::new() };
        assert(l@.layers =~= Map::<i32, Seq<(u64, Group<C>)>>::empty());
        assert(l@.lookup =~= Map::<u64, i32>::empty());
        l
    }
}

impl<C> CommandList<C> {
    #[verifier::type_invariant]
    closed spec fn inv(self) -> bool {
        &&& parts_wf(self.command_groups@, self.commands@)
        &&& parts_model(self.command_groups@, self.z_lookup@, self.commands@).consistent()
    }

    proof fn lemma_wf(self)
        requires
            self.inv(),
        ensures
            self@.wf(),
    {
        let m = self@;
        assert(m.layers.dom() =~= self.command_groups@.dom());
        assert forall|z: i32| #[trigger] m.layers.contains_key(z) implies keys_distinct(m.layers[z]) by {
            lemma_view_keys(z, layer_entries(self.command_groups@[z]), self.commands@);
        }
    }

    /// Pushes `commands` as the group of `handle` at depth `z_order`: an
    /// older group of the same id is removed first, wherever it stands; the
    /// new group stands last in its layer, and `z_order` is recorded for the
    /// id.  `protected` defaults to true; a group pushed with
    /// `needs_maintain` (default true) starts as maintained, otherwise it
    /// needs no maintenance.
    pub fn push(
        &mut self,
        commands: C,
        z_order: i32,
        protected: Option<bool>,
        needs_maintain: Option<bool>,
        handle: CommandGroupHandle,
    )
        ensures
            final(self)@ == old(self)@.removed(handle.spec_id()).pushed(
                handle.spec_id(),
                z_order,
                Group {
                    commands,
                    protected: protected.unwrap_or(true),
                    maintained: if needs_maintain.unwrap_or(true) { Some(true) } else { None },
                },
            ),
            final(self)@.wf(),
            final(self)@.consistent(),
    {
        self.remove(handle);
        self.insert_group(commands, z_order, protected, needs_maintain, handle);
    }

    /// Adds the group of `handle`, whose id has no recorded depth, at depth
    /// `z_order`.
    fn insert_group(
        &mut self,
        commands: C,
        z_order: i32,
        protected: Option<bool>,
        needs_maintain: Option<bool>,
        handle: CommandGroupHandle,
    )
        requires
            !old(self)@.lookup.contains_key(handle.spec_id()),
        ensures
            final(self)@ == old(self)@.pushed(
                handle.spec_id(),
                z_order,
                Group {
                    commands,
                    protected: protected.unwrap_or(true),
                    maintained: if needs_maintain.unwrap_or(true) { Some(true) } else { None },
                },
            ),
            final(self)@.wf(),
            final(self)@.consistent(),
    {
        let (mut groups, mut lookup, mut cmds) = self.take_parts();
        let id = handle.id();
        let ghost g0 = groups@;
        let ghost c0 = cmds@;
        let mut layer = match groups.remove(&z_order) {
            Some(l) => l,
            None => layer_new(),
        };
        let ghost f0 = layer_entries(layer);
        let maintained = if needs_maintain.unwrap_or(true) { Some(true) } else { None };
        let flags: GroupFlags = (protected.unwrap_or(true), maintained);
        layer_insert(&mut layer, id, flags);
        groups.insert(z_order, layer);
        cmds.insert((z_order, id), commands);
        lookup.insert(id, z_order);
        proof {
            let g = Group { commands, protected: protected.unwrap_or(true), maintained };
            let old_m = parts_model(g0, old(self)@.lookup, c0);
            let new_m = parts_model(groups@, lookup@, cmds@);
            assert(groups@ == g0.insert(z_order, layer));
            assert(cmds@ == c0.insert((z_order, id), commands));
            assert(keys_distinct(f0));
            lemma_without_key(f0, id);
            let w = without_key(f0, id);
            // the pushed layer
            lemma_stored_keys(z_order, f0, c0);
            assert forall|k: u64| #[trigger] has_key(w, k) implies c0.contains_key((z_order, k)) && cmds@.contains_key((z_order, k))
                && c0[(z_order, k)] == cmds@[(z_order, k)] by {
                assert(k != id);
            }
            lemma_stored_keys(z_order, w, c0);
            lemma_view_frame(z_order, w, c0, cmds@);
            lemma_view_without(z_order, f0, c0, id);
            assert(old_m.layer(z_order) == layer_view(z_order, f0, c0)) by {
                if !g0.contains_key(z_order) {
                    assert(layer_view(z_order, f0, c0) =~= Seq::<(u64, Group<C>)>::empty());
                }
            }
            assert(layer_view(z_order, layer_entries(layer), cmds@) =~= layer_view(z_order, w, cmds@).push((id, g)));
            lemma_push_key(w, id, flags);
            lemma_stored_keys(z_order, w, cmds@);
            lemma_stored_keys(z_order, layer_entries(layer), cmds@);
            // the other layers
            assert forall|z: i32| #[trigger] groups@.contains_key(z) && z != z_order implies layer_stored(z, layer_entries(groups@[z]), cmds@)
                && layer_view(z, layer_entries(groups@[z]), cmds@) == layer_view(z, layer_entries(g0[z]), c0) by {
                lemma_view_frame(z, layer_entries(g0[z]), c0, cmds@);
            }
            assert(new_m.layers =~= old_m.pushed(id, z_order, g).layers);
            assert(new_m.lookup =~= old_m.pushed(id, z_order, g).lookup);
            lemma_operations_keep_consistency(old(self)@, id, z_order, g);
        }
        self.put_parts(groups, lookup, cmds);
    }

    /// The commands of the group of `handle`, where it can be found.
    pub fn get(&self, handle: CommandGroupHandle) -> (r: Option<&C>)
        ensures
            self@.reaches(handle.spec_id()) ==> r == Some(&self@.group(handle.spec_id()).commands),
            !self@.reaches(handle.spec_id()) ==> r is None,
    {
        proof {
            use_type_invariant(self);
        }
        let id = handle.id();
        match self.z_lookup.get(&id) {
            Some(z) => match self.command_groups.get(z) {
                Some(layer) => {
                    proof {
                        lemma_view_keys(*z, layer_entries(*layer), self.commands@);
                        lemma_stored_keys(*z, layer_entries(*layer), self.commands@);
                    }
                    match layer_get(layer, id) {
                        Some(_) => self.commands.get(&(*z, id)),
                        None => None,
                    }
                },
                None => None,
            },
            None => None,
        }
    }

    /// Removes the group of `handle`: its recorded depth is forgotten, and
    /// its group leaves the layer at that depth.  Returns its commands if it
    /// could be found.
    pub fn remove(&mut self, handle: CommandGroupHandle) -> (r: Option<C>)
        ensures
            final(self)@ == old(self)@.removed(handle.spec_id()),
            final(self)@.wf(),
            final(self)@.consistent(),
            old(self)@.reaches(handle.spec_id()) ==> r == Some(old(self)@.group(handle.spec_id()).commands),
            !old(self)@.reaches(handle.spec_id()) ==> r is None,
    {
        let (mut groups, mut lookup, mut cmds) = self.take_parts();
        let id = handle.id();
        let ghost g0 = groups@;
        let ghost c0 = cmds@;
        let r = match lookup.remove(&id) {
            Some(z) => match groups.remove(&z) {
                Some(mut layer) => {
                    let ghost f0 = layer_entries(layer);
                    proof {
                        assert(keys_distinct(f0));
                        lemma_view_keys(z, f0, c0);
                        lemma_stored_keys(z, f0, c0);
                        lemma_without_key(f0, id);
                        lemma_view_without(z, f0, c0, id);
                    }
                    let removed = layer_remove(&mut layer, id);
                    groups.insert(z, layer);
                    let r = match removed {
                        Some(_) => cmds.remove(&(z, id)),
                        None => None,
                    };
                    proof {
                        let w = without_key(f0, id);
                        assert(groups@ == g0.insert(z, layer));
                        assert forall|k: u64| #[trigger] has_key(w, k) implies c0.contains_key((z, k)) && cmds@.contains_key((z, k))
                            && c0[(z, k)] == cmds@[(z, k)] by {
                            assert(k != id);
                        }
                        lemma_stored_keys(z, w, c0);
                        lemma_view_frame(z, w, c0, cmds@);
                        assert forall|y: i32| #[trigger] groups@.contains_key(y) && y != z implies layer_stored(y, layer_entries(groups@[y]), cmds@)
                            && layer_view(y, layer_entries(groups@[y]), cmds@) == layer_view(y, layer_entries(g0[y]), c0) by {
                            lemma_view_frame(y, layer_entries(g0[y]), c0, cmds@);
                        }
                        assert(parts_model(groups@, lookup@, cmds@).layers =~= old(self)@.removed(id).layers);
                    }
                    r
                },
                None => {
                    proof {
                        assert(parts_model(groups@, lookup@, cmds@).layers =~= old(self)@.removed(id).layers);
                    }
                    None
                },
            },
            None => {
                proof {
                    assert(parts_model(groups@, lookup@, cmds@).layers =~= old(self)@.removed(id).layers);
                }
                None
            },
        };
        proof {
            assert(parts_model(groups@, lookup@, cmds@).lookup =~= old(self)@.removed(id).lookup);
            lemma_operations_keep_consistency(old(self)@, id, 0, arbitrary());
        }
        self.put_parts(groups, lookup, cmds);
        r
    }

    /// Maintains the group of `handle`, if it can be found: it moves last
    /// in its layer, and is marked as maintained if it needs maintenance.
    pub fn maintain(&mut self, handle: CommandGroupHandle)
        ensures
            final(self)@ == old(self)@.maintained(handle.spec_id()),
            final(self)@.wf(),
            final(self)@.consistent(),
    {
        let (mut groups, lookup, cmds) = self.take_parts();
        let id = handle.id();
        let ghost g0 = groups@;
        match lookup.get(&id) {
            Some(z) => {
                let z = *z;
                match groups.remove(&z) {
                    Some(mut layer) => {
                        let ghost f0 = layer_entries(layer);
                        proof {
                            assert(keys_distinct(f0));
                            lemma_view_keys(z, f0, cmds@);
                            lemma_stored_keys(z, f0, cmds@);
                            lemma_without_key(f0, id);
                            lemma_view_without(z, f0, cmds@, id);
                        }
                        match layer_get_refresh(&mut layer, id) {
                            Some(flags) => {
                                let maintained = match flags.1 {
                                    Some(_) => Some(true),
                                    None => None,
                                };
                                proof {
                                    lemma_push_key(without_key(f0, id), id, flags);
                                }
                                layer_set(&mut layer, id, (flags.0, maintained));
                                proof {
                                    let w = without_key(f0, id);
                                    assert(layer_entries(layer) =~= w.push((id, (flags.0, maintained))));
                                    lemma_push_key(w, id, (flags.0, maintained));
                                    lemma_stored_keys(z, w, cmds@);
                                    lemma_stored_keys(z, layer_entries(layer), cmds@);
                                    assert(layer_view(z, layer_entries(layer), cmds@) =~= layer_view(z, w, cmds@).push(
                                        (id, Group { commands: cmds@[(z, id)], protected: flags.0, maintained }),
                                    ));
                                }
                            },
                            None => {},
                        }
                        groups.insert(z, layer);
                        proof {
                            assert(groups@ == g0.insert(z, layer));
                            assert(parts_model(groups@, lookup@, cmds@).layers =~= old(self)@.maintained(id).layers);
                        }
                    },
                    None => {
                        proof {
                            assert(groups@ =~= g0);
                            assert(parts_model(groups@, lookup@, cmds@).layers =~= old(self)@.maintained(id).layers);
                        }
                    },
                }
            },
            None => {
                proof {
                    assert(parts_model(groups@, lookup@, cmds@).layers =~= old(self)@.maintained(id).layers);
                }
            },
        }
        proof {
            lemma_operations_keep_consistency(old(self)@, id, 0, arbitrary());
        }
        self.put_parts(groups, lookup, cmds);
    }

    /// Replaces the group of `handle` by `commands` at depth `z_order`: the
    /// old group is removed and the new one pushed.
    pub fn modify(
        &mut self,
        handle: CommandGroupHandle,
        commands: C,
        z_order: i32,
        protected: Option<bool>,
        needs_maintain: Option<bool>,
    )
        ensures
            final(self)@ == old(self)@.removed(handle.spec_id()).pushed(
                handle.spec_id(),
                z_order,
                Group {
                    commands,
                    protected: protected.unwrap_or(true),
                    maintained: if needs_maintain.unwrap_or(true) { Some(true) } else { None },
                },
            ),
            final(self)@.wf(),
            final(self)@.consistent(),
    {
        self.push(commands, z_order, protected, needs_maintain, handle);
    }

    /// All groups, layer by layer from the lowest depth up, each layer in
    /// the order in which its groups were pushed or last maintained.
    pub fn flattened(&self) -> (r: Vec<(u64, &C, bool, Option<bool>)>)
        ensures
            lists(r@, self@.flat()),
            self@.wf(),
            self@.consistent(),
    {
        proof {
            use_type_invariant(self);
            self.lemma_wf();
        }
        let ghost m = self@;
        let ghost g = vstd::std_specs::btree::spec_keys_iter(&self.command_groups).remaining();
        let ghost zs = g.unref();
        proof {
            lemma_increasing_keys(g);
            assert(m.layers.dom() =~= self.command_groups@.dom());
            lemma_layer_order(zs, m.layers.dom());
        }
        let mut r: Vec<(u64, &C, bool, Option<bool>)> = Vec::new();
        for z in it: self.command_groups.keys()
            invariant
                it.seq() == g,
                zs == g.unref(),
                zs.to_set() == self.command_groups@.dom(),
                m == self@,
                parts_wf(self.command_groups@, self.commands@),
                lists(r@, concat_layers(zs.take(it.index()), m.layers)),
        {
            let ghost k = it.index();
            let ghost before = concat_layers(zs.take(k), m.layers);
            proof {
                assert(zs[k] == *z);
                assert(zs.to_set().contains(zs[k]));
            }
            match self.command_groups.get(z) {
                Some(layer) => {
                    let entries = layer_to_vec(layer);
                    let ghost lv = m.layers[*z];
                    proof {
                        assert(lv == layer_view(*z, entries@, self.commands@));
                        lemma_stored_keys(*z, entries@, self.commands@);
                    }
                    let mut j: usize = 0;
                    while j < entries.len()
                        invariant
                            0 <= j <= entries.len(),
                            lv == layer_view(*z, entries@, self.commands@),
                            layer_stored(*z, entries@, self.commands@),
                            lists(r@, before + lv.take(j as int)),
                        decreases entries.len() - j,
                    {
                        let (id, flags) = entries[j];
                        proof {
                            assert(self.commands@.contains_key((*z, entries@[j as int].0)));
                        }
                        match self.commands.get(&(*z, id)) {
                            Some(c) => {
                                r.push((id, c, flags.0, flags.1));
                            },
                            None => {},
                        }
                        proof {
                            assert(before + lv.take(j + 1) =~= (before + lv.take(j as int)).push(lv[j as int]));
                        }
                        j = j + 1;
                    }
                    proof {
                        assert(lv.take(j as int) =~= lv);
                    }
                },
                None => {},
            }
            proof {
                assert(zs.take(k + 1).drop_last() =~= zs.take(k));
                assert(zs.take(k + 1).last() == zs[k]);
            }
        }
        proof {
            assert(zs.take(zs.len() as int) =~= zs);
        }
        r
    }

    /// Decides what a presentation does, given which of the
    /// [`flattened`](CommandList::flattened) groups are visible: the
    /// positions of the groups to draw, in order, and the marks that
    /// [`present`](CommandList::present) settles.  A visible group is drawn unless it needs maintenance and was
    /// not maintained since the last presentation; a visible group that
    /// needs maintenance gets a mark saying whether it was maintained.
    pub fn plan_present(&self, visible: &[bool]) -> (r: (Vec<usize>, Vec<(bool, u64)>))
        requires
            visible@.len() == self@.flat().len(),
        ensures
            r.0@.len() == frame_draws(self@.flat(), visible@, visible@.len() as int).len(),
            forall|i: int| 0 <= i < r.0@.len() ==> r.0@[i] == #[trigger] frame_draws(self@.flat(), visible@, visible@.len() as int)[i],
            r.1@ == frame_marks(self@.flat(), visible@, visible@.len() as int),
            self@.wf(),
            self@.consistent(),
    {
        proof {
            use_type_invariant(self);
            self.lemma_wf();
        }
        let flat = self.flattened();
        let ghost f = self@.flat();
        let mut draws: Vec<usize> = Vec::new();
        let mut marks: Vec<(bool, u64)> = Vec::new();
        let mut i: usize = 0;
        while i < flat.len()
            invariant
                lists(flat@, f),
                visible@.len() == f.len(),
                0 <= i <= flat.len(),
                draws@.len() == frame_draws(f, visible@, i as int).len(),
                forall|j: int| 0 <= j < draws@.len() ==> draws@[j] == #[trigger] frame_draws(f, visible@, i as int)[j],
                marks@ == frame_marks(f, visible@, i as int),
            decreases flat.len() - i,
        {
            let id = flat[i].0;
            if visible[i] {
                match flat[i].3 {
                    Some(true) => {
                        marks.push((true, id));
                        draws.push(i);
                    },
                    Some(false) => {
                        marks.push((false, id));
                    },
                    None => {
                        draws.push(i);
                    },
                }
            }
            i = i + 1;
        }
        (draws, marks)
    }

    /// Presents the groups, given which of the
    /// [`flattened`](CommandList::flattened) groups are visible: returns the
    /// ids of the groups to draw, in the flattened order (a visible group is
    /// drawn unless it needs maintenance and was not maintained since the
    /// last presentation), and settles the presentation: a visible group
    /// that was maintained is marked as not maintained since, one that was
    /// not is dropped.  The groups drawn stay, with their commands.
    pub fn present(&mut self, visible: &[bool]) -> (drawn: Vec<u64>)
        requires
            visible@.len() == old(self)@.flat().len(),
        ensures
            drawn@.len() == frame_draws(old(self)@.flat(), visible@, visible@.len() as int).len(),
            forall|i: int| 0 <= i < drawn@.len() ==> drawn@[i] == old(self)@.flat()[#[trigger] frame_draws(
                old(self)@.flat(),
                visible@,
                visible@.len() as int,
            )[i]].0,
            final(self)@ == old(self)@.settled(frame_marks(old(self)@.flat(), visible@, visible@.len() as int)),
            final(self)@.wf(),
            final(self)@.consistent(),
    {
        proof {
            use_type_invariant(&*self);
            (*self).lemma_wf();
            lemma_present_settles(self@, visible@);
            lemma_frame_draws_in_order(self@.flat(), visible@, visible@.len() as int);
        }
        let (draws, marks) = self.plan_present(visible);
        let flat = self.flattened();
        let ghost f = self@.flat();
        let ghost d = frame_draws(f, visible@, visible@.len() as int);
        let mut drawn: Vec<u64> = Vec::new();
        let mut i: usize = 0;
        while i < draws.len()
            invariant
                lists(flat@, f),
                visible@.len() == f.len(),
                draws@.len() == d.len(),
                forall|j: int| 0 <= j < draws@.len() ==> draws@[j] == #[trigger] d[j],
                forall|j: int| 0 <= j < d.len() ==> 0 <= #[trigger] d[j] < f.len(),
                0 <= i <= draws@.len(),
                drawn@.len() == i,
                forall|j: int| 0 <= j < i ==> drawn@[j] == f[#[trigger] d[j]].0,
            decreases draws@.len() - i,
        {
            let p = draws[i];
            proof {
                assert(draws@[i as int] == d[i as int]);
            }
            drawn.push(flat[p].0);
            i = i + 1;
        }
        self.finish_present(&marks);
        drawn
    }

    /// Settles the marks of a presentation, one after the other: a group
    /// that was maintained is marked as not maintained since, and one that
    /// was not is dropped from its layer.
    fn finish_present(&mut self, marks: &[(bool, u64)])
        requires
            old(self)@.settles(marks@),
            old(self)@.settled(marks@).consistent(),
        ensures
            final(self)@ == old(self)@.settled(marks@),
            final(self)@.wf(),
    {
        let (mut groups, lookup, mut cmds) = self.take_parts();
        let ghost m0 = old(self)@;
        let mut k: usize = 0;
        while k < marks.len()
            invariant
                0 <= k <= marks@.len(),
                m0.settles(marks@),
                m0.lookup == lookup@,
                parts_wf(groups@, cmds@),
                parts_model(groups@, lookup@, cmds@) == m0.settled(marks@.take(k as int)),
            decreases marks.len() - k,
        {
            let ghost g0 = groups@;
            let ghost c0 = cmds@;
            let ghost before = m0.settled(marks@.take(k as int));
            proof {
                lemma_settles_prefix(m0, marks@, k + 1);
                assert(marks@.take(k + 1).drop_last() =~= marks@.take(k as int));
                assert(marks@.take(k + 1).last() == marks@[k as int]);
            }
            let (ok, id) = marks[k];
            match lookup.get(&id) {
                Some(z) => {
                    let z = *z;
                    match groups.remove(&z) {
                        Some(mut layer) => {
                            let ghost f0 = layer_entries(layer);
                            proof {
                                assert(keys_distinct(f0));
                                lemma_view_keys(z, f0, c0);
                                lemma_stored_keys(z, f0, c0);
                                lemma_without_key(f0, id);
                                lemma_view_without(z, f0, c0, id);
                            }
                            if ok {
                                match layer_get(&layer, id) {
                                    Some(flags) => {
                                        layer_set(&mut layer, id, (flags.0, Some(false)));
                                        proof {
                                            let i = key_index(f0, id);
                                            let v = layer_view(z, f0, c0);
                                            assert(layer_view(z, layer_entries(layer), c0) =~= v.update(
                                                i,
                                                (id, Group { commands: c0[(z, id)], protected: flags.0, maintained: Some(false) }),
                                            ));
                                            assert forall|j: int| 0 <= j < layer_entries(layer).len() implies #[trigger] c0.contains_key(
                                                (z, layer_entries(layer)[j].0),
                                            ) by {
                                                assert(layer_entries(layer)[j].0 == f0[j].0);
                                                assert(c0.contains_key((z, f0[j].0)));
                                            }
                                        }
                                    },
                                    None => {},
                                }
                                groups.insert(z, layer);
                                proof {
                                    assert(groups@ == g0.insert(z, layer));
                                    assert(parts_model(groups@, lookup@, cmds@).layers =~= before.settle_step(marks@[k as int]).layers);
                                }
                            } else {
                                let removed = layer_remove(&mut layer, id);
                                groups.insert(z, layer);
                                match removed {
                                    Some(_) => {
                                        cmds.remove(&(z, id));
                                    },
                                    None => {},
                                }
                                proof {
                                    let w = without_key(f0, id);
                                    assert(groups@ == g0.insert(z, layer));
                                    assert forall|kk: u64| #[trigger] has_key(w, kk) implies c0.contains_key((z, kk)) && cmds@.contains_key(
                                        (z, kk),
                                    ) && c0[(z, kk)] == cmds@[(z, kk)] by {
                                        assert(kk != id);
                                    }
                                    lemma_stored_keys(z, w, c0);
                                    lemma_view_frame(z, w, c0, cmds@);
                                    assert forall|y: i32| #[trigger] groups@.contains_key(y) && y != z implies layer_stored(
                                        y,
                                        layer_entries(groups@[y]),
                                        cmds@,
                                    ) && layer_view(y, layer_entries(groups@[y]), cmds@) == layer_view(y, layer_entries(g0[y]), c0) by {
                                        lemma_view_frame(y, layer_entries(g0[y]), c0, cmds@);
                                    }
                                    assert(parts_model(groups@, lookup@, cmds@).layers =~= before.settle_step(marks@[k as int]).layers);
                                }
                            }
                        },
                        None => {
                            proof {
                                assert(groups@ =~= g0);
                            }
                        },
                    }
                },
                None => {},
            }
            proof {
                assert(parts_model(groups@, lookup@, cmds@).layers =~= before.settle_step(marks@[k as int]).layers);
            }
            k = k + 1;
        }
        proof {
            assert(marks@.take(marks@.len() as int) =~= marks@);
        }
        self.put_parts(groups, lookup, cmds);
    }

    /// Takes the parts out, leaving the list empty.
    fn take_parts(&mut self) -> (parts: (BTreeMap<i32, LinkedHashMap<u64, GroupFlags>>, HashMap<u64, i32>, BTreeMap<(i32, u64), C>))
        ensures
            parts_model(parts.0@, parts.1@, parts.2@) == old(self)@,
            parts_wf(parts.0@, parts.2@),
            old(self)@.consistent(),
            old(self)@.wf(),
    {
        proof {
            use_type_invariant(&*self);
            (*self).lemma_wf();
        }
        let mut groups = BTreeMap::new();
        let mut lookup = HashMap::new();
        let mut commands = BTreeMap::new();
        proof {
            assert(groups@.dom() =~= Set::<i32>::empty());
            assert(commands@.dom() =~= Set::<(i32, u64)>::empty());
        }
        std::mem::swap(&mut groups, &mut self.command_groups);
        std::mem::swap(&mut lookup, &mut self.z_lookup);
        std::mem::swap(&mut commands, &mut self.commands);
        (groups, lookup, commands)
    }

    /// Puts parts back.
    fn put_parts(
        &mut self,
        groups: BTreeMap<i32, LinkedHashMap<u64, GroupFlags>>,
        lookup: HashMap<u64, i32>,
        commands: BTreeMap<(i32, u64), C>,
    )
        requires
            parts_wf(groups@, commands@),
            parts_model(groups@, lookup@, commands@).consistent(),
        ensures
            final(self)@ == parts_model(groups@, lookup@, commands@),
            final(self)@.wf(),
            final(self)@.consistent(),
    {
        *self = CommandList { command_groups: groups, z_lookup: lookup, commands };
        proof {
            (*self).lemma_wf();
        }
    }
}

/// Read after write: once a group is pushed, it is found under its id, at
/// the depth it was pushed at, with what it was pushed with, and it stands
/// last in its layer.
pub proof fn lemma_push_then_get<C>(m: ListModel<C>, id: u64, z: i32, g: Group<C>)
    requires
        m.wf(),
    ensures
        m.pushed(id, z, g).wf(),
        m.pushed(id, z, g).reaches(id),
        m.pushed(id, z, g).lookup[id] == z,
        m.pushed(id, z, g).group(id) == g,
        m.pushed(id, z, g).layers[z].last() == (id, g),
{
    let l = m.layer(z);
    assert(keys_distinct(l));
    lemma_without_key(l, id);
    lemma_push_key(without_key(l, id), id, g);
    let p = m.pushed(id, z, g);
    assert(p.layers.dom() =~= m.layers.dom().insert(z));
}

/// Removing a group undoes pushing it: the group can no longer be found.
pub proof fn lemma_remove_after_push<C>(m: ListModel<C>, id: u64, z: i32, g: Group<C>)
    requires
        m.wf(),
    ensures
        m.pushed(id, z, g).removed(id).wf(),
        !m.pushed(id, z, g).removed(id).reaches(id),
        !m.pushed(id, z, g).removed(id).lookup.contains_key(id),
{
    lemma_push_then_get(m, id, z, g);
    let p = m.pushed(id, z, g);
    lemma_without_key(p.layers[z], id);
    assert(p.removed(id).layers.dom() =~= p.layers.dom());
}

/// Maintaining a group only reorders its layer: every group that could be
/// found still can, at the same depth and with the same commands and
/// protection; the maintained group stands last in its layer, marked as
/// maintained if it needs maintenance; and the other layers are untouched.
pub proof fn lemma_maintain_keeps_groups<C>(m: ListModel<C>, id: u64)
    requires
        m.wf(),
    ensures
        m.maintained(id).wf(),
        m.maintained(id).lookup == m.lookup,
        m.maintained(id).layers.dom() == m.layers.dom(),
        forall|k: u64| #[trigger] m.reaches(k) ==> m.maintained(id).reaches(k)
            && m.maintained(id).group(k).commands == m.group(k).commands
            && m.maintained(id).group(k).protected == m.group(k).protected,
        forall|k: u64| #[trigger] m.reaches(k) && k != id ==> m.maintained(id).group(k) == m.group(k),
        m.reaches(id) ==> m.maintained(id).layers[m.lookup[id]].last().0 == id
            && m.maintained(id).group(id).maintained == refreshed(m.group(id).maintained),
        forall|z: i32| #[trigger] m.layers.contains_key(z) && !(m.reaches(id) && z == m.lookup[id])
            ==> m.maintained(id).layers[z] == m.layers[z],
{
    if m.reaches(id) {
        let z = m.lookup[id];
        let l = m.layers[z];
        let g = m.group(id);
        let g2 = Group { commands: g.commands, protected: g.protected, maintained: refreshed(g.maintained) };
        lemma_without_key(l, id);
        lemma_push_key(without_key(l, id), id, g2);
        let n = m.maintained(id);
        assert(n.layers.dom() =~= m.layers.dom());
        assert forall|k: u64| #[trigger] m.reaches(k) implies n.reaches(k) && n.group(k).commands == m.group(k).commands
            && n.group(k).protected == m.group(k).protected && (k != id ==> n.group(k) == m.group(k)) by {
            if m.lookup[k] == z && k != id {
                assert(has_key(without_key(l, id), k));
            }
        }
    }
}

/// Settling one mark: a maintained group stays, now marked as not
/// maintained since, with its commands and protection; a group that was not
/// maintained can no longer be found.
pub proof fn lemma_settle_step<C>(m: ListModel<C>, id: u64)
    requires
        m.wf(),
        m.reaches(id),
    ensures
        !m.settle_blocked((true, id)),
        m.settle_step((true, id)).wf(),
        m.settle_step((true, id)).reaches(id),
        m.settle_step((true, id)).group(id) == (Group {
            commands: m.group(id).commands,
            protected: m.group(id).protected,
            maintained: Some(false),
        }),
        m.settle_step((false, id)).wf(),
        !m.settle_step((false, id)).reaches(id),
        m.settle_step((false, id)).lookup == m.lookup,
{
    let z = m.lookup[id];
    let l = m.layers[z];
    let i = key_index(l, id);
    lemma_key_index(l, i);
    let g = m.group(id);
    let u = l.update(i, (id, Group { commands: g.commands, protected: g.protected, maintained: Some(false) }));
    assert forall|a: int, b: int| 0 <= a < b < u.len() implies #[trigger] u[a].0 != #[trigger] u[b].0 by {
        assert(l[a].0 != l[b].0);
    }
    lemma_key_index(u, i);
    lemma_without_key(l, id);
    assert(m.settle_step((true, id)).layers.dom() =~= m.layers.dom());
    assert(m.settle_step((false, id)).layers.dom() =~= m.layers.dom());
}

/// In a presentation, a visible group is drawn exactly when it is not
/// waiting to be dropped, and a visible group that needs maintenance is
/// marked with whether it was maintained.
pub proof fn lemma_frame<C>(f: Seq<(u64, Group<C>)>, vis: Seq<bool>, n: int, i: int)
    requires
        0 <= i < n <= f.len(),
        vis.len() == f.len(),
        vis[i],
    ensures
        frame_draws(f, vis, n).contains(i) <==> f[i].1.maintained != Some(false),
        f[i].1.maintained is Some ==> frame_marks(f, vis, n).contains((f[i].1.maintained == Some(true), f[i].0)),
    decreases n,
{
    lemma_frame_draws_below(f, vis, n - 1);
    if i == n - 1 {
        let prev = frame_marks(f, vis, n - 1);
        if f[i].1.maintained is Some {
            assert(frame_marks(f, vis, n)[prev.len() as int] == (f[i].1.maintained == Some(true), f[i].0));
        }
        let d = frame_draws(f, vis, n - 1);
        if f[i].1.maintained != Some(false) {
            assert(frame_draws(f, vis, n)[d.len() as int] == i);
        } else {
            assert(frame_draws(f, vis, n) == d);
            if d.contains(i) {
                let j = choose|j: int| 0 <= j < d.len() && d[j] == i;
                assert(d[j] < n - 1);
            }
        }
    } else {
        lemma_frame(f, vis, n - 1, i);
        let prev = frame_marks(f, vis, n - 1);
        if f[i].1.maintained is Some {
            let j = choose|j: int| 0 <= j < prev.len() && prev[j] == (f[i].1.maintained == Some(true), f[i].0);
            assert(frame_marks(f, vis, n)[j] == prev[j]);
        }
        let d = frame_draws(f, vis, n - 1);
        if d.contains(i) {
            let j = choose|j: int| 0 <= j < d.len() && d[j] == i;
            assert(frame_draws(f, vis, n)[j] == d[j]);
        }
        if frame_draws(f, vis, n).contains(i) {
            let j = choose|j: int| 0 <= j < frame_draws(f, vis, n).len() && frame_draws(f, vis, n)[j] == i;
            if j < d.len() {
                assert(d[j] == i);
            }
        }
    }
}

/// The positions drawn among the first `n` groups are below `n`.
proof fn lemma_frame_draws_below<C>(f: Seq<(u64, Group<C>)>, vis: Seq<bool>, n: int)
    ensures
        forall|j: int| 0 <= j < frame_draws(f, vis, n).len() ==> #[trigger] frame_draws(f, vis, n)[j] < n,
    decreases n,
{
    if n > 0 {
        lemma_frame_draws_below(f, vis, n - 1);
        let d = frame_draws(f, vis, n - 1);
        assert forall|j: int| 0 <= j < frame_draws(f, vis, n).len() implies #[trigger] frame_draws(f, vis, n)[j] < n by {
            if j < d.len() {
                assert(frame_draws(f, vis, n)[j] == d[j]);
            }
        }
    }
}

/// A presentation draws groups in the flattened order (lowest depth first,
/// then by age within a depth), each at most once, and only groups that are
/// visible and not waiting to be dropped.
pub proof fn lemma_frame_draws_in_order<C>(f: Seq<(u64, Group<C>)>, vis: Seq<bool>, n: int)
    requires
        0 <= n <= f.len(),
        vis.len() == f.len(),
    ensures
        forall|a: int, b: int| 0 <= a < b < frame_draws(f, vis, n).len()
            ==> #[trigger] frame_draws(f, vis, n)[a] < #[trigger] frame_draws(f, vis, n)[b],
        forall|j: int| 0 <= j < frame_draws(f, vis, n).len() ==> {
            let p = #[trigger] frame_draws(f, vis, n)[j];
            0 <= p < n && vis[p] && f[p].1.maintained != Some(false)
        },
    decreases n,
{
    if n > 0 {
        lemma_frame_draws_in_order(f, vis, n - 1);
        lemma_frame_draws_below(f, vis, n - 1);
        let d = frame_draws(f, vis, n - 1);
        let e = frame_draws(f, vis, n);
        assert forall|j: int| 0 <= j < d.len() implies #[trigger] e[j] == d[j] by {}
        assert forall|a: int, b: int| 0 <= a < b < e.len() implies #[trigger] e[a] < #[trigger] e[b] by {
            if b < d.len() {
                assert(e[a] == d[a] && e[b] == d[b]);
            } else {
                assert(e[a] == d[a]);
                assert(d[a] < n - 1);
            }
        }
        assert forall|j: int| 0 <= j < e.len() implies {
            let p = #[trigger] e[j];
            0 <= p < n && vis[p] && f[p].1.maintained != Some(false)
        } by {
            if j < d.len() {
                assert(e[j] == d[j]);
            }
        }
    }
}

// ---- presentations of consistent lists

/// Settling the mark of one group leaves every other group as it was, and
/// adds no group.
proof fn lemma_settle_other<C>(s: ListModel<C>, mark: (bool, u64), id: u64)
    requires
        s.wf(),
        s.consistent(),
        s.reaches(mark.1),
        id != mark.1,
    ensures
        s.settle_step(mark).wf(),
        s.settle_step(mark).consistent(),
        s.settle_step(mark).lookup == s.lookup,
        s.reaches(id) ==> s.settle_step(mark).reaches(id) && s.settle_step(mark).group(id) == s.group(id),
        s.settle_step(mark).reaches(id) ==> s.reaches(id),
{
    let t = s.settle_step(mark);
    let z = s.lookup[mark.1];
    let l = s.layers[z];
    let i = key_index(l, mark.1);
    lemma_key_index(l, i);
    assert(t.layers.dom() =~= s.layers.dom());
    if mark.0 {
        let g = value_of(l, mark.1);
        let u = l.update(i, (mark.1, Group { commands: g.commands, protected: g.protected, maintained: Some(false) }));
        assert(t.layers[z] == u);
        assert forall|a: int, b: int| 0 <= a < b < u.len() implies #[trigger] u[a].0 != #[trigger] u[b].0 by {
            assert(l[a].0 != l[b].0);
        }
        assert forall|k: u64| #[trigger] has_key(u, k) <==> #[trigger] has_key(l, k) by {
            if has_key(l, k) {
                let a = key_index(l, k);
                assert(u[a].0 == k);
            }
            if has_key(u, k) {
                let a = key_index(u, k);
                assert(l[a].0 == k);
            }
        }
        if has_key(l, id) {
            let a = key_index(l, id);
            lemma_key_index(l, a);
            assert(a != i);
            assert(u[a] == l[a]);
            lemma_key_index(u, a);
        }
    } else {
        lemma_without_key(l, mark.1);
    }
    assert forall|y: i32, k: u64| #[trigger] t.layers.contains_key(y) && #[trigger] has_key(t.layers[y], k) implies t.lookup.contains_key(k)
        && t.lookup[k] == y by {
        if y == z {
            assert(has_key(l, k));
        }
    }
}

/// The groups of the layers of `zs`, one after the other, have distinct ids
/// in a consistent list, and each has its layer's depth recorded.
proof fn lemma_concat_ids<C>(m: ListModel<C>, zs: Seq<i32>)
    requires
        m.wf(),
        m.consistent(),
        increasing(zs),
        forall|a: int| 0 <= a < zs.len() ==> #[trigger] m.layers.contains_key(zs[a]),
    ensures
        keys_distinct(concat_layers(zs, m.layers)),
        forall|p: int| 0 <= p < concat_layers(zs, m.layers).len() ==> {
            let id = #[trigger] concat_layers(zs, m.layers)[p].0;
            &&& m.reaches(id)
            &&& zs.contains(m.lookup[id])
            &&& m.group(id) == concat_layers(zs, m.layers)[p].1
        },
    decreases zs.len(),
{
    if zs.len() > 0 {
        let zd = zs.drop_last();
        let z = zs.last();
        lemma_concat_ids(m, zd);
        let pre = concat_layers(zd, m.layers);
        let l = m.layers[z];
        let c = concat_layers(zs, m.layers);
        assert(c == pre + l);
        assert(m.layers.contains_key(z));
        assert forall|p: int| 0 <= p < c.len() implies {
            let id = #[trigger] c[p].0;
            &&& m.reaches(id)
            &&& zs.contains(m.lookup[id])
            &&& m.group(id) == c[p].1
        } by {
            if p < pre.len() {
                assert(c[p] == pre[p]);
                let a = choose|a: int| 0 <= a < zd.len() && zd[a] == m.lookup[pre[p].0];
                assert(zs[a] == zd[a]);
            } else {
                let i = p - pre.len();
                assert(c[p] == l[i]);
                lemma_key_index(l, i);
                assert(has_key(l, l[i].0));
                assert(zs[zs.len() - 1] == z);
            }
        }
        assert forall|a: int, b: int| 0 <= a < b < c.len() implies #[trigger] c[a].0 != #[trigger] c[b].0 by {
            if b < pre.len() {
                assert(c[a] == pre[a] && c[b] == pre[b]);
            } else if a >= pre.len() {
                assert(c[a] == l[a - pre.len()] && c[b] == l[b - pre.len()]);
            } else {
                assert(c[a] == pre[a] && c[b] == l[b - pre.len()]);
                lemma_key_index(l, b - pre.len());
                assert(has_key(l, l[b - pre.len()].0));
                let x = choose|x: int| 0 <= x < zd.len() && zd[x] == m.lookup[pre[a].0];
                assert(zd[x] < z);
            }
        }
    }
}

/// Every group of the layers of `zs` stands somewhere among them.
proof fn lemma_concat_has<C>(m: ListModel<C>, zs: Seq<i32>, a: int, k: u64)
    requires
        0 <= a < zs.len(),
        has_key(m.layers[zs[a]], k),
    ensures
        exists|p: int| 0 <= p < concat_layers(zs, m.layers).len() && #[trigger] concat_layers(zs, m.layers)[p].0 == k,
    decreases zs.len(),
{
    let zd = zs.drop_last();
    let pre = concat_layers(zd, m.layers);
    let c = concat_layers(zs, m.layers);
    assert(c == pre + m.layers[zs.last()]);
    if a < zs.len() - 1 {
        assert(zd[a] == zs[a]);
        lemma_concat_has(m, zd, a, k);
        let p = choose|p: int| 0 <= p < pre.len() && #[trigger] pre[p].0 == k;
        assert(c[p] == pre[p]);
    } else {
        let l = m.layers[zs.last()];
        let i = key_index(l, k);
        assert(c[pre.len() + i] == l[i]);
    }
}

/// The flattened groups of a consistent list have distinct ids, are
/// exactly the groups that can be found, and carry their groups.
proof fn lemma_flat_ids<C>(m: ListModel<C>)
    requires
        m.wf(),
        m.consistent(),
    ensures
        keys_distinct(m.flat()),
        forall|p: int| 0 <= p < m.flat().len() ==> m.reaches(#[trigger] m.flat()[p].0) && m.group(m.flat()[p].0)
            == m.flat()[p].1,
        forall|k: u64| #[trigger] m.reaches(k) ==> exists|p: int| 0 <= p < m.flat().len() && #[trigger] m.flat()[p].0 == k,
{
    let zs = layer_order(m.layers.dom());
    lemma_layer_order_exists(m.layers.dom());
    assert forall|a: int| 0 <= a < zs.len() implies #[trigger] m.layers.contains_key(zs[a]) by {
        assert(zs.to_set().contains(zs[a]));
    }
    lemma_concat_ids(m, zs);
    assert forall|k: u64| #[trigger] m.reaches(k) implies exists|p: int| 0 <= p < m.flat().len() && #[trigger] m.flat()[p].0 == k by {
        assert(zs.to_set().contains(m.lookup[k]));
        let a = choose|a: int| 0 <= a < zs.len() && zs[a] == m.lookup[k];
        lemma_concat_has(m, zs, a, k);
    }
}

/// A finite set of depths has an increasing listing.
proof fn lemma_layer_order_exists(dom: Set<i32>)
    requires
        dom.finite(),
    ensures
        increasing(layer_order(dom)),
        layer_order(dom).to_set() == dom,
    decreases dom.len(),
{
    let zs = sorted_listing(dom);
    lemma_layer_order(zs, dom);
}

/// An increasing listing of a finite set of depths, built from its maximum.
proof fn sorted_listing(dom: Set<i32>) -> (zs: Seq<i32>)
    requires
        dom.finite(),
    ensures
        increasing(zs),
        zs.to_set() == dom,
    decreases dom.len(),
{
    if dom.len() == 0 {
        assert(dom =~= Set::<i32>::empty());
        assert(Seq::<i32>::empty().to_set() =~= dom);
        Seq::empty()
    } else {
        let x = dom.choose();
        let mx = max_of(dom, x);
        let rest = sorted_listing(dom.remove(mx));
        let zs = rest.push(mx);
        assert forall|i: int, j: int| 0 <= i < j < zs.len() implies zs[i] < zs[j] by {
            if j == zs.len() - 1 {
                assert(rest.to_set().contains(rest[i]));
                assert(dom.contains(rest[i]) && rest[i] != mx);
            }
        }
        assert forall|z: i32| zs.to_set().contains(z) <==> dom.contains(z) by {
            if dom.contains(z) && z != mx {
                assert(rest.to_set().contains(z));
                let i = choose|i: int| 0 <= i < rest.len() && rest[i] == z;
                assert(zs[i] == z);
            }
            if dom.contains(z) && z == mx {
                assert(zs[zs.len() - 1] == z);
            }
            if zs.to_set().contains(z) {
                let i = choose|i: int| 0 <= i < zs.len() && zs[i] == z;
                if i < rest.len() {
                    assert(rest[i] == z);
                    assert(rest.to_set().contains(z));
                }
            }
        }
        assert(zs.to_set() =~= dom);
        zs
    }
}

/// The greatest element of a finite set containing `x`.
proof fn max_of(dom: Set<i32>, x: i32) -> (mx: i32)
    requires
        dom.finite(),
        dom.contains(x),
    ensures
        dom.contains(mx),
        forall|z: i32| #[trigger] dom.contains(z) ==> z <= mx,
    decreases dom.len(),
{
    let rest = dom.remove(x);
    if rest.len() == 0 {
        assert forall|z: i32| #[trigger] dom.contains(z) implies z <= x by {
            if z != x {
                assert(rest.contains(z));
            }
        }
        x
    } else {
        let y = rest.choose();
        let m = max_of(rest, y);
        assert forall|z: i32| #[trigger] dom.contains(z) implies z <= (if m < x { x } else { m }) by {
            if z != x {
                assert(rest.contains(z));
            }
        }
        if m < x { x } else { m }
    }
}

/// The marks of a presentation come from visible flattened groups that need
/// maintenance, one per group, in order; with distinct ids they name
/// distinct groups.
proof fn lemma_marks_from<C>(f: Seq<(u64, Group<C>)>, vis: Seq<bool>, n: int)
    requires
        0 <= n <= f.len(),
        vis.len() == f.len(),
    ensures
        forall|j: int| 0 <= j < frame_marks(f, vis, n).len() ==> exists|p: int| 0 <= p < n && vis[p]
            && f[p].0 == (#[trigger] frame_marks(f, vis, n)[j]).1 && f[p].1.maintained == Some(frame_marks(f, vis, n)[j].0),
        keys_distinct(f) ==> forall|a: int, b: int| 0 <= a < b < frame_marks(f, vis, n).len()
            ==> (#[trigger] frame_marks(f, vis, n)[a]).1 != (#[trigger] frame_marks(f, vis, n)[b]).1,
    decreases n,
{
    if n > 0 {
        lemma_marks_from(f, vis, n - 1);
        let prev = frame_marks(f, vis, n - 1);
        let cur = frame_marks(f, vis, n);
        assert forall|j: int| 0 <= j < cur.len() implies exists|p: int| 0 <= p < n && vis[p] && f[p].0 == (#[trigger] cur[j]).1
            && f[p].1.maintained == Some(cur[j].0) by {
            if j < prev.len() {
                assert(cur[j] == prev[j]);
                let p = choose|p: int| 0 <= p < n - 1 && vis[p] && f[p].0 == (#[trigger] prev[j]).1 && f[p].1.maintained == Some(prev[j].0);
            } else {
                assert(vis[n - 1] && f[n - 1].0 == cur[j].1);
            }
        }
        if keys_distinct(f) {
            assert forall|a: int, b: int| 0 <= a < b < cur.len() implies (#[trigger] cur[a]).1 != (#[trigger] cur[b]).1 by {
                if b < prev.len() {
                    assert(cur[a] == prev[a] && cur[b] == prev[b]);
                } else {
                    assert(cur[a] == prev[a]);
                    let p = choose|p: int| 0 <= p < n - 1 && vis[p] && f[p].0 == (#[trigger] prev[a]).1 && f[p].1.maintained == Some(prev[a].0);
                    assert(f[p].0 != f[n - 1].0);
                }
            }
        }
    }
}

/// Some mark among the first `k` names `id`.
spec fn marked(marks: Seq<(bool, u64)>, k: int, id: u64) -> bool {
    exists|j: int| 0 <= j < k && marks[j].1 == id
}

/// What settling the first `k` marks of a presentation has done.
spec fn settled_prefix<C>(m: ListModel<C>, marks: Seq<(bool, u64)>, k: int) -> bool {
    let s = m.settled(marks.take(k));
    &&& m.settles(marks.take(k))
    &&& s.wf()
    &&& s.consistent()
    &&& s.lookup == m.lookup
    &&& forall|id: u64| #[trigger] s.reaches(id) ==> m.reaches(id)
    &&& forall|j: int| 0 <= j < k && (#[trigger] marks[j]).0 ==> s.reaches(marks[j].1) && s.group(marks[j].1) == (Group {
        commands: m.group(marks[j].1).commands,
        protected: m.group(marks[j].1).protected,
        maintained: Some(false),
    })
    &&& forall|j: int| 0 <= j < k && !(#[trigger] marks[j]).0 ==> !s.reaches(marks[j].1)
    &&& forall|id: u64| #[trigger] m.reaches(id) && !marked(marks, k, id) ==> s.reaches(id) && s.group(id) == m.group(id)
}

proof fn lemma_settle_marks<C>(m: ListModel<C>, vis: Seq<bool>, k: int)
    requires
        m.wf(),
        m.consistent(),
        vis.len() == m.flat().len(),
        0 <= k <= frame_marks(m.flat(), vis, m.flat().len() as int).len(),
    ensures
        settled_prefix(m, frame_marks(m.flat(), vis, m.flat().len() as int), k),
    decreases k,
{
    let f = m.flat();
    let marks = frame_marks(f, vis, f.len() as int);
    lemma_flat_ids(m);
    lemma_marks_from(f, vis, f.len() as int);
    if k == 0 {
        assert(marks.take(0) =~= Seq::<(bool, u64)>::empty());
    } else {
        lemma_settle_marks(m, vis, k - 1);
        let s = m.settled(marks.take(k - 1));
        let mark = marks[k - 1];
        let id = mark.1;
        assert(marks.take(k).drop_last() =~= marks.take(k - 1));
        assert(marks.take(k).last() == mark);
        let t = m.settled(marks.take(k));
        assert(t == s.settle_step(mark));
        let p = choose|p: int| 0 <= p < f.len() && vis[p] && f[p].0 == (#[trigger] marks[k - 1]).1 && f[p].1.maintained == Some(marks[k - 1].0);
        assert(m.reaches(f[p].0));
        assert(!marked(marks, k - 1, id)) by {
            if marked(marks, k - 1, id) {
                let j = choose|j: int| 0 <= j < k - 1 && marks[j].1 == id;
                assert(marks[j].1 != marks[k - 1].1);
            }
        }
        assert(s.reaches(id) && s.group(id) == m.group(id));
        lemma_settle_step(s, id);
        assert(!s.settle_blocked(mark));
        let other: u64 = if id == 0 { 1 } else { 0 };
        lemma_settle_other(s, mark, other);
        assert forall|x: u64| x != id implies (#[trigger] s.reaches(x) ==> t.reaches(x) && t.group(x) == s.group(x)) && (t.reaches(x) ==> s.reaches(x)) by {
            lemma_settle_other(s, mark, x);
        }
        assert forall|x: u64| #[trigger] t.reaches(x) implies m.reaches(x) by {
            if x != id {
                assert(s.reaches(x));
            }
        }
        assert forall|j: int| 0 <= j < k && (#[trigger] marks[j]).0 implies t.reaches(marks[j].1) && t.group(marks[j].1) == (Group {
            commands: m.group(marks[j].1).commands,
            protected: m.group(marks[j].1).protected,
            maintained: Some(false),
        }) by {
            if j < k - 1 {
                assert(marks[j].1 != marks[k - 1].1);
                assert(s.reaches(marks[j].1));
            }
        }
        assert forall|j: int| 0 <= j < k && !(#[trigger] marks[j]).0 implies !t.reaches(marks[j].1) by {
            if j < k - 1 {
                assert(marks[j].1 != marks[k - 1].1);
                assert(!s.reaches(marks[j].1));
            }
        }
        assert forall|x: u64| #[trigger] m.reaches(x) && !marked(marks, k, x) implies t.reaches(x) && t.group(x) == m.group(x) by {
            assert(x != id);
            assert(!marked(marks, k - 1, x));
            assert(s.reaches(x));
        }
    }
}

/// A presentation settles every visible group that needs maintenance: one
/// that was maintained since the previous presentation is kept, marked as
/// not maintained since; one that was not can no longer be found.  Every
/// other group stays as it was, and no group is added.  This holds of a
/// consistent list, whatever groups are visible; every `CommandList` is
/// consistent (its operations and `flattened` say so).
pub proof fn lemma_present_settles<C>(m: ListModel<C>, vis: Seq<bool>)
    requires
        m.wf(),
        m.consistent(),
        vis.len() == m.flat().len(),
    ensures
        ({
            let f = m.flat();
            let after = m.settled(frame_marks(f, vis, f.len() as int));
            &&& m.settles(frame_marks(f, vis, f.len() as int))
            &&& after.wf()
            &&& after.consistent()
            &&& forall|p: int| 0 <= p < f.len() && vis[p] && f[p].1.maintained == Some(false) ==> !after.reaches(#[trigger] f[p].0)
            &&& forall|p: int| 0 <= p < f.len() && vis[p] && f[p].1.maintained == Some(true) ==> after.reaches(#[trigger] f[p].0)
                && after.group(f[p].0) == (Group { commands: f[p].1.commands, protected: f[p].1.protected, maintained: Some(false) })
            &&& forall|p: int| 0 <= p < f.len() && !(vis[p] && f[p].1.maintained is Some) ==> after.reaches(#[trigger] f[p].0)
                && after.group(f[p].0) == f[p].1
            &&& forall|k: u64| #[trigger] after.reaches(k) ==> m.reaches(k)
            &&& forall|k: u64| #[trigger] m.reaches(k) ==> exists|p: int| 0 <= p < f.len() && #[trigger] f[p].0 == k
        }),
{
    let f = m.flat();
    let marks = frame_marks(f, vis, f.len() as int);
    lemma_settle_marks(m, vis, marks.len() as int);
    assert(marks.take(marks.len() as int) =~= marks);
    lemma_flat_ids(m);
    let after = m.settled(marks);
    assert forall|p: int| 0 <= p < f.len() && vis[p] && f[p].1.maintained is Some implies exists|j: int| 0 <= j < marks.len() && marks[j] == (f[p].1.maintained == Some(true), f[p].0) by {
        lemma_frame(f, vis, f.len() as int, p);
    }
    assert forall|p: int| 0 <= p < f.len() && vis[p] && f[p].1.maintained == Some(false) implies !after.reaches(#[trigger] f[p].0) by {
        let j = choose|j: int| 0 <= j < marks.len() && marks[j] == (f[p].1.maintained == Some(true), f[p].0);
        assert(!marks[j].0);
    }
    assert forall|p: int| 0 <= p < f.len() && vis[p] && f[p].1.maintained == Some(true) implies after.reaches(#[trigger] f[p].0)
        && after.group(f[p].0) == (Group { commands: f[p].1.commands, protected: f[p].1.protected, maintained: Some(false) }) by {
        let j = choose|j: int| 0 <= j < marks.len() && marks[j] == (f[p].1.maintained == Some(true), f[p].0);
        assert(marks[j].0);
    }
    lemma_marks_from(f, vis, f.len() as int);
    assert forall|p: int| 0 <= p < f.len() && !(vis[p] && f[p].1.maintained is Some) implies after.reaches(#[trigger] f[p].0)
        && after.group(f[p].0) == f[p].1 by {
        if marked(marks, marks.len() as int, f[p].0) {
            let j = choose|j: int| 0 <= j < marks.len() && marks[j].1 == f[p].0;
            let q = choose|q: int| 0 <= q < f.len() && vis[q] && f[q].0 == (#[trigger] marks[j]).1 && f[q].1.maintained == Some(marks[j].0);
            if q != p {
                if q < p {
                    assert(f[q].0 != f[p].0);
                } else {
                    assert(f[p].0 != f[q].0);
                }
            }
        }
    }
}

/// The operations keep a list consistent: removing, maintaining and
/// modifying a group always do, and so does pushing a group unless its id
/// can be found at another depth.
pub proof fn lemma_operations_keep_consistency<C>(m: ListModel<C>, id: u64, z: i32, g: Group<C>)
    requires
        m.wf(),
        m.consistent(),
    ensures
        m.removed(id).wf() && m.removed(id).consistent(),
        m.maintained(id).wf() && m.maintained(id).consistent(),
        m.removed(id).pushed(id, z, g).wf() && m.removed(id).pushed(id, z, g).consistent(),
        !(m.reaches(id) && m.lookup[id] != z) ==> m.pushed(id, z, g).wf() && m.pushed(id, z, g).consistent(),
{
    // removing
    let r = m.removed(id);
    if m.lookup.contains_key(id) && m.layers.contains_key(m.lookup[id]) {
        lemma_without_key(m.layers[m.lookup[id]], id);
    }
    assert(r.layers.dom() =~= m.layers.dom());
    assert forall|y: i32, k: u64| #[trigger] r.layers.contains_key(y) && #[trigger] has_key(r.layers[y], k) implies r.lookup.contains_key(k)
        && r.lookup[k] == y by {
        assert(has_key(m.layers[y], k));
    }
    // maintaining
    lemma_maintain_keeps_groups(m, id);
    let n = m.maintained(id);
    if m.reaches(id) {
        let l = m.layers[m.lookup[id]];
        let gi = m.group(id);
        lemma_without_key(l, id);
        lemma_push_key(without_key(l, id), id, Group { commands: gi.commands, protected: gi.protected, maintained: refreshed(gi.maintained) });
    }
    assert forall|y: i32, k: u64| #[trigger] n.layers.contains_key(y) && #[trigger] has_key(n.layers[y], k) implies n.lookup.contains_key(k)
        && n.lookup[k] == y by {
        assert(has_key(m.layers[y], k));
    }
    // pushing
    assert forall|q: ListModel<C>| q.wf() && q.consistent() && !(q.reaches(id) && q.lookup[id] != z) implies #[trigger] q.pushed(id, z, g).wf()
        && q.pushed(id, z, g).consistent() by {
        let pl = q.layer(z);
        assert(keys_distinct(pl));
        lemma_without_key(pl, id);
        lemma_push_key(without_key(pl, id), id, g);
        let pq = q.pushed(id, z, g);
        assert(pq.layers.dom() =~= q.layers.dom().insert(z));
        assert forall|y: i32, k: u64| #[trigger] pq.layers.contains_key(y) && #[trigger] has_key(pq.layers[y], k) implies pq.lookup.contains_key(k)
            && pq.lookup[k] == y by {
            if y == z {
                if k != id {
                    assert(has_key(pl, k));
                }
            } else {
                assert(has_key(q.layers[y], k));
                if k == id {
                    assert(q.reaches(id));
                }
            }
        }
    }
    assert(!(r.reaches(id) && r.lookup[id] != z));
    assert(r.pushed(id, z, g).wf() && r.pushed(id, z, g).consistent());
    if !(m.reaches(id) && m.lookup[id] != z) {
        assert(m.pushed(id, z, g).wf() && m.pushed(id, z, g).consistent());
    }
}

proof fn lemma_concat_sorted<C>(m: ListModel<C>, zs: Seq<i32>)
    requires
        m.wf(),
        m.consistent(),
        increasing(zs),
        forall|a: int| 0 <= a < zs.len() ==> #[trigger] m.layers.contains_key(zs[a]),
    ensures
        forall|p: int, q: int| 0 <= p < q < concat_layers(zs, m.layers).len() ==> m.lookup[(#[trigger] concat_layers(zs, m.layers)[p]).0]
            <= m.lookup[(#[trigger] concat_layers(zs, m.layers)[q]).0],
    decreases zs.len(),
{
    if zs.len() > 0 {
        let zd = zs.drop_last();
        let z = zs.last();
        lemma_concat_sorted(m, zd);
        lemma_concat_ids(m, zd);
        let pre = concat_layers(zd, m.layers);
        let l = m.layers[z];
        let c = concat_layers(zs, m.layers);
        assert(c == pre + l);
        assert(m.layers.contains_key(z));
        assert forall|p: int, q: int| 0 <= p < q < c.len() implies m.lookup[(#[trigger] c[p]).0] <= m.lookup[(#[trigger] c[q]).0] by {
            if q >= pre.len() {
                let j = q - pre.len();
                assert(c[q] == l[j]);
                lemma_key_index(l, j);
                assert(has_key(l, l[j].0));
                if p >= pre.len() {
                    let i = p - pre.len();
                    assert(c[p] == l[i]);
                    lemma_key_index(l, i);
                    assert(has_key(l, l[i].0));
                } else {
                    assert(c[p] == pre[p]);
                    let x = choose|x: int| 0 <= x < zd.len() && zd[x] == m.lookup[pre[p].0];
                    assert(zd[x] < z);
                }
            } else {
                assert(c[p] == pre[p] && c[q] == pre[q]);
            }
        }
    }
}

/// The flattened groups of a consistent list come layer by layer, from the
/// lowest depth up.
pub proof fn lemma_flat_by_depth<C>(m: ListModel<C>)
    requires
        m.wf(),
        m.consistent(),
    ensures
        forall|p: int, q: int| 0 <= p < q < m.flat().len() ==> m.lookup[(#[trigger] m.flat()[p]).0] <= m.lookup[(#[trigger] m.flat()[q]).0],
{
    let zs = layer_order(m.layers.dom());
    lemma_layer_order_exists(m.layers.dom());
    assert forall|a: int| 0 <= a < zs.len() implies #[trigger] m.layers.contains_key(zs[a]) by {
        assert(zs.to_set().contains(zs[a]));
    }
    lemma_concat_sorted(m, zs);
}

/// A group maintained since the last presentation survives the next one,
/// whatever is visible, with its commands and protection.  (For a consistent
/// list.)
pub proof fn lemma_maintained_group_survives<C>(m: ListModel<C>, id: u64, vis: Seq<bool>)
    requires
        m.wf(),
        m.consistent(),
        m.reaches(id),
        vis.len() == m.maintained(id).flat().len(),
    ensures
        ({
            let n = m.maintained(id);
            let after = n.settled(frame_marks(n.flat(), vis, n.flat().len() as int));
            &&& n.settles(frame_marks(n.flat(), vis, n.flat().len() as int))
            &&& after.reaches(id)
            &&& after.group(id).commands == m.group(id).commands
            &&& after.group(id).protected == m.group(id).protected
        }),
{
    let g = Group { commands: m.group(id).commands, protected: m.group(id).protected, maintained: m.group(id).maintained };
    lemma_operations_keep_consistency(m, id, 0, g);
    lemma_maintain_keeps_groups(m, id);
    let n = m.maintained(id);
    lemma_flat_ids(n);
    lemma_present_settles(n, vis);
    let f = n.flat();
    let p = choose|p: int| 0 <= p < f.len() && #[trigger] f[p].0 == id;
    assert(n.group(id) == f[p].1);
}

/// `l` with its entry `i` deleted, the others in their order.
spec fn cut<X>(l: Seq<X>, i: int) -> Seq<X> {
    l.subrange(0, i) + l.subrange(i + 1, l.len() as int)
}

/// Law: removing a group deletes exactly its entry from its layer; the
/// other groups of that layer keep their order, and every other layer stays
/// as it was.
pub proof fn lemma_remove_keeps_layer_order<C>(m: ListModel<C>, id: u64)
    requires
        m.wf(),
        m.reaches(id),
    ensures
        ({
            let z = m.lookup[id];
            let l = m.layers[z];
            exists|i: int|
                0 <= i < l.len() && l[i].0 == id && m.removed(id).layers.contains_key(z)
                    && #[trigger] m.removed(id).layers[z] == l.subrange(0, i) + l.subrange(i + 1, l.len() as int)
        }),
        forall|y: i32| #[trigger] m.layers.contains_key(y) && y != m.lookup[id]
            ==> m.removed(id).layers.contains_key(y) && m.removed(id).layers[y] == m.layers[y],
        m.removed(id).layers.dom() == m.layers.dom(),
        !m.removed(id).lookup.contains_key(id),
{
    let z = m.lookup[id];
    let l = m.layers[z];
    let i = key_index(l, id);
    assert(0 <= i < l.len() && l[i].0 == id);
    assert(l.remove(i) =~= cut(l, i));
    assert(m.removed(id).layers.dom() =~= m.layers.dom());
}

/// Law: pushing a group puts it last in its layer, after the other groups of
/// that layer in their order; an older entry of the same id in that layer is
/// deleted, and every other layer stays as it was.
pub proof fn lemma_push_keeps_layer_order<C>(m: ListModel<C>, id: u64, z: i32, g: Group<C>)
    requires
        m.wf(),
    ensures
        (forall|i: int| 0 <= i < m.layer(z).len() ==> #[trigger] m.layer(z)[i].0 != id)
            ==> m.pushed(id, z, g).layers[z] == m.layer(z).push((id, g)),
        forall|i: int| 0 <= i < m.layer(z).len() && #[trigger] m.layer(z)[i].0 == id
            ==> m.pushed(id, z, g).layers[z] == (m.layer(z).subrange(0, i) + m.layer(z).subrange(
                i + 1,
                m.layer(z).len() as int,
            )).push((id, g)),
        forall|y: i32| #[trigger] m.layers.contains_key(y) && y != z ==> m.pushed(id, z, g).layers[y] == m.layers[y],
{
    let l = m.layer(z);
    assert(keys_distinct(l));
    assert forall|i: int| 0 <= i < l.len() && #[trigger] l[i].0 == id implies m.pushed(id, z, g).layers[z] == cut(l, i).push(
        (id, g),
    ) by {
        lemma_key_index(l, i);
        assert(l.remove(i) =~= cut(l, i));
    }
}

/// Law: pushing a group again at the depth it stands at (as `push` and
/// `modify` do, through removing it first) moves it last in its layer; the
/// other groups of that layer keep their order.
pub proof fn lemma_repush_moves_last<C>(m: ListModel<C>, id: u64, g: Group<C>)
    requires
        m.wf(),
        m.consistent(),
        m.reaches(id),
    ensures
        ({
            let z = m.lookup[id];
            let l = m.layers[z];
            exists|i: int|
                0 <= i < l.len() && l[i].0 == id && #[trigger] m.removed(id).pushed(id, z, g).layers[z] == (l.subrange(0, i)
                    + l.subrange(i + 1, l.len() as int)).push((id, g))
        }),
{
    let z = m.lookup[id];
    let l = m.layers[z];
    lemma_remove_keeps_layer_order(m, id);
    let i = choose|i: int|
        0 <= i < l.len() && l[i].0 == id && m.removed(id).layers.contains_key(z)
            && #[trigger] m.removed(id).layers[z] == l.subrange(0, i) + l.subrange(i + 1, l.len() as int);
    let r = m.removed(id);
    lemma_operations_keep_consistency(m, id, z, g);
    assert(r.wf()) by {
        assert forall|y: i32| #[trigger] r.layers.contains_key(y) implies keys_distinct(r.layers[y]) by {
            if y == z {
                lemma_without_key(l, id);
                assert(r.layers[y] == without_key(l, id)) by {
                    lemma_key_index(l, i);
                    assert(l.remove(i) =~= cut(l, i));
                }
            }
        }
    }
    lemma_push_keeps_layer_order(r, id, z, g);
    assert(r.layer(z) == cut(l, i));
    assert forall|j: int| 0 <= j < r.layer(z).len() implies #[trigger] r.layer(z)[j].0 != id by {
        assert(keys_distinct(l));
        if j < i {
            assert(r.layer(z)[j] == l[j]);
            assert(l[j].0 != l[i].0);
        } else {
            assert(r.layer(z)[j] == l[j + 1]);
            assert(l[i].0 != l[j + 1].0);
        }
    }
}

/// Law: maintaining a group moves it last in its layer, marked as
/// maintained if it needs maintenance, with its commands and protection;
/// the other groups of that layer keep their order, and every other layer
/// stays as it was.
pub proof fn lemma_maintain_keeps_layer_order<C>(m: ListModel<C>, id: u64)
    requires
        m.wf(),
        m.reaches(id),
    ensures
        ({
            let z = m.lookup[id];
            let l = m.layers[z];
            exists|i: int|
                0 <= i < l.len() && l[i].0 == id && #[trigger] m.maintained(id).layers[z] == (l.subrange(0, i) + l.subrange(
                    i + 1,
                    l.len() as int,
                )).push(
                    (
                        id,
                        Group {
                            commands: l[i].1.commands,
                            protected: l[i].1.protected,
                            maintained: if l[i].1.maintained is Some { Some(true) } else { None },
                        },
                    ),
                )
        }),
        forall|y: i32| #[trigger] m.layers.contains_key(y) && y != m.lookup[id] ==> m.maintained(id).layers[y] == m.layers[y],
        m.maintained(id).lookup == m.lookup,
{
    let z = m.lookup[id];
    let l = m.layers[z];
    let i = key_index(l, id);
    assert(0 <= i < l.len() && l[i].0 == id);
    assert(l.remove(i) =~= cut(l, i));
    assert(m.group(id) == l[i].1);
}

} // verus!
