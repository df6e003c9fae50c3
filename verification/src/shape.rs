//! What holds of a well-formed namespace tree, and that filing and cutting
//! keep it.

use crate::names::{join, lemma_join_split, split};
use crate::reader::{descriptor, ElementTypeView, TypeDefView};
use crate::text::{lemma_lex_lt_irreflexive, lemma_lex_lt_total, lemma_lex_lt_transitive, lex_lt};
use crate::tree::{keys, lemma_slot, slot, TreeView};
use vstd::prelude::*;

verus! {

/// Whether every key comes before all keys that follow it. Such keys are
/// all different.
pub open spec fn ascending(keys: Seq<Seq<char>>) -> bool {
    forall|i: int, j: int| 0 <= i < j < keys.len() ==> lex_lt(#[trigger] keys[i], #[trigger] keys[j])
}

/// The number of types in `types` with the identity `row`.
pub open spec fn count_in(types: Seq<ElementTypeView>, row: usize) -> nat
    decreases types.len(),
{
    if types.len() == 0 {
        0
    } else {
        count_in(types.drop_last(), row) + if types.last().row == row {
            1nat
        } else {
            0nat
        }
    }
}

impl TreeView {
    /// Whether the tree below this node is in order, given the path that
    /// leads to the node: each node is named by the path that leads to it,
    /// holds only types of that namespace, and has its children in
    /// ascending order of their segments.
    pub open spec fn wf_at(self, path: Seq<Seq<char>>) -> bool
        decreases self,
    {
        &&& self.namespace == join(path)
        &&& forall|i: int|
            0 <= i < self.types.len() ==> (#[trigger] self.types[i]).namespace == self.namespace
        &&& ascending(keys(self.namespaces))
        &&& forall|i: int|
            0 <= i < self.namespaces.len() ==> (#[trigger] self.namespaces[i]).1.wf_at(
                path.push(self.namespaces[i].0),
            )
    }

    /// Whether the tree is in order from the root down.
    pub open spec fn wf(self) -> bool {
        self.wf_at(Seq::empty())
    }

    /// The number of times that a type with the identity `row` stands in
    /// the tree, in whatever node.
    pub open spec fn count(self, row: usize) -> nat
        decreases self,
    {
        count_in(self.types, row) + TreeView::count_below(self.namespaces, row)
    }

    /// The number of times that `row` stands in the trees of `children`.
    pub open spec fn count_below(children: Seq<(Seq<char>, TreeView)>, row: usize) -> nat
        decreases children,
    {
        if children.len() == 0 {
            0
        } else {
            TreeView::count_below(children.drop_last(), row) + children.last().1.count(row)
        }
    }

    /// Whether no identity stands in the tree more than once.
    pub open spec fn distinct(self) -> bool {
        forall|row: usize| self.count(row) <= 1
    }

    /// Whether every type in the tree is the descriptor that `catalog`
    /// gives for its row.
    pub open spec fn drawn_from(self, catalog: Seq<TypeDefView>) -> bool
        decreases self,
    {
        &&& forall|i: int|
            0 <= i < self.types.len() ==> {
                &&& (#[trigger] self.types[i]).row < catalog.len()
                &&& self.types[i] == descriptor(catalog, self.types[i].row)
            }
        &&& forall|i: int|
            0 <= i < self.namespaces.len() ==> (#[trigger] self.namespaces[i]).1.drawn_from(catalog)
    }

    /// The name and the types of the node that `path` leads to from this
    /// node, if there is one.
    pub open spec fn at(self, path: Seq<Seq<char>>) -> Option<(Seq<char>, Seq<ElementTypeView>)> {
        match self.node_at(path) {
            Some(node) => Some((node.namespace, node.types)),
            None => None,
        }
    }

    /// The node that `path` leads to from this node, if there is one.
    pub open spec fn node_at(self, path: Seq<Seq<char>>) -> Option<TreeView>
        decreases path.len(),
    {
        if path.len() == 0 {
            Some(self)
        } else if self.has(path[0]) {
            self.namespaces[self.slot_of(path[0])].1.node_at(path.skip(1))
        } else {
            None
        }
    }
}

/// The place of `key` is the one index with only smaller keys in front of
/// it and no smaller key at it.
pub proof fn lemma_slot_is(keys: Seq<Seq<char>>, key: Seq<char>, j: int)
    requires
        0 <= j <= keys.len(),
        forall|a: int| 0 <= a < j ==> lex_lt(#[trigger] keys[a], key),
        j < keys.len() ==> !lex_lt(keys[j], key),
    ensures
        slot(keys, key) == j,
    decreases keys.len(),
{
    if j > 0 {
        let rest = keys.skip(1);
        assert(lex_lt(keys[0], key));
        assert forall|a: int| 0 <= a < j - 1 implies lex_lt(#[trigger] rest[a], key) by {
            assert(rest[a] == keys[a + 1]);
        }
        lemma_slot_is(rest, key, j - 1);
    }
}

/// Among ascending keys each key stands at its own place.
pub proof fn lemma_slot_of_key(keys: Seq<Seq<char>>, i: int)
    requires
        ascending(keys),
        0 <= i < keys.len(),
    ensures
        slot(keys, keys[i]) == i,
{
    lemma_lex_lt_irreflexive(keys[i]);
    lemma_slot_is(keys, keys[i], i);
}

/// Ascending keys stay ascending when a key that they lack is put at its
/// place.
pub proof fn lemma_ascending_insert(keys: Seq<Seq<char>>, key: Seq<char>)
    requires
        ascending(keys),
        !(slot(keys, key) < keys.len() && keys[slot(keys, key)] == key),
    ensures
        ascending(keys.insert(slot(keys, key), key)),
{
    let i = slot(keys, key);
    let longer = keys.insert(i, key);
    lemma_slot(keys, key);
    if i < keys.len() {
        lemma_lex_lt_total(key, keys[i]);
    }
    assert forall|a: int, b: int| 0 <= a < b < longer.len() implies lex_lt(
        #[trigger] longer[a],
        #[trigger] longer[b],
    ) by {
        if b < i {
            assert(longer[a] == keys[a] && longer[b] == keys[b]);
        } else if b == i {
            assert(longer[a] == keys[a]);
        } else if a < i {
            assert(longer[a] == keys[a] && longer[b] == keys[b - 1]);
        } else if a == i {
            assert(longer[b] == keys[b - 1]);
            if b - 1 > i {
                lemma_lex_lt_transitive(key, keys[i], keys[b - 1]);
            }
        } else {
            assert(longer[a] == keys[a - 1] && longer[b] == keys[b - 1]);
        }
    }
}

/// One more type at the end counts once if it has the identity.
pub proof fn lemma_count_in_push(types: Seq<ElementTypeView>, t: ElementTypeView, row: usize)
    ensures
        count_in(types.push(t), row) == count_in(types, row) + if t.row == row {
            1nat
        } else {
            0nat
        },
{
    assert(types.push(t).drop_last() =~= types);
}

/// Replacing one child changes the count by what the two children hold.
pub proof fn lemma_count_below_update(
    children: Seq<(Seq<char>, TreeView)>,
    i: int,
    child: (Seq<char>, TreeView),
    row: usize,
)
    requires
        0 <= i < children.len(),
    ensures
        TreeView::count_below(children.update(i, child), row) + children[i].1.count(row)
            == TreeView::count_below(children, row) + child.1.count(row),
    decreases children.len(),
{
    let changed = children.update(i, child);
    if i == children.len() - 1 {
        assert(changed.drop_last() =~= children.drop_last());
    } else {
        assert(changed.drop_last() =~= children.drop_last().update(i, child));
        lemma_count_below_update(children.drop_last(), i, child, row);
    }
}

/// A new child adds what it holds.
pub proof fn lemma_count_below_insert(
    children: Seq<(Seq<char>, TreeView)>,
    i: int,
    child: (Seq<char>, TreeView),
    row: usize,
)
    requires
        0 <= i <= children.len(),
    ensures
        TreeView::count_below(children.insert(i, child), row) == TreeView::count_below(
            children,
            row,
        ) + child.1.count(row),
    decreases children.len(),
{
    let longer = children.insert(i, child);
    if i == children.len() {
        assert(longer.drop_last() =~= children);
    } else {
        assert(longer.drop_last() =~= children.drop_last().insert(i, child));
        assert(longer.last() == children.last());
        lemma_count_below_insert(children.drop_last(), i, child, row);
    }
}

/// A child that leaves takes along what it holds.
pub proof fn lemma_count_below_remove(children: Seq<(Seq<char>, TreeView)>, i: int, row: usize)
    requires
        0 <= i < children.len(),
    ensures
        TreeView::count_below(children.remove(i), row) + children[i].1.count(row)
            == TreeView::count_below(children, row),
    decreases children.len(),
{
    let shorter = children.remove(i);
    if i == children.len() - 1 {
        assert(shorter =~= children.drop_last());
    } else {
        assert(shorter.drop_last() =~= children.drop_last().remove(i));
        assert(shorter.last() == children.last());
        lemma_count_below_remove(children.drop_last(), i, row);
    }
}

/// Filing a type adds one to the count of its identity and leaves every
/// other count as it was.
pub proof fn lemma_inserted_count(
    tree: TreeView,
    path: Seq<Seq<char>>,
    depth: int,
    t: ElementTypeView,
    row: usize,
)
    requires
        0 <= depth < path.len(),
    ensures
        tree.inserted(path, depth, t).count(row) == tree.count(row) + if t.row == row {
            1nat
        } else {
            0nat
        },
    decreases path.len() - depth,
{
    let key = path[depth];
    let i = tree.slot_of(key);
    lemma_slot(keys(tree.namespaces), key);
    let old_child = if tree.has(key) {
        tree.namespaces[i].1
    } else {
        TreeView::leaf(join(path.take(depth + 1)))
    };
    let new_child = if depth + 1 == path.len() {
        old_child.with_type(t)
    } else {
        old_child.inserted(path, depth + 1, t)
    };
    if depth + 1 == path.len() {
        lemma_count_in_push(old_child.types, t, row);
    } else {
        lemma_inserted_count(old_child, path, depth + 1, t, row);
    }
    if tree.has(key) {
        lemma_count_below_update(tree.namespaces, i, (key, new_child), row);
    } else {
        assert(TreeView::count_below(old_child.namespaces, row) == 0);
        assert(count_in(old_child.types, row) == 0);
        lemma_count_below_insert(tree.namespaces, i, (key, new_child), row);
    }
}

/// Filing a type under its own namespace keeps the tree in order.
pub proof fn lemma_inserted_wf(tree: TreeView, path: Seq<Seq<char>>, depth: int, t: ElementTypeView)
    requires
        0 <= depth < path.len(),
        tree.wf_at(path.take(depth)),
        t.namespace == join(path),
    ensures
        tree.inserted(path, depth, t).wf_at(path.take(depth)),
    decreases path.len() - depth,
{
    let here = path.take(depth);
    let below = path.take(depth + 1);
    let key = path[depth];
    let i = tree.slot_of(key);
    let all = keys(tree.namespaces);
    lemma_slot(all, key);
    assert(here.push(key) =~= below);
    let old_child = if tree.has(key) {
        tree.namespaces[i].1
    } else {
        TreeView::leaf(join(below))
    };
    let new_child = if depth + 1 == path.len() {
        old_child.with_type(t)
    } else {
        old_child.inserted(path, depth + 1, t)
    };
    assert(old_child.wf_at(below)) by {
        if tree.has(key) {
            assert(tree.namespaces[i].1.wf_at(here.push(tree.namespaces[i].0)));
        }
    }
    assert(new_child.wf_at(below)) by {
        if depth + 1 == path.len() {
            assert(below =~= path);
        } else {
            lemma_inserted_wf(old_child, path, depth + 1, t);
        }
    }
    let after = tree.inserted(path, depth, t);
    if tree.has(key) {
        assert(keys(after.namespaces) =~= all);
        assert forall|j: int| 0 <= j < after.namespaces.len() implies (
        #[trigger] after.namespaces[j]).1.wf_at(here.push(after.namespaces[j].0)) by {
            if j != i {
                assert(after.namespaces[j] == tree.namespaces[j]);
            }
        }
    } else {
        lemma_ascending_insert(all, key);
        assert(keys(after.namespaces) =~= all.insert(i, key));
        assert forall|j: int| 0 <= j < after.namespaces.len() implies (
        #[trigger] after.namespaces[j]).1.wf_at(here.push(after.namespaces[j].0)) by {
            if j < i {
                assert(after.namespaces[j] == tree.namespaces[j]);
            } else if j > i {
                assert(after.namespaces[j] == tree.namespaces[j - 1]);
            }
        }
    }
}

/// Filing a descriptor of the catalog keeps the tree drawn from it.
pub proof fn lemma_inserted_drawn(
    tree: TreeView,
    path: Seq<Seq<char>>,
    depth: int,
    t: ElementTypeView,
    catalog: Seq<TypeDefView>,
)
    requires
        0 <= depth < path.len(),
        tree.drawn_from(catalog),
        t.row < catalog.len(),
        t == descriptor(catalog, t.row),
    ensures
        tree.inserted(path, depth, t).drawn_from(catalog),
    decreases path.len() - depth,
{
    let key = path[depth];
    let i = tree.slot_of(key);
    lemma_slot(keys(tree.namespaces), key);
    let old_child = if tree.has(key) {
        tree.namespaces[i].1
    } else {
        TreeView::leaf(join(path.take(depth + 1)))
    };
    let new_child = if depth + 1 == path.len() {
        old_child.with_type(t)
    } else {
        old_child.inserted(path, depth + 1, t)
    };
    assert(old_child.drawn_from(catalog));
    assert(new_child.drawn_from(catalog)) by {
        if depth + 1 == path.len() {
            assert forall|j: int| 0 <= j < new_child.types.len() implies {
                &&& (#[trigger] new_child.types[j]).row < catalog.len()
                &&& new_child.types[j] == descriptor(catalog, new_child.types[j].row)
            } by {
                if j < old_child.types.len() {
                    assert(new_child.types[j] == old_child.types[j]);
                }
            }
        } else {
            lemma_inserted_drawn(old_child, path, depth + 1, t, catalog);
        }
    }
    let after = tree.inserted(path, depth, t);
    assert forall|j: int| 0 <= j < after.namespaces.len() implies (
    #[trigger] after.namespaces[j]).1.drawn_from(catalog) by {
        if tree.has(key) {
            if j != i {
                assert(after.namespaces[j] == tree.namespaces[j]);
            }
        } else {
            if j < i {
                assert(after.namespaces[j] == tree.namespaces[j]);
            } else if j > i {
                assert(after.namespaces[j] == tree.namespaces[j - 1]);
            }
        }
    }
}

/// Cutting a namespace off keeps the tree in order.
pub proof fn lemma_removed_wf(tree: TreeView, base: Seq<Seq<char>>, path: Seq<Seq<char>>, depth: int)
    requires
        tree.wf_at(base),
    ensures
        tree.removed(path, depth).wf_at(base),
    decreases path.len() - depth,
{
    if 0 <= depth < path.len() && tree.has(path[depth]) {
        let i = tree.slot_of(path[depth]);
        let all = keys(tree.namespaces);
        let after = tree.removed(path, depth);
        lemma_slot(all, path[depth]);
        assert(tree.namespaces[i].1.wf_at(base.push(tree.namespaces[i].0)));
        if depth + 1 == path.len() {
            assert(keys(after.namespaces) =~= all.remove(i));
            assert forall|j: int| 0 <= j < after.namespaces.len() implies (
            #[trigger] after.namespaces[j]).1.wf_at(base.push(after.namespaces[j].0)) by {
                if j < i {
                    assert(after.namespaces[j] == tree.namespaces[j]);
                } else {
                    assert(after.namespaces[j] == tree.namespaces[j + 1]);
                }
            }
            assert forall|a: int, b: int| 0 <= a < b < all.remove(i).len() implies lex_lt(
                #[trigger] all.remove(i)[a],
                #[trigger] all.remove(i)[b],
            ) by {
                let a0 = if a < i { a } else { a + 1 };
                let b0 = if b < i { b } else { b + 1 };
                assert(all.remove(i)[a] == all[a0] && all.remove(i)[b] == all[b0]);
            }
        } else {
            lemma_removed_wf(tree.namespaces[i].1, base.push(path[depth]), path, depth + 1);
            assert(keys(after.namespaces) =~= all);
            assert forall|j: int| 0 <= j < after.namespaces.len() implies (
            #[trigger] after.namespaces[j]).1.wf_at(base.push(after.namespaces[j].0)) by {
                if j != i {
                    assert(after.namespaces[j] == tree.namespaces[j]);
                }
            }
        }
    }
}

/// Cutting a namespace off adds no type to the tree.
pub proof fn lemma_removed_count(tree: TreeView, path: Seq<Seq<char>>, depth: int, row: usize)
    ensures
        tree.removed(path, depth).count(row) <= tree.count(row),
    decreases path.len() - depth,
{
    if 0 <= depth < path.len() && tree.has(path[depth]) {
        let i = tree.slot_of(path[depth]);
        lemma_slot(keys(tree.namespaces), path[depth]);
        if depth + 1 == path.len() {
            lemma_count_below_remove(tree.namespaces, i, row);
        } else {
            let child = tree.namespaces[i].1.removed(path, depth + 1);
            lemma_removed_count(tree.namespaces[i].1, path, depth + 1, row);
            lemma_count_below_update(tree.namespaces, i, (path[depth], child), row);
        }
    }
}

/// Cutting a namespace off keeps the tree drawn from the catalog.
pub proof fn lemma_removed_drawn(
    tree: TreeView,
    path: Seq<Seq<char>>,
    depth: int,
    catalog: Seq<TypeDefView>,
)
    requires
        tree.drawn_from(catalog),
    ensures
        tree.removed(path, depth).drawn_from(catalog),
    decreases path.len() - depth,
{
    if 0 <= depth < path.len() && tree.has(path[depth]) {
        let i = tree.slot_of(path[depth]);
        let after = tree.removed(path, depth);
        lemma_slot(keys(tree.namespaces), path[depth]);
        assert(tree.namespaces[i].1.drawn_from(catalog));
        if depth + 1 < path.len() {
            lemma_removed_drawn(tree.namespaces[i].1, path, depth + 1, catalog);
        }
        assert forall|j: int| 0 <= j < after.namespaces.len() implies (
        #[trigger] after.namespaces[j]).1.drawn_from(catalog) by {
            if depth + 1 == path.len() {
                if j < i {
                    assert(after.namespaces[j] == tree.namespaces[j]);
                } else {
                    assert(after.namespaces[j] == tree.namespaces[j + 1]);
                }
            } else {
                if j != i {
                    assert(after.namespaces[j] == tree.namespaces[j]);
                }
            }
        }
    }
}

/// In a tree that is in order, the node that a path leads to is named by
/// that path and holds only types of that namespace, and the tree below it
/// is in order too.
pub proof fn lemma_node_at_wf(tree: TreeView, base: Seq<Seq<char>>, path: Seq<Seq<char>>)
    requires
        tree.wf_at(base),
        tree.node_at(path) is Some,
    ensures
        tree.node_at(path)->Some_0.wf_at(base + path),
    decreases path.len(),
{
    if path.len() == 0 {
        assert(base + path =~= base);
    } else {
        let i = tree.slot_of(path[0]);
        lemma_slot(keys(tree.namespaces), path[0]);
        assert(tree.namespaces[i].1.wf_at(base.push(tree.namespaces[i].0)));
        lemma_node_at_wf(tree.namespaces[i].1, base.push(path[0]), path.skip(1));
        assert(base.push(path[0]) + path.skip(1) =~= base + path);
    }
}

/// Among ascending keys, taking the child at `i` away leaves no child
/// under its key, and every other key where it was, with the same child.
pub proof fn lemma_has_after_remove(tree: TreeView, i: int, key: Seq<char>)
    requires
        ascending(keys(tree.namespaces)),
        0 <= i < tree.namespaces.len(),
    ensures
        ({
            let after = tree.with_children(tree.namespaces.remove(i));
            if key == tree.namespaces[i].0 {
                !after.has(key)
            } else {
                &&& after.has(key) == tree.has(key)
                &&& tree.has(key) ==> after.namespaces[after.slot_of(key)]
                    == tree.namespaces[tree.slot_of(key)]
            }
        }),
{
    let all = keys(tree.namespaces);
    let after = tree.with_children(tree.namespaces.remove(i));
    let rest = keys(after.namespaces);
    assert(rest =~= all.remove(i));
    let j = slot(all, key);
    lemma_slot(all, key);
    lemma_lex_lt_irreflexive(key);
    if key == all[i] {
        lemma_slot_of_key(all, i);
        if i < rest.len() {
            assert(rest[i] == all[i + 1]);
            assert(lex_lt(all[i], all[i + 1]));
            if lex_lt(rest[i], key) {
                lemma_lex_lt_transitive(key, rest[i], key);
            }
        }
        assert forall|a: int| 0 <= a < i implies lex_lt(#[trigger] rest[a], key) by {
            assert(rest[a] == all[a]);
        }
        lemma_slot_is(rest, key, i);
    } else if j < i {
        assert forall|a: int| 0 <= a < j implies lex_lt(#[trigger] rest[a], key) by {
            assert(rest[a] == all[a]);
        }
        assert(rest[j] == all[j]);
        lemma_slot_is(rest, key, j);
    } else if j == i {
        lemma_lex_lt_total(key, all[i]);
        assert forall|a: int| 0 <= a < i implies lex_lt(#[trigger] rest[a], key) by {
            assert(rest[a] == all[a]);
        }
        if i < rest.len() {
            assert(rest[i] == all[i + 1]);
            assert(lex_lt(all[i], all[i + 1]));
            lemma_lex_lt_transitive(key, all[i], all[i + 1]);
            if lex_lt(rest[i], key) {
                lemma_lex_lt_transitive(key, rest[i], key);
            }
        }
        lemma_slot_is(rest, key, i);
    } else {
        assert forall|a: int| 0 <= a < j - 1 implies lex_lt(#[trigger] rest[a], key) by {
            if a < i {
                assert(rest[a] == all[a]);
            } else {
                assert(rest[a] == all[a + 1]);
            }
        }
        if j - 1 < rest.len() {
            assert(rest[j - 1] == all[j]);
        }
        lemma_slot_is(rest, key, j - 1);
    }
}

/// What a path leads to after `path` was cut off a tree that is in order,
/// seen from the node `depth` segments down `path`. Below the cut there is
/// nothing; a path that parts from the cut leads to what it led to before;
/// a node above the cut is still there, with its name and its types.
pub proof fn lemma_removed_node_at(
    tree: TreeView,
    base: Seq<Seq<char>>,
    path: Seq<Seq<char>>,
    depth: int,
    other: Seq<Seq<char>>,
)
    requires
        tree.wf_at(base),
        0 <= depth < path.len(),
    ensures
        ({
            let cut = path.skip(depth);
            let after = tree.removed(path, depth);
            if cut.is_prefix_of(other) {
                after.node_at(other) is None
            } else if other.is_prefix_of(cut) {
                match (tree.node_at(other), after.node_at(other)) {
                    (Some(a), Some(b)) => b.namespace == a.namespace && b.types == a.types,
                    (None, None) => true,
                    _ => false,
                }
            } else {
                after.node_at(other) == tree.node_at(other)
            }
        }),
    decreases path.len() - depth,
{
    let cut = path.skip(depth);
    let after = tree.removed(path, depth);
    let key = path[depth];
    assert(cut[0] == key);
    if other.len() > 0 && tree.has(key) {
        let i = tree.slot_of(key);
        let all = keys(tree.namespaces);
        lemma_slot(all, key);
        lemma_slot(all, other[0]);
        assert(all[i] == key);
        if depth + 1 == path.len() {
            assert(cut =~= seq![key]);
            lemma_has_after_remove(tree, i, other[0]);
        } else {
            let child = tree.namespaces[i].1;
            assert(child.wf_at(base.push(tree.namespaces[i].0)));
            assert(keys(after.namespaces) =~= all);
            assert(cut.skip(1) =~= path.skip(depth + 1));
            if other[0] == key {
                lemma_removed_node_at(child, base.push(key), path, depth + 1, other.skip(1));
                let below = cut.skip(1);
                let rest = other.skip(1);
                assert(cut.is_prefix_of(other) == below.is_prefix_of(rest)) by {
                    if cut.is_prefix_of(other) {
                        assert(below =~= rest.subrange(0, below.len() as int));
                    }
                    if below.is_prefix_of(rest) {
                        assert forall|a: int| 0 <= a < cut.len() implies cut[a] == other[a] by {
                            if a > 0 {
                                assert(cut[a] == below[a - 1]);
                                assert(below[a - 1] == rest.subrange(0, below.len() as int)[a - 1]);
                            }
                        }
                        assert(cut =~= other.subrange(0, cut.len() as int));
                    }
                }
                assert(other.is_prefix_of(cut) == rest.is_prefix_of(below)) by {
                    if other.is_prefix_of(cut) {
                        assert(rest =~= below.subrange(0, rest.len() as int));
                    }
                    if rest.is_prefix_of(below) {
                        assert forall|a: int| 0 <= a < other.len() implies other[a] == cut[a] by {
                            if a > 0 {
                                assert(other[a] == rest[a - 1]);
                                assert(rest[a - 1] == below.subrange(0, rest.len() as int)[a - 1]);
                            }
                        }
                        assert(other =~= cut.subrange(0, other.len() as int));
                    }
                }
            } else {
                let j = tree.slot_of(other[0]);
                if tree.has(other[0]) {
                    assert(after.namespaces[j] == tree.namespaces[j]);
                }
            }
        }
    }
}

/// After a namespace was cut off a tree that is in order, no path that
/// goes through that namespace leads anywhere, and every other path leads
/// to a node with the name and the types that it led to before.
pub proof fn lemma_removed_at(tree: TreeView, path: Seq<Seq<char>>, other: Seq<Seq<char>>)
    requires
        tree.wf(),
        path.len() > 0,
    ensures
        tree.removed(path, 0).at(other) == if path.is_prefix_of(other) {
            None
        } else {
            tree.at(other)
        },
{
    lemma_removed_node_at(tree, Seq::empty(), path, 0, other);
    assert(path.skip(0) =~= path);
}

/// Where the children ascend, a child is found at the place of a key
/// exactly if some child is filed under that key.
pub proof fn lemma_has_key(tree: TreeView, key: Seq<char>)
    requires
        ascending(keys(tree.namespaces)),
    ensures
        tree.has(key) == keys(tree.namespaces).contains(key),
{
    let all = keys(tree.namespaces);
    lemma_slot(all, key);
    if tree.has(key) {
        assert(all[tree.slot_of(key)] == key);
    }
    if all.contains(key) {
        let i = choose|i: int| 0 <= i < all.len() && all[i] == key;
        lemma_slot_of_key(all, i);
    }
}

} // verus!
