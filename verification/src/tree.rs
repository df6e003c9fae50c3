//! The namespace tree: one node for each namespace, the types of that
//! namespace in it, and the sub-namespaces below it in ascending order.

use crate::gen::{allowed, allowed_lints, Fragment, FragmentView, Gen, GenView};
use crate::names::{
    join, join_prefix, lemma_split_segments, snake, split, split_namespace, to_snake,
};
use crate::reader::{ElementType, ElementTypeView};
use crate::shape::{
    ascending, lemma_has_key, lemma_inserted_wf, lemma_removed_at, lemma_removed_count,
    lemma_removed_wf,
};
use crate::text::{lemma_lex_lt_irreflexive, lemma_lex_lt_total, lex_lt, str_lt};
use vstd::prelude::*;

verus! {

/// A node of the namespace tree. `namespace` is the full dotted path of the
/// node, empty for the root. `types` holds the types of exactly that
/// namespace, in the order in which they were filed. `namespaces` holds the
/// nodes one segment further down, each with its segment, in ascending
/// order of the segments.
#[derive(Debug, PartialEq, Eq)]
pub struct TypeTree {
    pub namespace: String,
    pub types: Vec<ElementType>,
    pub namespaces: Vec<(String, TypeTree)>,
}

pub struct TreeView {
    pub namespace: Seq<char>,
    pub types: Seq<ElementTypeView>,
    pub namespaces: Seq<(Seq<char>, TreeView)>,
}

impl TypeTree {
    /// The tree as a value: every string by its characters, every vector
    /// by its items.
    pub open spec fn view(&self) -> TreeView
        decreases self,
    {
        TreeView {
            namespace: self.namespace@,
            types: self.types.deep_view(),
            namespaces: Seq::new(
                self.namespaces@.len(),
                |i: int|
                    if 0 <= i < self.namespaces@.len() {
                        (self.namespaces@[i].0@, self.namespaces@[i].1@)
                    } else {
                        arbitrary()
                    },
            ),
        }
    }
}

impl TypeTree {
    /// The views of the children of a node, one for one.
    pub open spec fn children(namespaces: Seq<(String, TypeTree)>) -> Seq<(Seq<char>, TreeView)> {
        Seq::new(namespaces.len(), |i: int| (namespaces[i].0@, namespaces[i].1@))
    }

    /// The children in the view of a node are the views of its children.
    pub proof fn lemma_children(&self)
        ensures
            self@.namespaces == TypeTree::children(self.namespaces@),
    {
        assert(self@.namespaces =~= TypeTree::children(self.namespaces@));
    }
}

/// The segments under which the children of a node are filed.
pub open spec fn keys(children: Seq<(Seq<char>, TreeView)>) -> Seq<Seq<char>> {
    children.map_values(|child: (Seq<char>, TreeView)| child.0)
}

/// The place of `key` among `keys`: the number of leading keys that come
/// before it. Where the keys ascend, this is where `key` stands or where it
/// would have to be put.
pub open spec fn slot(keys: Seq<Seq<char>>, key: Seq<char>) -> int
    decreases keys.len(),
{
    if keys.len() > 0 && lex_lt(keys[0], key) {
        1 + slot(keys.skip(1), key)
    } else {
        0
    }
}

/// The keys in front of the place of `key` come before `key`, and the key
/// at that place, if there is one, does not.
pub proof fn lemma_slot(keys: Seq<Seq<char>>, key: Seq<char>)
    ensures
        0 <= slot(keys, key) <= keys.len(),
        forall|j: int| 0 <= j < slot(keys, key) ==> lex_lt(#[trigger] keys[j], key),
        slot(keys, key) < keys.len() ==> !lex_lt(keys[slot(keys, key)], key),
    decreases keys.len(),
{
    if keys.len() > 0 && lex_lt(keys[0], key) {
        let rest = keys.skip(1);
        lemma_slot(rest, key);
        assert forall|j: int| 0 <= j < slot(keys, key) implies lex_lt(#[trigger] keys[j], key) by {
            if j > 0 {
                assert(keys[j] == rest[j - 1]);
            }
        }
        if slot(keys, key) < keys.len() {
            assert(keys[slot(keys, key)] == rest[slot(rest, key)]);
        }
    }
}

impl TreeView {
    /// A node without types and without children.
    pub open spec fn leaf(namespace: Seq<char>) -> TreeView {
        TreeView { namespace, types: Seq::empty(), namespaces: Seq::empty() }
    }

    /// The place of `key` among the children.
    pub open spec fn slot_of(self, key: Seq<char>) -> int {
        slot(keys(self.namespaces), key)
    }

    /// Whether a child is filed under `key`, at the place of `key`.
    pub open spec fn has(self, key: Seq<char>) -> bool {
        let i = self.slot_of(key);
        i < self.namespaces.len() && self.namespaces[i].0 == key
    }

    /// The node with one more type at the end of its own types.
    pub open spec fn with_type(self, t: ElementTypeView) -> TreeView {
        TreeView { types: self.types.push(t), ..self }
    }

    /// The node with other children.
    pub open spec fn with_children(self, namespaces: Seq<(Seq<char>, TreeView)>) -> TreeView {
        TreeView { namespaces, ..self }
    }

    /// The tree after `t` was filed at `path`, seen from the node that
    /// stands `depth` segments down that path. Nodes that the path needs
    /// and the tree lacks come into being, each named by the path down to
    /// it, each at the place of its segment; `t` goes to the end of the
    /// types of the last node of the path.
    pub open spec fn inserted(self, path: Seq<Seq<char>>, depth: int, t: ElementTypeView) -> TreeView
        decreases path.len() - depth,
    {
        if 0 <= depth < path.len() {
            let key = path[depth];
            let i = self.slot_of(key);
            let child = if self.has(key) {
                self.namespaces[i].1
            } else {
                TreeView::leaf(join(path.take(depth + 1)))
            };
            let child = if depth + 1 == path.len() {
                child.with_type(t)
            } else {
                child.inserted(path, depth + 1, t)
            };
            if self.has(key) {
                self.with_children(self.namespaces.update(i, (key, child)))
            } else {
                self.with_children(self.namespaces.insert(i, (key, child)))
            }
        } else {
            self
        }
    }

    /// The tree after the node at `path` was cut off with all that is below
    /// it, seen from the node that stands `depth` segments down that path.
    /// Where the tree has no node at `path`, nothing changes.
    pub open spec fn removed(self, path: Seq<Seq<char>>, depth: int) -> TreeView
        decreases path.len() - depth,
    {
        if 0 <= depth < path.len() && self.has(path[depth]) {
            let i = self.slot_of(path[depth]);
            if depth + 1 == path.len() {
                self.with_children(self.namespaces.remove(i))
            } else {
                self.with_children(
                    self.namespaces.update(
                        i,
                        (path[depth], self.namespaces[i].1.removed(path, depth + 1)),
                    ),
                )
            }
        } else {
            self
        }
    }

    /// What the node emits: its own types, each to be written as seen from
    /// the node's namespace, and then one module for each child, in the
    /// order of the children. A module is named after the child's segment
    /// and holds what the child emits.
    pub open spec fn fragments(self) -> Seq<FragmentView>
        decreases self,
    {
        self.types.map_values(
            |t: ElementTypeView|
                FragmentView::Type { def: t, gen: GenView::Relative(self.namespace) },
        ) + Seq::new(
            self.namespaces.len(),
            |i: int|
                if 0 <= i < self.namespaces.len() {
                    FragmentView::Module {
                        name: snake(self.namespaces[i].0),
                        allow: allowed(),
                        tokens: self.namespaces[i].1.fragments(),
                    }
                } else {
                    arbitrary()
                },
        )
    }

    /// The modules of the children of a node.
    pub open spec fn modules(namespaces: Seq<(Seq<char>, TreeView)>) -> Seq<FragmentView> {
        Seq::new(
            namespaces.len(),
            |i: int|
                FragmentView::Module {
                    name: snake(namespaces[i].0),
                    allow: allowed(),
                    tokens: namespaces[i].1.fragments(),
                },
        )
    }
}

/// The place of `key` among the children of a node.
fn find_slot(namespaces: &Vec<(String, TypeTree)>, key: &str) -> (i: usize)
    ensures
        i == slot(keys(TypeTree::children(namespaces@)), key@),
        i <= namespaces.len(),
{
    let ghost all = keys(TypeTree::children(namespaces@));
    let mut i: usize = 0;
    proof {
        assert(all.skip(0) =~= all);
    }
    while i < namespaces.len() && str_lt(namespaces[i].0.as_str(), key)
        invariant
            i <= namespaces.len(),
            all == keys(TypeTree::children(namespaces@)),
            slot(all, key@) == i + slot(all.skip(i as int), key@),
        decreases namespaces.len() - i,
    {
        proof {
            assert(all.skip(i as int)[0] == namespaces[i as int].0@);
            assert(all.skip(i as int).skip(1) =~= all.skip(i + 1));
        }
        i += 1;
    }
    proof {
        if i < namespaces.len() {
            assert(all.skip(i as int)[0] == namespaces[i as int].0@);
        }
    }
    i
}

impl TypeTree {
    /// A node for `namespace` that holds nothing yet.
    pub fn from_namespace(namespace: String) -> (tree: Self)
        ensures
            tree@ == TreeView::leaf(namespace@),
    {
        let tree = TypeTree { namespace, types: Vec::new(), namespaces: Vec::new() };
        assert(tree@.types =~= Seq::empty());
        assert(tree@.namespaces =~= Seq::empty());
        tree
    }

    /// The child filed under `name`, if there is one at the place of `name`.
    pub fn get(&self, name: &str) -> (child: Option<&TypeTree>)
        ensures
            child is Some == self@.has(name@),
            child matches Some(tree) ==> tree@ == self@.namespaces[self@.slot_of(name@)].1,
            ascending(keys(self@.namespaces)) ==> child is Some == keys(self@.namespaces).contains(
                name@,
            ),
    {
        let i = find_slot(&self.namespaces, name);
        proof {
            if ascending(keys(self@.namespaces)) {
                lemma_has_key(self@, name@);
            }
            self.lemma_children();
            lemma_slot(keys(self@.namespaces), name@);
            lemma_lex_lt_irreflexive(name@);
            if i < self.namespaces.len() {
                lemma_lex_lt_total(name@, self.namespaces[i as int].0@);
            }
        }
        if i < self.namespaces.len() && !str_lt(name, self.namespaces[i].0.as_str()) {
            Some(&self.namespaces[i].1)
        } else {
            None
        }
    }

    /// Files `t` at `path`, from the node that stands `pos` segments down
    /// that path. Without a segment left to go, nothing is filed.
    pub fn insert(&mut self, path: &Vec<String>, pos: usize, t: &ElementType)
        ensures
            final(self)@ == old(self)@.inserted(path.deep_view(), pos as int, t@),
            pos < path.len() && t@.namespace == join(path.deep_view()) && old(self)@.wf_at(
                path.deep_view().take(pos as int),
            ) ==> final(self)@.wf_at(path.deep_view().take(pos as int)),
        decreases path.len() - pos,
    {
        proof {
            if pos < path.len() && t@.namespace == join(path.deep_view()) && self@.wf_at(
                path.deep_view().take(pos as int),
            ) {
                lemma_inserted_wf(self@, path.deep_view(), pos as int, t@);
            }
        }
        if pos >= path.len() {
            return ;
        }
        let key = &path[pos];
        let i = find_slot(&self.namespaces, key.as_str());
        proof {
            self.lemma_children();
        }
        let ghost before = self@;
        let ghost segments = path.deep_view();
        assert(segments[pos as int] == key@);
        if !(i < self.namespaces.len() && self.namespaces[i].0 == *key) {
            let child = TypeTree::from_namespace(join_prefix(path, pos + 1));
            self.namespaces.insert(i, (key.clone(), child));
            assert(self@.namespaces =~= before.namespaces.insert(
                i as int,
                (key@, TreeView::leaf(join(segments.take(pos + 1)))),
            ));
        }
        let ghost ready = self@;
        let child = &mut self.namespaces[i].1;
        if pos + 1 == path.len() {
            child.types.push(t.clone());
            assert(child@.types =~= ready.namespaces[i as int].1.types.push(t@));
            assert(child@ == ready.namespaces[i as int].1.with_type(t@));
        } else {
            child.insert(path, pos + 1, t);
        }
        assert(self@.namespaces =~= before.inserted(segments, pos as int, t@).namespaces);
    }

    /// Cuts the node at `path` off the tree, from the node that stands
    /// `pos` segments down that path.
    fn remove_path(&mut self, path: &Vec<String>, pos: usize)
        ensures
            final(self)@ == old(self)@.removed(path.deep_view(), pos as int),
        decreases path.len() - pos,
    {
        if pos >= path.len() {
            return ;
        }
        let key = &path[pos];
        let i = find_slot(&self.namespaces, key.as_str());
        proof {
            self.lemma_children();
        }
        let ghost before = self@;
        let ghost segments = path.deep_view();
        assert(segments[pos as int] == key@);
        if i < self.namespaces.len() && self.namespaces[i].0 == *key {
            if pos + 1 == path.len() {
                self.namespaces.remove(i);
            } else {
                let child = &mut self.namespaces[i].1;
                child.remove_path(path, pos + 1);
            }
            assert(self@.namespaces =~= before.removed(segments, pos as int).namespaces);
        }
    }

    /// Emits the tree below this node: the node's own types first, then
    /// one module for each sub-namespace, in the order in which they stand,
    /// which in a tree that is in order is the ascending one.
    pub fn gen(&self) -> (tokens: Vec<Fragment>)
        ensures
            Fragment::views(tokens@) == self@.fragments(),
        decreases self,
    {
        let mut tokens: Vec<Fragment> = Vec::new();
        let ghost own = self@.types.map_values(
            |t: ElementTypeView|
                FragmentView::Type { def: t, gen: GenView::Relative(self@.namespace) },
        );
        let mut i: usize = 0;
        while i < self.types.len()
            invariant
                i <= self.types.len(),
                own == self@.types.map_values(
                    |t: ElementTypeView|
                        FragmentView::Type { def: t, gen: GenView::Relative(self@.namespace) },
                ),
                Fragment::views(tokens@) == own.take(i as int),
            decreases self.types.len() - i,
        {
            let ghost before = Fragment::views(tokens@);
            tokens.push(
                Fragment::Type {
                    def: self.types[i].clone(),
                    gen: Gen::Relative(self.namespace.clone()),
                },
            );
            assert(Fragment::views(tokens@) =~= before.push(own[i as int]));
            assert(own.take(i + 1) =~= own.take(i as int).push(own[i as int]));
            i += 1;
        }
        assert(own.take(i as int) =~= own);
        let mut modules = gen_namespaces(&self.namespaces);
        proof {
            self.lemma_children();
            assert(TreeView::modules(self@.namespaces) =~= self@.fragments().skip(
                own.len() as int,
            ));
            assert(self@.fragments() =~= own + TreeView::modules(self@.namespaces));
        }
        let ghost inner = Fragment::views(modules@);
        tokens.append(&mut modules);
        assert(Fragment::views(tokens@) =~= own + inner);
        tokens
    }

    /// Cuts the namespace off the tree, with all its sub-namespaces. A
    /// namespace that the tree does not hold is left out without complaint.
    pub fn remove(&mut self, namespace: &str)
        ensures
            final(self)@ == old(self)@.removed(split(namespace@), 0),
            old(self)@.wf() ==> final(self)@.wf(),
            old(self)@.distinct() ==> final(self)@.distinct(),
            old(self)@.wf() ==> forall|other: Seq<Seq<char>>|
                #[trigger] final(self)@.at(other) == if split(namespace@).is_prefix_of(other) {
                    None
                } else {
                    old(self)@.at(other)
                },
    {
        let path = split_namespace(namespace);
        proof {
            let before = self@;
            let cut = split(namespace@);
            let after = before.removed(cut, 0);
            lemma_split_segments(namespace@);
            if before.wf() {
                lemma_removed_wf(before, Seq::empty(), cut, 0);
                assert forall|other: Seq<Seq<char>>|
                    #[trigger] after.at(other) == if cut.is_prefix_of(other) {
                        None
                    } else {
                        before.at(other)
                    } by {
                    lemma_removed_at(before, cut, other);
                }
            }
            if before.distinct() {
                assert forall|row: usize| after.count(row) <= 1 by {
                    lemma_removed_count(before, cut, 0, row);
                }
            }
        }
        self.remove_path(&path, 0);
    }
}

/// Emits one module for each of the given sub-namespaces, in their order.
/// The module is named after the segment of the sub-namespace and wraps
/// what that sub-namespace emits.
pub fn gen_namespaces(namespaces: &Vec<(String, TypeTree)>) -> (tokens: Vec<Fragment>)
    ensures
        Fragment::views(tokens@) == TreeView::modules(TypeTree::children(namespaces@)),
    decreases namespaces,
{
    let ghost all = TreeView::modules(TypeTree::children(namespaces@));
    let mut tokens: Vec<Fragment> = Vec::new();
    let mut i: usize = 0;
    while i < namespaces.len()
        invariant
            i <= namespaces.len(),
            all == TreeView::modules(TypeTree::children(namespaces@)),
            Fragment::views(tokens@) == all.take(i as int),
        decreases namespaces.len() - i,
    {
        let ghost before = Fragment::views(tokens@);
        let name = to_snake(namespaces[i].0.as_str());
        let inner = namespaces[i].1.gen();
        let module = Fragment::Module { name, allow: allowed_lints(), tokens: inner };
        assert(module@ == all[i as int]) by {
            assert(module@->Module_tokens =~= Fragment::views(inner@));
        }
        tokens.push(module);
        assert(Fragment::views(tokens@) =~= before.push(all[i as int]));
        assert(all.take(i + 1) =~= all.take(i as int).push(all[i as int]));
        i += 1;
    }
    assert(all.take(i as int) =~= all);
    tokens
}

} // verus!
