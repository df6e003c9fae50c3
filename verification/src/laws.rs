//! What holds of every tree that a request gives.

use crate::closure::{
    build, filed, lemma_unvisited_enter, lemma_visit_keeps, limit_rows, named_rows, requested,
    start, unvisited, visit, visit_each, BuildState,
};
use crate::gen::FragmentView;
use crate::limits::NamespaceTypesView;
use crate::names::{join, lemma_join_split, lemma_split_segments, split};
use crate::reader::{descriptor, resolve, TypeDefView, UnknownTypeView};
use crate::shape::{
    lemma_inserted_count, lemma_inserted_drawn, lemma_inserted_wf, lemma_node_at_wf,
};
use crate::tree::TreeView;
use vstd::prelude::*;

verus! {

/// Whether `rows` holds, with each of its rows, the rows that the type at
/// that row depends on.
pub open spec fn closed(catalog: Seq<TypeDefView>, rows: Set<usize>) -> bool {
    forall|row: usize, i: int|
        rows.contains(row) && row < catalog.len() && 0 <= i < catalog[row as int].dependencies.len()
            && catalog[row as int].dependencies[i] < catalog.len() ==> rows.contains(
            #[trigger] catalog[row as int].dependencies[i],
        )
}

/// Whether `rows` holds every one of `roots` that the catalog has.
pub open spec fn holds(catalog: Seq<TypeDefView>, rows: Set<usize>, roots: Seq<usize>) -> bool {
    forall|i: int|
        0 <= i < roots.len() && roots[i] < catalog.len() ==> rows.contains(#[trigger] roots[i])
}

/// Whether the type at `row` is one of `roots` or one that they depend on,
/// directly or through other types: that is, whether the row is in every
/// set that holds the roots and is closed under dependencies.
pub open spec fn in_closure(catalog: Seq<TypeDefView>, roots: Seq<usize>, row: usize) -> bool {
    &&& row < catalog.len()
    &&& forall|rows: Set<usize>|
        closed(catalog, rows) && #[trigger] holds(catalog, rows, roots) ==> rows.contains(row)
}

/// Whether the traversal is done with `row`: it has entered the row and is
/// not in the middle of its dependencies. `open` holds the rows that it is
/// in the middle of.
pub open spec fn done(catalog: Seq<TypeDefView>, state: BuildState, open: Set<usize>, row: usize) -> bool {
    row < catalog.len() && state.visited.contains(row) && !open.contains(row)
}

/// What holds between the steps of a traversal: the tree is in order and
/// drawn from the catalog; it holds exactly the types with a namespace
/// that the traversal is done with, each once; and the dependencies of
/// those types have been entered.
pub open spec fn settled(catalog: Seq<TypeDefView>, state: BuildState, open: Set<usize>) -> bool {
    &&& state.tree.wf()
    &&& state.tree.drawn_from(catalog)
    &&& open.subset_of(state.visited)
    &&& forall|row: usize|
        #[trigger] state.tree.count(row) == if done(catalog, state, open, row) && catalog[row as int].namespace.len()
            > 0 {
            1nat
        } else {
            0nat
        }
    &&& forall|row: usize, i: int|
        done(catalog, state, open, row) && 0 <= i < catalog[row as int].dependencies.len()
            && catalog[row as int].dependencies[i] < catalog.len() ==> state.visited.contains(
            #[trigger] catalog[row as int].dependencies[i],
        )
}

/// A traversal from one row keeps what holds between steps, enters the row,
/// and enters nothing outside a closed set that holds the row and what was
/// entered before.
pub proof fn lemma_visit_settled(
    catalog: Seq<TypeDefView>,
    state: BuildState,
    row: usize,
    open: Set<usize>,
    within: Set<usize>,
)
    requires
        settled(catalog, state, open),
        closed(catalog, within),
        state.visited.subset_of(within),
        row < catalog.len() ==> within.contains(row),
    ensures
        settled(catalog, visit(catalog, state, row), open),
        visit(catalog, state, row).visited.subset_of(within),
        state.visited.subset_of(visit(catalog, state, row).visited),
        row < catalog.len() ==> visit(catalog, state, row).visited.contains(row),
    decreases unvisited(catalog.len(), state.visited), 0nat, 0nat,
{
    if row < catalog.len() && !state.visited.contains(row) {
        let entered = BuildState { visited: state.visited.insert(row), tree: state.tree };
        let inner = open.insert(row);
        let deps = catalog[row as int].dependencies;
        lemma_unvisited_enter(catalog.len(), state.visited, row);
        assert(settled(catalog, entered, inner)) by {
            assert forall|r: usize|
                done(catalog, entered, inner, r) implies done(catalog, state, open, r) by {}
        }
        assert forall|i: int| 0 <= i < deps.len() && deps[i] < catalog.len() implies within.contains(
            #[trigger] deps[i],
        ) by {}
        lemma_visit_each_settled(catalog, entered, deps, 0, inner, within);
        let after = visit_each(catalog, entered, deps, 0);
        let next = visit(catalog, state, row);
        let namespace = catalog[row as int].namespace;
        assert(next.tree == filed(catalog, after.tree, row));
        assert forall|r: usize| r != row implies done(catalog, next, open, r) == done(
            catalog,
            after,
            inner,
            r,
        ) by {}
        assert(done(catalog, next, open, row));
        assert(!done(catalog, after, inner, row));
        if namespace.len() > 0 {
            let path = split(namespace);
            let t = descriptor(catalog, row);
            lemma_split_segments(namespace);
            lemma_join_split(namespace);
            assert(path.take(0) =~= Seq::<Seq<char>>::empty());
            lemma_inserted_wf(after.tree, path, 0, t);
            lemma_inserted_drawn(after.tree, path, 0, t, catalog);
            assert forall|r: usize|
                #[trigger] next.tree.count(r) == if done(catalog, next, open, r)
                    && catalog[r as int].namespace.len() > 0 {
                    1nat
                } else {
                    0nat
                } by {
                lemma_inserted_count(after.tree, path, 0, t, r);
                assert(after.tree.count(r) == if done(catalog, after, inner, r)
                    && catalog[r as int].namespace.len() > 0 {
                    1nat
                } else {
                    0nat
                });
            }
        } else {
            assert forall|r: usize|
                #[trigger] next.tree.count(r) == if done(catalog, next, open, r)
                    && catalog[r as int].namespace.len() > 0 {
                    1nat
                } else {
                    0nat
                } by {
                assert(after.tree.count(r) == if done(catalog, after, inner, r)
                    && catalog[r as int].namespace.len() > 0 {
                    1nat
                } else {
                    0nat
                });
            }
        }
        assert forall|r: usize, i: int|
            done(catalog, next, open, r) && 0 <= i < catalog[r as int].dependencies.len()
                && catalog[r as int].dependencies[i] < catalog.len() implies next.visited.contains(
            #[trigger] catalog[r as int].dependencies[i],
        ) by {
            if r == row {
                assert(after.visited.contains(deps[i]));
            } else {
                assert(done(catalog, after, inner, r));
            }
        }
    }
}

/// A traversal from several rows keeps what holds between steps, enters
/// those rows, and enters nothing outside a closed set that holds them and
/// what was entered before.
pub proof fn lemma_visit_each_settled(
    catalog: Seq<TypeDefView>,
    state: BuildState,
    rows: Seq<usize>,
    from: int,
    open: Set<usize>,
    within: Set<usize>,
)
    requires
        0 <= from <= rows.len(),
        settled(catalog, state, open),
        closed(catalog, within),
        state.visited.subset_of(within),
        forall|i: int| 0 <= i < rows.len() && rows[i] < catalog.len() ==> within.contains(
            #[trigger] rows[i],
        ),
    ensures
        settled(catalog, visit_each(catalog, state, rows, from), open),
        visit_each(catalog, state, rows, from).visited.subset_of(within),
        state.visited.subset_of(visit_each(catalog, state, rows, from).visited),
        forall|i: int|
            from <= i < rows.len() && rows[i] < catalog.len() ==> visit_each(
                catalog,
                state,
                rows,
                from,
            ).visited.contains(#[trigger] rows[i]),
    decreases unvisited(catalog.len(), state.visited), 1nat, rows.len() - from,
{
    if from < rows.len() {
        let next = visit(catalog, state, rows[from]);
        lemma_visit_keeps(catalog, state, rows[from]);
        lemma_visit_settled(catalog, state, rows[from], open, within);
        lemma_visit_each_settled(catalog, next, rows, from + 1, open, within);
    }
}

/// The tree of a request is in order and drawn from the catalog, and it
/// holds exactly the types that the request asks for or that one of those
/// depends on, directly or through other types, as far as they have a
/// namespace: each of them once, and nothing else.
pub proof fn lemma_build_closure(catalog: Seq<TypeDefView>, limits: Seq<NamespaceTypesView>)
    requires
        requested(catalog, limits, 0) is Ok,
    ensures
        build(catalog, limits) is Ok,
        build(catalog, limits)->Ok_0.wf(),
        build(catalog, limits)->Ok_0.drawn_from(catalog),
        forall|row: usize|
            #[trigger] build(catalog, limits)->Ok_0.count(row) == if in_closure(
                catalog,
                requested(catalog, limits, 0)->Ok_0,
                row,
            ) && catalog[row as int].namespace.len() > 0 {
                1nat
            } else {
                0nat
            },
{
    let roots = requested(catalog, limits, 0)->Ok_0;
    let none = Set::<usize>::empty();
    let all = Set::<usize>::new(|row: usize| true);
    let last = visit_each(catalog, start(), roots, 0);
    assert(settled(catalog, start(), none)) by {
        assert(start().tree.wf()) by {
            assert(join(Seq::<Seq<char>>::empty()) =~= Seq::<char>::empty());
        }
        assert forall|row: usize| #[trigger] start().tree.count(row) == 0 by {}
    }
    lemma_visit_each_settled(catalog, start(), roots, 0, none, all);
    assert(closed(catalog, last.visited)) by {
        assert forall|row: usize, i: int|
            last.visited.contains(row) && row < catalog.len() && 0 <= i
                < catalog[row as int].dependencies.len() && catalog[row as int].dependencies[i]
                < catalog.len() implies last.visited.contains(
            #[trigger] catalog[row as int].dependencies[i],
        ) by {
            assert(done(catalog, last, none, row));
        }
    }
    assert(holds(catalog, last.visited, roots));
    assert forall|row: usize| row < catalog.len() implies last.visited.contains(row) == in_closure(
        catalog,
        roots,
        row,
    ) by {
        if last.visited.contains(row) {
            assert forall|rows: Set<usize>|
                closed(catalog, rows) && #[trigger] holds(catalog, rows, roots) implies rows.contains(
                row,
            ) by {
                lemma_visit_each_settled(catalog, start(), roots, 0, none, rows);
            }
        }
    }
    assert forall|row: usize|
        #[trigger] last.tree.count(row) == if in_closure(catalog, roots, row)
            && catalog[row as int].namespace.len() > 0 {
            1nat
        } else {
            0nat
        } by {
        assert(done(catalog, last, none, row) == (row < catalog.len() && last.visited.contains(
            row,
        )));
    }
}

/// No identity stands more than once in the tree of a request, in however
/// many ways the requested types come to depend on a type.
pub proof fn lemma_build_distinct(catalog: Seq<TypeDefView>, limits: Seq<NamespaceTypesView>)
    requires
        build(catalog, limits) is Ok,
    ensures
        build(catalog, limits)->Ok_0.distinct(),
{
    lemma_build_closure(catalog, limits);
    let tree = build(catalog, limits)->Ok_0;
    assert forall|row: usize| tree.count(row) <= 1 by {}
}

/// In the tree of a request, the node that a path of segments leads to is
/// named by those segments, joined with dots, and every type that the node
/// holds belongs to the namespace of that name.
pub proof fn lemma_build_paths(
    catalog: Seq<TypeDefView>,
    limits: Seq<NamespaceTypesView>,
    path: Seq<Seq<char>>,
)
    requires
        build(catalog, limits) is Ok,
        build(catalog, limits)->Ok_0.node_at(path) is Some,
    ensures
        ({
            let node = build(catalog, limits)->Ok_0.node_at(path)->Some_0;
            &&& node.namespace == join(path)
            &&& forall|i: int|
                0 <= i < node.types.len() ==> (#[trigger] node.types[i]).namespace == join(path)
        }),
{
    lemma_build_closure(catalog, limits);
    let tree = build(catalog, limits)->Ok_0;
    lemma_node_at_wf(tree, Seq::empty(), path);
    assert(Seq::<Seq<char>>::empty() + path =~= path);
}

/// Whether the catalog holds every type that the limits from the one at
/// `from` on ask for by name.
pub open spec fn known(catalog: Seq<TypeDefView>, limits: Seq<NamespaceTypesView>, from: int) -> bool {
    forall|i: int, j: int|
        from <= i < limits.len() && limits[i].limit is Named && 0 <= j
            < limits[i].limit->Named_0.len() ==> (#[trigger] resolve(
            catalog,
            limits[i].namespace,
            limits[i].limit->Named_0[j],
        )) is Some
}

/// The names of one limit resolve as a whole exactly if each of them does.
pub proof fn lemma_named_rows_known(
    catalog: Seq<TypeDefView>,
    namespace: Seq<char>,
    names: Seq<Seq<char>>,
    from: int,
)
    requires
        0 <= from,
    ensures
        named_rows(catalog, namespace, names, from) is Ok <==> forall|j: int|
            from <= j < names.len() ==> (#[trigger] resolve(catalog, namespace, names[j])) is Some,
    decreases names.len() - from,
{
    if from < names.len() {
        lemma_named_rows_known(catalog, namespace, names, from + 1);
    }
}

/// A request has a tree exactly if the catalog holds every type that it
/// asks for by name.
pub proof fn lemma_requested_known(
    catalog: Seq<TypeDefView>,
    limits: Seq<NamespaceTypesView>,
    from: int,
)
    requires
        0 <= from,
    ensures
        requested(catalog, limits, from) is Ok <==> known(catalog, limits, from),
    decreases limits.len() - from,
{
    if from < limits.len() {
        lemma_requested_known(catalog, limits, from + 1);
        let limit = limits[from];
        if limit.limit is Named {
            lemma_named_rows_known(catalog, limit.namespace, limit.limit->Named_0, 0);
        }
        if known(catalog, limits, from + 1) && limit_rows(catalog, limit) is Ok {
            assert forall|i: int, j: int|
                from <= i < limits.len() && limits[i].limit is Named && 0 <= j
                    < limits[i].limit->Named_0.len() implies (#[trigger] resolve(
                catalog,
                limits[i].namespace,
                limits[i].limit->Named_0[j],
            )) is Some by {
                if i == from {
                } else {
                    assert(from + 1 <= i);
                }
            }
        }
        if known(catalog, limits, from) {
            assert forall|i: int, j: int|
                from + 1 <= i < limits.len() && limits[i].limit is Named && 0 <= j
                    < limits[i].limit->Named_0.len() implies (#[trigger] resolve(
                catalog,
                limits[i].namespace,
                limits[i].limit->Named_0[j],
            )) is Some by {}
            if limit.limit is Named {
                assert forall|j: int| 0 <= j < limit.limit->Named_0.len() implies (#[trigger] resolve(
                    catalog,
                    limit.namespace,
                    limit.limit->Named_0[j],
                )) is Some by {
                    assert(limits[from].limit->Named_0[j] == limit.limit->Named_0[j]);
                }
            }
        }
    }
}

/// What a request emits: the fragments of its tree.
pub open spec fn emitted(catalog: Seq<TypeDefView>, limits: Seq<NamespaceTypesView>) -> Result<
    Seq<FragmentView>,
    UnknownTypeView,
> {
    match build(catalog, limits) {
        Ok(tree) => Ok(tree.fragments()),
        Err(unknown) => Err(unknown),
    }
}

/// The same catalog and the same request always give the same tree and the
/// same fragments: two trees that were built for them are equal, and so is
/// what they emit.
pub proof fn lemma_deterministic(
    catalog: Seq<TypeDefView>,
    limits: Seq<NamespaceTypesView>,
    first: TreeView,
    second: TreeView,
)
    requires
        build(catalog, limits) == Ok::<TreeView, UnknownTypeView>(first),
        build(catalog, limits) == Ok::<TreeView, UnknownTypeView>(second),
    ensures
        first == second,
        first.fragments() == second.fragments(),
        emitted(catalog, limits) == Ok::<Seq<FragmentView>, UnknownTypeView>(first.fragments()),
{
}

} // verus!
