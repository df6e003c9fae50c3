//! The closure of a request: the requested types and, with each type, the
//! types it depends on, every one filed once under its own namespace.

use crate::limits::{NamespaceTypes, NamespaceTypesView, TypeLimit, TypeLimitView, TypeLimits};
use crate::laws::{
    in_closure, known, lemma_build_closure, lemma_build_distinct, lemma_requested_known,
};
use crate::names::{split, split_namespace};
use crate::reader::{
    descriptor, resolve, rows_in, ElementType, TypeDefView, TypeReader, UnknownType,
    UnknownTypeView,
};
use crate::tree::{TreeView, TypeTree};
use std::collections::BTreeSet;
use vstd::prelude::*;

verus! {

/// Where a traversal stands: the rows it has entered, and the tree with the
/// types it has filed.
pub struct BuildState {
    pub visited: Set<usize>,
    pub tree: TreeView,
}

/// The number of rows below `n` that are not in `visited`.
pub open spec fn unvisited(n: nat, visited: Set<usize>) -> nat
    decreases n,
{
    if n == 0 {
        0
    } else {
        unvisited((n - 1) as nat, visited) + if visited.contains((n - 1) as usize) {
            0nat
        } else {
            1nat
        }
    }
}

/// A larger set leaves no more rows unvisited.
pub proof fn lemma_unvisited_grows(n: nat, fewer: Set<usize>, more: Set<usize>)
    requires
        fewer.subset_of(more),
    ensures
        unvisited(n, more) <= unvisited(n, fewer),
    decreases n,
{
    if n > 0 {
        lemma_unvisited_grows((n - 1) as nat, fewer, more);
    }
}

/// Entering a row that was not visited leaves fewer rows unvisited.
pub proof fn lemma_unvisited_enter(n: nat, visited: Set<usize>, row: usize)
    requires
        row < n,
        !visited.contains(row),
    ensures
        unvisited(n, visited.insert(row)) < unvisited(n, visited),
    decreases n,
{
    if n - 1 == row {
        lemma_unvisited_grows((n - 1) as nat, visited, visited.insert(row));
    } else {
        lemma_unvisited_enter((n - 1) as nat, visited, row);
    }
}

/// The tree with the type at `row` filed under its namespace. A type
/// without a namespace is not filed.
pub open spec fn filed(catalog: Seq<TypeDefView>, tree: TreeView, row: usize) -> TreeView {
    let namespace = catalog[row as int].namespace;
    if namespace.len() == 0 {
        tree
    } else {
        tree.inserted(split(namespace), 0, descriptor(catalog, row))
    }
}

/// The traversal from one row. A row that the catalog lacks, or that was
/// entered before, changes nothing: this is what ends the traversal of
/// dependencies that lead back to where they began. Any other row is
/// entered, then its dependencies are traversed in their order, and only
/// then is its type filed.
pub open spec fn visit(catalog: Seq<TypeDefView>, state: BuildState, row: usize) -> BuildState
    decreases unvisited(catalog.len(), state.visited), 0nat, 0nat,
{
    if row < catalog.len() && !state.visited.contains(row) {
        let entered = BuildState { visited: state.visited.insert(row), tree: state.tree };
        proof {
            lemma_unvisited_enter(catalog.len(), state.visited, row);
        }
        let after = visit_each(catalog, entered, catalog[row as int].dependencies, 0);
        BuildState { visited: after.visited, tree: filed(catalog, after.tree, row) }
    } else {
        state
    }
}

/// The traversal from each of `rows` in turn, beginning with the one at
/// `from`. A traversal never forgets a row that it has entered
/// (`lemma_visit_keeps`), so the test on the number of unvisited rows is
/// always met; it stands here because the definition has to end.
pub open spec fn visit_each(
    catalog: Seq<TypeDefView>,
    state: BuildState,
    rows: Seq<usize>,
    from: int,
) -> BuildState
    decreases unvisited(catalog.len(), state.visited), 1nat, rows.len() - from,
{
    if 0 <= from < rows.len() {
        let next = visit(catalog, state, rows[from]);
        if unvisited(catalog.len(), next.visited) <= unvisited(catalog.len(), state.visited) {
            visit_each(catalog, next, rows, from + 1)
        } else {
            next
        }
    } else {
        state
    }
}

/// A traversal keeps every row that was entered before it.
pub proof fn lemma_visit_keeps(catalog: Seq<TypeDefView>, state: BuildState, row: usize)
    ensures
        state.visited.subset_of(visit(catalog, state, row).visited),
        unvisited(catalog.len(), visit(catalog, state, row).visited) <= unvisited(
            catalog.len(),
            state.visited,
        ),
    decreases unvisited(catalog.len(), state.visited), 0nat, 0nat,
{
    if row < catalog.len() && !state.visited.contains(row) {
        let entered = BuildState { visited: state.visited.insert(row), tree: state.tree };
        lemma_unvisited_enter(catalog.len(), state.visited, row);
        lemma_visit_each_keeps(catalog, entered, catalog[row as int].dependencies, 0);
    }
    lemma_unvisited_grows(catalog.len(), state.visited, visit(catalog, state, row).visited);
}

/// A traversal from several rows keeps every row that was entered before.
pub proof fn lemma_visit_each_keeps(
    catalog: Seq<TypeDefView>,
    state: BuildState,
    rows: Seq<usize>,
    from: int,
)
    ensures
        state.visited.subset_of(visit_each(catalog, state, rows, from).visited),
    decreases unvisited(catalog.len(), state.visited), 1nat, rows.len() - from,
{
    if 0 <= from < rows.len() {
        let next = visit(catalog, state, rows[from]);
        lemma_visit_keeps(catalog, state, rows[from]);
        lemma_visit_each_keeps(catalog, next, rows, from + 1);
    }
}

/// A traversal from several rows and then from one more is the traversal
/// from all of them.
pub proof fn lemma_visit_each_push(
    catalog: Seq<TypeDefView>,
    state: BuildState,
    rows: Seq<usize>,
    from: int,
    row: usize,
)
    requires
        0 <= from <= rows.len(),
    ensures
        visit_each(catalog, state, rows.push(row), from) == visit(
            catalog,
            visit_each(catalog, state, rows, from),
            row,
        ),
    decreases rows.len() - from,
{
    let longer = rows.push(row);
    let next = visit(catalog, state, longer[from]);
    lemma_visit_keeps(catalog, state, longer[from]);
    if from < rows.len() {
        lemma_visit_each_push(catalog, next, rows, from + 1, row);
    } else {
        assert(visit_each(catalog, next, longer, from + 1) == next);
    }
}

/// The outcome of a step that comes after `rows` were found: the rows it
/// finds follow them, and its failure stands.
pub open spec fn after(rows: Seq<usize>, rest: Result<Seq<usize>, UnknownTypeView>) -> Result<
    Seq<usize>,
    UnknownTypeView,
> {
    match rest {
        Ok(more) => Ok(rows + more),
        Err(unknown) => Err(unknown),
    }
}

/// The rows of the types called `names` in `namespace`, name by name from
/// the one at `from` on. The first name that the catalog does not hold in
/// that namespace makes the whole fail, and is reported.
pub open spec fn named_rows(
    catalog: Seq<TypeDefView>,
    namespace: Seq<char>,
    names: Seq<Seq<char>>,
    from: int,
) -> Result<Seq<usize>, UnknownTypeView>
    decreases names.len() - from,
{
    if 0 <= from < names.len() {
        match resolve(catalog, namespace, names[from]) {
            Some(row) => after(seq![row], named_rows(catalog, namespace, names, from + 1)),
            None => Err(UnknownTypeView { namespace, name: names[from] }),
        }
    } else {
        Ok(Seq::empty())
    }
}

/// The rows that one limit asks for.
pub open spec fn limit_rows(catalog: Seq<TypeDefView>, limit: NamespaceTypesView) -> Result<
    Seq<usize>,
    UnknownTypeView,
> {
    match limit.limit {
        TypeLimitView::All => Ok(rows_in(catalog, limit.namespace, catalog.len() as int)),
        TypeLimitView::Named(names) => named_rows(catalog, limit.namespace, names, 0),
    }
}

/// The rows that the limits ask for, limit by limit from the one at `from`
/// on, or the first requested type that the catalog does not hold.
pub open spec fn requested(catalog: Seq<TypeDefView>, limits: Seq<NamespaceTypesView>, from: int) -> Result<
    Seq<usize>,
    UnknownTypeView,
>
    decreases limits.len() - from,
{
    if 0 <= from < limits.len() {
        match limit_rows(catalog, limits[from]) {
            Ok(rows) => after(rows, requested(catalog, limits, from + 1)),
            Err(unknown) => Err(unknown),
        }
    } else {
        Ok(Seq::empty())
    }
}

/// Where every traversal of a request begins: nothing entered, and a tree
/// that is a bare root.
pub open spec fn start() -> BuildState {
    BuildState { visited: Set::empty(), tree: TreeView::leaf(Seq::empty()) }
}

/// The tree for a request: the traversal from every requested row, in the
/// order of the request. A request that names a type which the catalog does
/// not hold has no tree.
pub open spec fn build(catalog: Seq<TypeDefView>, limits: Seq<NamespaceTypesView>) -> Result<
    TreeView,
    UnknownTypeView,
> {
    match requested(catalog, limits, 0) {
        Ok(rows) => Ok(visit_each(catalog, start(), rows, 0).tree),
        Err(unknown) => Err(unknown),
    }
}

/// Enters `row` in the set and says whether it was new.
fn enter(set: &mut BTreeSet<usize>, row: usize) -> (fresh: bool)
    ensures
        final(set)@ == old(set)@.insert(row),
        fresh == !old(set)@.contains(row),
{
    broadcast use vstd::laws_cmp::group_laws_cmp;

    set.insert(row)
}

impl TypeTree {
    /// Builds the tree for a request: every requested type and every type
    /// that one of them depends on, each filed once under its own
    /// namespace. The request fails as a whole on the first requested name
    /// that the catalog does not hold.
    pub fn from_limits(reader: &TypeReader, limits: &TypeLimits) -> (built: Result<
        Self,
        UnknownType,
    >)
        ensures
            match built {
                Ok(tree) => build(reader@, limits@) == Ok::<TreeView, UnknownTypeView>(tree@),
                Err(unknown) => build(reader@, limits@) == Err::<TreeView, UnknownTypeView>(
                    unknown@,
                ),
            },
            built is Ok <==> known(reader@, limits@, 0),
            built matches Ok(tree) ==> {
                &&& tree@.wf()
                &&& tree@.distinct()
                &&& tree@.drawn_from(reader@)
                &&& forall|row: usize|
                    #[trigger] tree@.count(row) == if in_closure(
                        reader@,
                        requested(reader@, limits@, 0)->Ok_0,
                        row,
                    ) && reader@[row as int].namespace.len() > 0 {
                        1nat
                    } else {
                        0nat
                    }
            },
    {
        proof {
            lemma_requested_known(reader@, limits@, 0);
            if requested(reader@, limits@, 0) is Ok {
                lemma_build_closure(reader@, limits@);
                lemma_build_distinct(reader@, limits@);
            }
        }
        let mut root = Self::from_namespace(String::new());
        let mut set: BTreeSet<usize> = BTreeSet::new();
        let ghost catalog = reader@;
        let ghost mut done: Seq<usize> = Seq::empty();
        let all = limits.limits();
        let mut n: usize = 0;
        while n < all.len()
            invariant
                n <= all.len(),
                catalog == reader@,
                all@.len() == limits@.len(),
                forall|i: int| 0 <= i < all@.len() ==> all@[i]@ == limits@[i],
                requested(catalog, limits@, 0) == after(done, requested(catalog, limits@, n as int)),
                (BuildState { visited: set@, tree: root@ }) == visit_each(
                    catalog,
                    start(),
                    done,
                    0,
                ),
            decreases all.len() - n,
        {
            let limit = &all[n];
            let ghost base = done;
            assert(limit@ == limits@[n as int]);
            match &limit.limit {
                TypeLimit::All => {
                    let types = reader.namespace_types(limit.namespace.as_str());
                    let ghost rows = rows_in(catalog, limit.namespace@, catalog.len() as int);
                    assert(types.deep_view().len() == rows.len());
                    let mut j: usize = 0;
                    while j < types.len()
                        invariant
                            j <= types.len(),
                            types.len() == rows.len(),
                            catalog == reader@,
                            types.deep_view() == rows.map_values(
                                |row: usize| descriptor(catalog, row),
                            ),
                            done == base + rows.take(j as int),
                            (BuildState { visited: set@, tree: root@ }) == visit_each(
                                catalog,
                                start(),
                                done,
                                0,
                            ),
                        decreases types.len() - j,
                    {
                        let row = types[j].row();
                        proof {
                            assert(types.deep_view()[j as int] == types[j as int]@);
                            assert(row == rows[j as int]);
                            lemma_visit_each_push(catalog, start(), done, 0, row);
                            assert(base + rows.take(j + 1) =~= done.push(row));
                            done = done.push(row);
                        }
                        root.insert_if(reader, &mut set, row);
                        j += 1;
                    }
                    proof {
                        assert(rows.take(j as int) =~= rows);
                        let rest = requested(catalog, limits@, n + 1);
                        if let Ok(more) = rest {
                            assert(base + (rows + more) =~= (base + rows) + more);
                        }
                    }
                },
                TypeLimit::Named(names) => {
                    let ghost wanted = names.deep_view();
                    let ghost mut found: Seq<usize> = Seq::empty();
                    let mut j: usize = 0;
                    while j < names.len()
                        invariant
                            j <= names.len(),
                            n < limits@.len(),
                            catalog == reader@,
                            wanted == names.deep_view(),
                            limit@ == limits@[n as int],
                            limit@.limit == TypeLimitView::Named(wanted),
                            requested(catalog, limits@, 0) == after(
                                base,
                                requested(catalog, limits@, n as int),
                            ),
                            done == base + found,
                            named_rows(catalog, limit.namespace@, wanted, 0) == after(
                                found,
                                named_rows(catalog, limit.namespace@, wanted, j as int),
                            ),
                            (BuildState { visited: set@, tree: root@ }) == visit_each(
                                catalog,
                                start(),
                                done,
                                0,
                            ),
                        decreases names.len() - j,
                    {
                        assert(wanted[j as int] == names[j as int]@);
                        let row = match reader.resolve_type(
                            limit.namespace.as_str(),
                            names[j].as_str(),
                        ) {
                            Ok(t) => t.row(),
                            Err(unknown) => {
                                return Err(unknown);
                            },
                        };
                        proof {
                            lemma_visit_each_push(catalog, start(), done, 0, row);
                            let rest = named_rows(catalog, limit.namespace@, wanted, j + 1);
                            if let Ok(more) = rest {
                                assert(found + (seq![row] + more) =~= found.push(row) + more);
                            }
                            assert(base + found.push(row) =~= done.push(row));
                            found = found.push(row);
                            done = done.push(row);
                        }
                        root.insert_if(reader, &mut set, row);
                        j += 1;
                    }
                    proof {
                        assert(found + Seq::<usize>::empty() =~= found);
                        let rest = requested(catalog, limits@, n + 1);
                        if let Ok(more) = rest {
                            assert(base + (found + more) =~= (base + found) + more);
                        }
                    }
                },
            }
            n += 1;
        }
        proof {
            assert(done + Seq::<usize>::empty() =~= done);
        }
        Ok(root)
    }

    /// Files the type at `row` and every type it depends on, directly or
    /// through others, unless `set` shows that this was done before. `set`
    /// takes the rows that were entered.
    pub fn insert_if(&mut self, reader: &TypeReader, set: &mut BTreeSet<usize>, row: usize)
        ensures
            (BuildState { visited: final(set)@, tree: final(self)@ }) == visit(
                reader@,
                BuildState { visited: old(set)@, tree: old(self)@ },
                row,
            ),
        decreases unvisited(reader@.len(), old(set)@),
    {
        let ghost catalog = reader@;
        let ghost start = BuildState { visited: set@, tree: self@ };
        if row >= reader.len() {
            return ;
        }
        if !enter(set, row) {
            assert(set@ =~= start.visited);
            return ;
        }
        let ghost entered = BuildState { visited: set@, tree: self@ };
        proof {
            lemma_unvisited_enter(catalog.len(), start.visited, row);
        }
        let def = &reader.types[row];
        assert(def@ == catalog[row as int]);
        let mut i: usize = 0;
        while i < def.dependencies.len()
            invariant
                i <= def.dependencies.len(),
                catalog == reader@,
                row < catalog.len(),
                def@ == catalog[row as int],
                unvisited(catalog.len(), set@) < unvisited(catalog.len(), old(set)@),
                visit_each(
                    catalog,
                    BuildState { visited: set@, tree: self@ },
                    def.dependencies@,
                    i as int,
                ) == visit_each(catalog, entered, def.dependencies@, 0),
            decreases def.dependencies.len() - i,
        {
            let ghost here = BuildState { visited: set@, tree: self@ };
            proof {
                lemma_visit_keeps(catalog, here, def.dependencies@[i as int]);
            }
            self.insert_if(reader, set, def.dependencies[i]);
            i += 1;
        }
        if !def.namespace.as_str().is_empty() {
            let t = ElementType { row, namespace: def.namespace.clone(), name: def.name.clone() };
            let path = split_namespace(def.namespace.as_str());
            self.insert(&path, 0, &t);
        }
    }
}

} // verus!
