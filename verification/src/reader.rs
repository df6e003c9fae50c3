//! The catalog of type definitions, and the descriptors it hands out.

use vstd::prelude::*;
use vstd::string::StringExecFns;

verus! {

/// One entry of the catalog: where the type lives, what it is called, and
/// the rows of the types that its definition mentions.
pub struct TypeDef {
    pub namespace: String,
    pub name: String,
    pub dependencies: Vec<usize>,
}

pub struct TypeDefView {
    pub namespace: Seq<char>,
    pub name: Seq<char>,
    pub dependencies: Seq<usize>,
}

impl View for TypeDef {
    type V = TypeDefView;

    open spec fn view(&self) -> TypeDefView {
        TypeDefView {
            namespace: self.namespace@,
            name: self.name@,
            dependencies: self.dependencies@,
        }
    }
}

/// A descriptor of one type of the catalog. The row is the type's identity:
/// two descriptors with the same row stand for the same type.
#[derive(Debug, PartialEq, Eq)]
pub struct ElementType {
    pub row: usize,
    pub namespace: String,
    pub name: String,
}

pub struct ElementTypeView {
    pub row: usize,
    pub namespace: Seq<char>,
    pub name: Seq<char>,
}

impl View for ElementType {
    type V = ElementTypeView;

    open spec fn view(&self) -> ElementTypeView {
        ElementTypeView { row: self.row, namespace: self.namespace@, name: self.name@ }
    }
}

impl DeepView for ElementType {
    type V = ElementTypeView;

    open spec fn deep_view(&self) -> ElementTypeView {
        self@
    }
}

impl Clone for ElementType {
    fn clone(&self) -> (copy: Self)
        ensures
            copy@ == self@,
    {
        ElementType { row: self.row, namespace: self.namespace.clone(), name: self.name.clone() }
    }
}

impl ElementType {
    /// The identity of the type.
    pub fn row(&self) -> (row: usize)
        ensures
            row == self@.row,
    {
        self.row
    }

    /// The namespace that the type belongs to.
    pub fn namespace(&self) -> (namespace: &str)
        ensures
            namespace@ == self@.namespace,
    {
        self.namespace.as_str()
    }

    /// The name of the type within its namespace.
    pub fn name(&self) -> (name: &str)
        ensures
            name@ == self@.name,
    {
        self.name.as_str()
    }
}

/// A requested type that the catalog does not hold.
#[derive(Debug, PartialEq, Eq)]
pub struct UnknownType {
    pub namespace: String,
    pub name: String,
}

pub struct UnknownTypeView {
    pub namespace: Seq<char>,
    pub name: Seq<char>,
}

impl View for UnknownType {
    type V = UnknownTypeView;

    open spec fn view(&self) -> UnknownTypeView {
        UnknownTypeView { namespace: self.namespace@, name: self.name@ }
    }
}

/// The descriptor that the catalog gives for `row`.
pub open spec fn descriptor(catalog: Seq<TypeDefView>, row: usize) -> ElementTypeView {
    ElementTypeView {
        row,
        namespace: catalog[row as int].namespace,
        name: catalog[row as int].name,
    }
}

/// The rows below `n` whose type lives in `namespace`, in ascending order.
pub open spec fn rows_in(catalog: Seq<TypeDefView>, namespace: Seq<char>, n: int) -> Seq<usize>
    decreases n,
{
    if n <= 0 {
        Seq::empty()
    } else {
        let head = rows_in(catalog, namespace, n - 1);
        if n <= catalog.len() && catalog[n - 1].namespace == namespace {
            head.push((n - 1) as usize)
        } else {
            head
        }
    }
}

/// The lowest row below `n` whose type is called `name` and lives in
/// `namespace`, if there is one.
pub open spec fn first_match(
    catalog: Seq<TypeDefView>,
    namespace: Seq<char>,
    name: Seq<char>,
    n: int,
) -> Option<usize>
    decreases n,
{
    if n <= 0 {
        None
    } else {
        match first_match(catalog, namespace, name, n - 1) {
            Some(row) => Some(row),
            None => if n <= catalog.len() && catalog[n - 1].namespace == namespace && catalog[n
                - 1].name == name {
                Some((n - 1) as usize)
            } else {
                None
            },
        }
    }
}

/// The row of the type called `name` in `namespace`: the lowest one, where
/// the catalog holds the name more than once.
pub open spec fn resolve(catalog: Seq<TypeDefView>, namespace: Seq<char>, name: Seq<char>) -> Option<
    usize,
> {
    first_match(catalog, namespace, name, catalog.len() as int)
}

/// `resolve` finds a row exactly where some type of the catalog has the
/// name and the namespace, and then it is the lowest such row.
pub proof fn lemma_first_match(
    catalog: Seq<TypeDefView>,
    namespace: Seq<char>,
    name: Seq<char>,
    n: int,
)
    requires
        n <= catalog.len() <= usize::MAX,
    ensures
        match first_match(catalog, namespace, name, n) {
            Some(row) => {
                &&& row < n
                &&& catalog[row as int].namespace == namespace
                &&& catalog[row as int].name == name
                &&& forall|r: int|
                    0 <= r < row ==> !(catalog[r].namespace == namespace && catalog[r].name == name)
            },
            None => forall|r: int|
                0 <= r < n ==> !(catalog[r].namespace == namespace && catalog[r].name == name),
        },
    decreases n,
{
    if n > 0 {
        lemma_first_match(catalog, namespace, name, n - 1);
    }
}

/// The catalog: every type definition that a request can name, each under
/// the row at which it was entered.
pub struct TypeReader {
    pub types: Vec<TypeDef>,
}

impl View for TypeReader {
    type V = Seq<TypeDefView>;

    open spec fn view(&self) -> Seq<TypeDefView> {
        Seq::new(self.types@.len(), |i: int| self.types@[i]@)
    }
}

impl TypeReader {
    /// A catalog without types.
    pub fn new() -> (reader: Self)
        ensures
            reader@ == Seq::<TypeDefView>::empty(),
    {
        let reader = TypeReader { types: Vec::new() };
        assert(reader@ =~= Seq::<TypeDefView>::empty());
        reader
    }

    /// The number of types.
    pub fn len(&self) -> (n: usize)
        ensures
            n == self@.len(),
    {
        self.types.len()
    }

    /// Enters a type without dependencies and gives its row.
    pub fn insert(&mut self, namespace: &str, name: &str) -> (row: usize)
        ensures
            row == old(self)@.len(),
            final(self)@ == old(self)@.push(
                TypeDefView { namespace: namespace@, name: name@, dependencies: Seq::empty() },
            ),
    {
        let row = self.types.len();
        self.types.push(
            TypeDef {
                namespace: String::from_str(namespace),
                name: String::from_str(name),
                dependencies: Vec::new(),
            },
        );
        assert(self@ =~= old(self)@.push(
            TypeDefView { namespace: namespace@, name: name@, dependencies: Seq::empty() },
        ));
        row
    }

    /// Records that the type at `row` mentions the type at `dependency`.
    /// Both must be rows of the catalog, else nothing is recorded and the
    /// answer is `false`.
    pub fn add_dependency(&mut self, row: usize, dependency: usize) -> (added: bool)
        ensures
            added == (row < old(self)@.len() && dependency < old(self)@.len()),
            added ==> final(self)@ == old(self)@.update(
                row as int,
                TypeDefView {
                    dependencies: old(self)@[row as int].dependencies.push(dependency),
                    ..old(self)@[row as int]
                },
            ),
            !added ==> final(self)@ == old(self)@,
    {
        if row < self.types.len() && dependency < self.types.len() {
            self.types[row].dependencies.push(dependency);
            assert(self@ =~= old(self)@.update(
                row as int,
                TypeDefView {
                    dependencies: old(self)@[row as int].dependencies.push(dependency),
                    ..old(self)@[row as int]
                },
            ));
            true
        } else {
            false
        }
    }

    /// The descriptor of the type at `row`, if the catalog has that row.
    pub fn element(&self, row: usize) -> (element: Option<ElementType>)
        ensures
            element is Some == (row < self@.len()),
            element matches Some(t) ==> t@ == descriptor(self@, row),
    {
        if row < self.types.len() {
            let def = &self.types[row];
            Some(ElementType { row, namespace: def.namespace.clone(), name: def.name.clone() })
        } else {
            None
        }
    }

    /// The types that live in `namespace`, in the order of their rows.
    pub fn namespace_types(&self, namespace: &str) -> (types: Vec<ElementType>)
        ensures
            types.deep_view() == rows_in(self@, namespace@, self@.len() as int).map_values(
                |row: usize| descriptor(self@, row),
            ),
    {
        let wanted = String::from_str(namespace);
        let mut types: Vec<ElementType> = Vec::new();
        let mut row: usize = 0;
        while row < self.types.len()
            invariant
                row <= self.types.len(),
                wanted@ == namespace@,
                types.deep_view() == rows_in(self@, namespace@, row as int).map_values(
                    |row: usize| descriptor(self@, row),
                ),
            decreases self.types.len() - row,
        {
            let ghost before = types.deep_view();
            let def = &self.types[row];
            if def.namespace == wanted {
                types.push(
                    ElementType { row, namespace: def.namespace.clone(), name: def.name.clone() },
                );
                assert(types.deep_view() =~= before.push(descriptor(self@, row)));
                assert(before.push(descriptor(self@, row)) =~= rows_in(
                    self@,
                    namespace@,
                    row as int,
                ).push(row).map_values(|row: usize| descriptor(self@, row)));
            }
            row += 1;
        }
        types
    }

    /// The type called `name` in `namespace`.
    pub fn resolve_type(&self, namespace: &str, name: &str) -> (found: Result<
        ElementType,
        UnknownType,
    >)
        ensures
            match found {
                Ok(t) => resolve(self@, namespace@, name@) == Some(t@.row) && t@ == descriptor(
                    self@,
                    t@.row,
                ),
                Err(e) => resolve(self@, namespace@, name@) is None && e@ == (UnknownTypeView {
                    namespace: namespace@,
                    name: name@,
                }),
            },
    {
        let wanted_namespace = String::from_str(namespace);
        let wanted_name = String::from_str(name);
        let mut row: usize = 0;
        while row < self.types.len()
            invariant
                row <= self.types.len(),
                wanted_namespace@ == namespace@,
                wanted_name@ == name@,
                first_match(self@, namespace@, name@, row as int) is None,
            decreases self.types.len() - row,
        {
            let def = &self.types[row];
            if def.namespace == wanted_namespace && def.name == wanted_name {
                proof {
                    lemma_first_match(self@, namespace@, name@, row + 1);
                    lemma_first_match(self@, namespace@, name@, self@.len() as int);
                }
                return Ok(
                    ElementType { row, namespace: def.namespace.clone(), name: def.name.clone() },
                );
            }
            row += 1;
        }
        Err(UnknownType { namespace: wanted_namespace, name: wanted_name })
    }
}

} // verus!
