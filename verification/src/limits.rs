//! What a request asks for.

use vstd::prelude::*;

verus! {

/// Which types of a namespace are wanted: all of them, or the named ones.
#[derive(Debug, PartialEq, Eq)]
pub enum TypeLimit {
    All,
    Named(Vec<String>),
}

pub enum TypeLimitView {
    All,
    Named(Seq<Seq<char>>),
}

impl View for TypeLimit {
    type V = TypeLimitView;

    open spec fn view(&self) -> TypeLimitView {
        match self {
            TypeLimit::All => TypeLimitView::All,
            TypeLimit::Named(names) => TypeLimitView::Named(names.deep_view()),
        }
    }
}

/// The limit for one namespace.
#[derive(Debug, PartialEq, Eq)]
pub struct NamespaceTypes {
    pub namespace: String,
    pub limit: TypeLimit,
}

pub struct NamespaceTypesView {
    pub namespace: Seq<char>,
    pub limit: TypeLimitView,
}

impl View for NamespaceTypes {
    type V = NamespaceTypesView;

    open spec fn view(&self) -> NamespaceTypesView {
        NamespaceTypesView { namespace: self.namespace@, limit: self.limit@ }
    }
}

/// The whole request: the limits in the order in which they were made.
/// Nothing is merged or left out, so a limit made twice stands twice.
#[derive(Debug)]
pub struct TypeLimits {
    pub inner: Vec<NamespaceTypes>,
}

impl View for TypeLimits {
    type V = Seq<NamespaceTypesView>;

    open spec fn view(&self) -> Seq<NamespaceTypesView> {
        Seq::new(self.inner@.len(), |i: int| self.inner@[i]@)
    }
}

impl TypeLimits {
    /// A request that asks for nothing.
    pub fn new() -> (limits: Self)
        ensures
            limits@ == Seq::<NamespaceTypesView>::empty(),
    {
        let limits = TypeLimits { inner: Vec::new() };
        assert(limits@ =~= Seq::<NamespaceTypesView>::empty());
        limits
    }

    /// Adds a limit at the end of the request.
    pub fn insert(&mut self, limit: NamespaceTypes)
        ensures
            final(self)@ == old(self)@.push(limit@),
    {
        self.inner.push(limit);
        assert(self@ =~= old(self)@.push(limit@));
    }

    /// The limits of the request, in order.
    pub fn limits(&self) -> (limits: &Vec<NamespaceTypes>)
        ensures
            limits@.len() == self@.len(),
            forall|i: int| 0 <= i < limits@.len() ==> limits@[i]@ == self@[i],
    {
        &self.inner
    }
}

} // verus!
