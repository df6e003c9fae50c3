//! What the emitter hands out, and how a type is referred to in it.

use crate::names::{snake, split, split_namespace, to_snake};
use crate::reader::{ElementType, ElementTypeView};
use vstd::prelude::*;
use vstd::string::StringExecFns;

verus! {

/// How references to a type are written: in full from the root, or as seen
/// from inside the module of a namespace.
#[derive(Debug, PartialEq, Eq)]
pub enum Gen {
    Absolute,
    Relative(String),
}

pub enum GenView {
    Absolute,
    Relative(Seq<char>),
}

impl View for Gen {
    type V = GenView;

    open spec fn view(&self) -> GenView {
        match self {
            Gen::Absolute => GenView::Absolute,
            Gen::Relative(namespace) => GenView::Relative(namespace@),
        }
    }
}

impl Clone for Gen {
    fn clone(&self) -> (copy: Self)
        ensures
            copy@ == self@,
    {
        match self {
            Gen::Absolute => Gen::Absolute,
            Gen::Relative(namespace) => Gen::Relative(namespace.clone()),
        }
    }
}

/// One piece of the emitted source. A type is handed on with the way its
/// references are to be written. A module wraps what its namespace holds:
/// it stands for `#[allow(..)] pub mod name { .. }`, with the lints of
/// `allow` switched off for all that is inside.
#[derive(Debug, PartialEq, Eq)]
pub enum Fragment {
    Type { def: ElementType, gen: Gen },
    Module { name: String, allow: Vec<String>, tokens: Vec<Fragment> },
}

pub enum FragmentView {
    Type { def: ElementTypeView, gen: GenView },
    Module { name: Seq<char>, allow: Seq<Seq<char>>, tokens: Seq<FragmentView> },
}

/// The lints that are switched off inside every emitted module. Emitted
/// names keep the spelling of the catalog, and not everything that is
/// emitted is used.
pub open spec fn allowed() -> Seq<Seq<char>> {
    seq!["unused_variables"@, "non_upper_case_globals"@, "non_snake_case"@]
}

/// The lints that are switched off inside every emitted module.
pub fn allowed_lints() -> (lints: Vec<String>)
    ensures
        lints.deep_view() == allowed(),
{
    let mut lints: Vec<String> = Vec::new();
    lints.push(String::from_str("unused_variables"));
    lints.push(String::from_str("non_upper_case_globals"));
    lints.push(String::from_str("non_snake_case"));
    assert(lints.deep_view() =~= allowed());
    lints
}

impl Fragment {
    /// The views of a sequence of fragments, one for one.
    pub open spec fn views(fragments: Seq<Fragment>) -> Seq<FragmentView> {
        Seq::new(fragments.len(), |i: int| fragments[i]@)
    }
}

impl Fragment {
    /// The fragment as a value.
    pub open spec fn view(&self) -> FragmentView
        decreases self,
    {
        match self {
            Fragment::Type { def, gen } => FragmentView::Type { def: def@, gen: gen@ },
            Fragment::Module { name, allow, tokens } => FragmentView::Module {
                name: name@,
                allow: allow.deep_view(),
                tokens: Seq::new(
                    tokens@.len(),
                    |i: int|
                        if 0 <= i < tokens@.len() {
                            tokens@[i]@
                        } else {
                            arbitrary()
                        },
                ),
            },
        }
    }
}

/// The segments of the path that leads from the root to a namespace. The
/// empty namespace is the root itself.
pub open spec fn path_of(namespace: Seq<char>) -> Seq<Seq<char>> {
    if namespace.len() == 0 {
        Seq::empty()
    } else {
        split(namespace)
    }
}

/// The number of leading segments that two paths share.
pub open spec fn shared(a: Seq<Seq<char>>, b: Seq<Seq<char>>) -> int
    decreases a.len(),
{
    if a.len() > 0 && b.len() > 0 && a[0] == b[0] {
        1 + shared(a.skip(1), b.skip(1))
    } else {
        0
    }
}

/// The path token that steps out of a module.
pub open spec fn parent_token() -> Seq<char> {
    seq!['s', 'u', 'p', 'e', 'r']
}

/// What stands between two tokens of a path.
pub open spec fn separator() -> Seq<char> {
    seq![' ', ':', ':', ' ']
}

/// The module path written in front of a type of `namespace`. In full it
/// names the module of every segment. Seen from another namespace it first
/// steps out of that namespace's modules as far as the two paths differ,
/// and names the rest. A type without a namespace has no path.
pub open spec fn leading_path(gen: GenView, namespace: Seq<char>) -> Seq<Seq<char>> {
    if namespace.len() == 0 {
        Seq::empty()
    } else {
        match gen {
            GenView::Absolute => split(namespace).map_values(|segment: Seq<char>| snake(segment)),
            GenView::Relative(from) => {
                let here = path_of(from);
                let there = split(namespace);
                let k = shared(here, there);
                Seq::new((here.len() - k) as nat, |i: int| parent_token()) + there.skip(
                    k,
                ).map_values(|segment: Seq<char>| snake(segment))
            },
        }
    }
}

/// The text of a path: each token followed by the separator.
pub open spec fn path_text(tokens: Seq<Seq<char>>) -> Seq<char>
    decreases tokens.len(),
{
    if tokens.len() == 0 {
        Seq::empty()
    } else {
        path_text(tokens.drop_last()) + tokens.last() + separator()
    }
}

/// The written reference to the type called `name` in `namespace`.
pub open spec fn reference(gen: GenView, namespace: Seq<char>, name: Seq<char>) -> Seq<char> {
    path_text(leading_path(gen, namespace)) + name
}

/// Two paths that agree on their first `k` segments share those and what
/// the rest of them shares.
proof fn lemma_shared_skip(a: Seq<Seq<char>>, b: Seq<Seq<char>>, k: int)
    requires
        0 <= k <= a.len(),
        k <= b.len(),
        a.take(k) == b.take(k),
    ensures
        shared(a, b) == k + shared(a.skip(k), b.skip(k)),
    decreases k,
{
    if k > 0 {
        assert(a[0] == a.take(k)[0]);
        assert(b[0] == b.take(k)[0]);
        assert(a.skip(1).take(k - 1) =~= a.take(k).skip(1));
        assert(b.skip(1).take(k - 1) =~= b.take(k).skip(1));
        lemma_shared_skip(a.skip(1), b.skip(1), k - 1);
        assert(a.skip(1).skip(k - 1) =~= a.skip(k));
        assert(b.skip(1).skip(k - 1) =~= b.skip(k));
    } else {
        assert(a.skip(0) =~= a);
        assert(b.skip(0) =~= b);
    }
}

/// The number of leading segments that two paths share.
fn shared_segments(here: &Vec<String>, there: &Vec<String>) -> (k: usize)
    ensures
        k == shared(here.deep_view(), there.deep_view()),
        k <= here.len(),
        k <= there.len(),
{
    let mut k: usize = 0;
    while k < here.len() && k < there.len() && here[k] == there[k]
        invariant
            k <= here.len(),
            k <= there.len(),
            here.deep_view().take(k as int) == there.deep_view().take(k as int),
        decreases here.len() - k,
    {
        assert(here.deep_view().take(k + 1) =~= here.deep_view().take(k as int).push(
            here[k as int]@,
        ));
        assert(there.deep_view().take(k + 1) =~= there.deep_view().take(k as int).push(
            there[k as int]@,
        ));
        k += 1;
    }
    proof {
        lemma_shared_skip(here.deep_view(), there.deep_view(), k as int);
        let a = here.deep_view().skip(k as int);
        let b = there.deep_view().skip(k as int);
        if k < here.len() && k < there.len() {
            assert(a[0] == here[k as int]@);
            assert(b[0] == there[k as int]@);
        }
    }
    k
}

impl ElementType {
    /// Writes the reference to the type.
    pub fn gen_name(&self, gen: &Gen) -> (text: String)
        ensures
            text@ == reference(gen@, self@.namespace, self@.name),
    {
        let mut text = String::new();
        let ghost mut tokens: Seq<Seq<char>> = Seq::empty();
        proof {
            reveal_strlit("super");
            reveal_strlit(" :: ");
            assert("super"@ =~= parent_token());
            assert(" :: "@ =~= separator());
        }
        if !self.namespace.as_str().is_empty() {
            let there = split_namespace(self.namespace.as_str());
            let mut from: usize = 0;
            match gen {
                Gen::Absolute => {
                    assert(there.deep_view().skip(0) =~= there.deep_view());
                },
                Gen::Relative(base) => {
                    let here = if base.as_str().is_empty() {
                        Vec::new()
                    } else {
                        split_namespace(base.as_str())
                    };
                    assert(here.deep_view() =~= path_of(base@));
                    from = shared_segments(&here, &there);
                    let mut i: usize = from;
                    while i < here.len()
                        invariant
                            from <= i <= here.len(),
                            "super"@ == parent_token(),
                            " :: "@ == separator(),
                            tokens == Seq::new((i - from) as nat, |j: int| parent_token()),
                            text@ == path_text(tokens),
                        decreases here.len() - i,
                    {
                        text.append("super");
                        text.append(" :: ");
                        proof {
                            let longer = Seq::new((i + 1 - from) as nat, |j: int| parent_token());
                            assert(longer.drop_last() =~= tokens);
                            tokens = longer;
                        }
                        i += 1;
                    }
                },
            }
            let ghost front = tokens;
            let mut i: usize = from;
            while i < there.len()
                invariant
                    from <= i <= there.len(),
                    " :: "@ == separator(),
                    tokens == front + there.deep_view().subrange(from as int, i as int).map_values(
                        |segment: Seq<char>| snake(segment),
                    ),
                    text@ == path_text(tokens),
                decreases there.len() - i,
            {
                let module = to_snake(there[i].as_str());
                text.append(module.as_str());
                text.append(" :: ");
                proof {
                    let longer = front + there.deep_view().subrange(
                        from as int,
                        i + 1,
                    ).map_values(|segment: Seq<char>| snake(segment));
                    assert(longer.drop_last() =~= tokens);
                    assert(longer.last() == module@);
                    tokens = longer;
                }
                i += 1;
            }
            assert(there.deep_view().subrange(from as int, there.len() as int)
                =~= there.deep_view().skip(from as int));
        }
        assert(tokens =~= leading_path(gen@, self@.namespace));
        text.append(self.name.as_str());
        text
    }
}

} // verus!
