//! Dotted namespaces: their segments, and the module names made from them.

use crate::text::{is_lower, is_upper, lower, to_lower};
use vstd::prelude::*;
use vstd::std_specs::iter::IteratorSpec;
use vstd::string::StringExecFns;

verus! {

/// The segments of a dotted namespace, from left to right. The dots are the
/// only separators, so a namespace without a dot is its own single segment,
/// and the empty namespace is one empty segment.
pub open spec fn split(namespace: Seq<char>) -> Seq<Seq<char>>
    decreases namespace.len(),
{
    if namespace.len() == 0 {
        seq![Seq::empty()]
    } else {
        let head = split(namespace.drop_last());
        if namespace.last() == '.' {
            head.push(Seq::empty())
        } else {
            head.drop_last().push(head.last().push(namespace.last()))
        }
    }
}

/// The segments put together again, with one dot between neighbours. No
/// segment at all gives the empty namespace.
pub open spec fn join(path: Seq<Seq<char>>) -> Seq<char>
    decreases path.len(),
{
    if path.len() == 0 {
        Seq::empty()
    } else if path.len() == 1 {
        path[0]
    } else {
        join(path.drop_last()) + seq!['.'] + path.last()
    }
}

/// Whether no segment of `path` holds a dot.
pub open spec fn dotless(path: Seq<Seq<char>>) -> bool {
    forall|i: int, j: int| 0 <= i < path.len() && 0 <= j < path[i].len() ==> path[i][j] != '.'
}

/// A namespace always has at least one segment, and no segment holds a dot.
pub proof fn lemma_split_segments(namespace: Seq<char>)
    ensures
        split(namespace).len() >= 1,
        dotless(split(namespace)),
    decreases namespace.len(),
{
    if namespace.len() > 0 {
        lemma_split_segments(namespace.drop_last());
    }
}

/// Joining the segments of a namespace gives the namespace back.
pub proof fn lemma_join_split(namespace: Seq<char>)
    ensures
        join(split(namespace)) == namespace,
    decreases namespace.len(),
{
    if namespace.len() == 0 {
        assert(join(split(namespace)) =~= namespace);
    } else {
        let front = namespace.drop_last();
        let head = split(front);
        lemma_join_split(front);
        lemma_split_segments(front);
        if namespace.last() == '.' {
            let all = head.push(Seq::empty());
            assert(all.drop_last() =~= head);
            assert(join(all) =~= front + seq!['.']);
            assert(front + seq!['.'] =~= namespace);
        } else {
            let last = head.last().push(namespace.last());
            let all = head.drop_last().push(last);
            if head.len() == 1 {
                assert(join(all) == last);
                assert(last =~= namespace);
            } else {
                assert(all.drop_last() =~= head.drop_last());
                assert(join(all) =~= join(head.drop_last()) + seq!['.'] + head.last() + seq![
                    namespace.last(),
                ]);
                assert(join(head) + seq![namespace.last()] =~= namespace);
            }
        }
    }
}

/// The name of the module that holds a namespace segment: the segment in
/// lower case, with an underscore wherever an upper-case letter follows a
/// lower-case one.
pub open spec fn snake(name: Seq<char>) -> Seq<char>
    decreases name.len(),
{
    if name.len() == 0 {
        Seq::empty()
    } else {
        let head = snake(name.drop_last());
        let c = name.last();
        if name.len() >= 2 && is_upper(c) && is_lower(name[name.len() - 2]) {
            head.push('_').push(lower(c))
        } else {
            head.push(lower(c))
        }
    }
}

/// Splits a namespace at its dots.
pub fn split_namespace(namespace: &str) -> (path: Vec<String>)
    ensures
        path.deep_view() == split(namespace@),
{
    let mut path: Vec<String> = Vec::new();
    let mut segment = String::new();
    for c in it: namespace.chars()
        invariant
            it.seq() == namespace@,
            path.deep_view().push(segment@) == split(namespace@.take(it.index())),
    {
        let ghost k = it.index();
        let ghost before = path.deep_view().push(segment@);
        assert(namespace@.take(k + 1).drop_last() =~= namespace@.take(k));
        if c == '.' {
            path.push(segment);
            segment = String::new();
            assert(path.deep_view() =~= before);
        } else {
            segment.push(c);
            assert(path.deep_view().push(segment@) =~= before.drop_last().push(
                before.last().push(c),
            ));
        }
    }
    assert(namespace@.take(namespace@.len() as int) =~= namespace@);
    let ghost before = path.deep_view().push(segment@);
    path.push(segment);
    assert(path.deep_view() =~= before);
    path
}

/// Joins the first `n` segments of `path`.
pub(crate) fn join_prefix(path: &Vec<String>, n: usize) -> (namespace: String)
    requires
        n <= path.len(),
    ensures
        namespace@ == join(path.deep_view().take(n as int)),
{
    let mut namespace = String::new();
    let mut i: usize = 0;
    while i < n
        invariant
            i <= n <= path.len(),
            namespace@ == join(path.deep_view().take(i as int)),
        decreases n - i,
    {
        let ghost front = path.deep_view().take(i as int);
        let ghost next = path.deep_view().take(i + 1);
        assert(next.drop_last() =~= front);
        assert(next.last() == path[i as int]@);
        if i > 0 {
            namespace.push('.');
        }
        namespace.append(path[i].as_str());
        assert(namespace@ =~= join(next));
        i += 1;
    }
    namespace
}

/// The module name of a namespace segment.
pub fn to_snake(name: &str) -> (module: String)
    ensures
        module@ == snake(name@),
{
    let mut module = String::new();
    let mut after_lower = false;
    for c in it: name.chars()
        invariant
            it.seq() == name@,
            module@ == snake(name@.take(it.index())),
            after_lower == (it.index() > 0 && is_lower(name@[it.index() - 1])),
    {
        let ghost k = it.index();
        assert(name@.take(k + 1).drop_last() =~= name@.take(k));
        if after_lower && 'A' <= c && c <= 'Z' {
            module.push('_');
        }
        module.push(to_lower(c));
        after_lower = 'a' <= c && c <= 'z';
    }
    assert(name@.take(name@.len() as int) =~= name@);
    module
}

} // verus!
