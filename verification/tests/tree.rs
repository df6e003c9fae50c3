use type_tree::{Gen, NamespaceTypes, TypeLimit, TypeLimits, TypeReader, TypeTree, UnknownType};

/// A small catalog in the shape of the Windows metadata: a few namespaces
/// nested under `Windows` and `Windows.Win32`, and one type without a
/// namespace that stands for an intrinsic.
fn windows() -> TypeReader {
    let mut reader = TypeReader::new();
    let u32_ = reader.insert("", "u32");
    let flags = reader.insert("Windows.Win32.FileSystem", "FILE_ACCESS_FLAGS");
    let _handle = reader.insert("Windows.Win32.Foundation", "HANDLE");
    let _uri = reader.insert("Windows.Foundation", "Uri");
    let _create = reader.insert("Windows.Win32.FileSystem", "CreateFileW");
    assert!(reader.add_dependency(flags, u32_));
    reader
}

#[test]
fn test_tree() {
    let reader = windows();
    let mut limits = TypeLimits::new();

    limits.insert(NamespaceTypes {
        namespace: "Windows.Win32.FileSystem".to_string(),
        limit: TypeLimit::Named(vec!["FILE_ACCESS_FLAGS".to_string()]),
    });

    let tree = TypeTree::from_limits(&reader, &limits).unwrap();

    assert_eq!(tree.namespace, "");
    assert_eq!(tree.types.len(), 0);
    assert_eq!(tree.namespaces.len(), 1);

    let tree = tree.get("Windows").unwrap();

    assert_eq!(tree.namespace, "Windows");
    assert_eq!(tree.types.len(), 0);
    assert_eq!(tree.namespaces.len(), 1);

    let tree = tree.get("Win32").unwrap();

    assert_eq!(tree.namespace, "Windows.Win32");
    assert_eq!(tree.types.len(), 0);
    assert_eq!(tree.namespaces.len(), 1);

    let tree = tree.get("FileSystem").unwrap();

    assert_eq!(tree.namespace, "Windows.Win32.FileSystem");
    assert_eq!(tree.types.len(), 1);
    assert_eq!(tree.namespaces.len(), 0);

    let t = &tree.types[0];
    assert_eq!(
        t.gen_name(&Gen::Absolute).as_str(),
        "windows :: win32 :: file_system :: FILE_ACCESS_FLAGS"
    );
}

fn limit_all(namespace: &str) -> NamespaceTypes {
    NamespaceTypes { namespace: namespace.to_string(), limit: TypeLimit::All }
}

fn limit_named(namespace: &str, names: &[&str]) -> NamespaceTypes {
    NamespaceTypes {
        namespace: namespace.to_string(),
        limit: TypeLimit::Named(names.iter().map(|name| name.to_string()).collect()),
    }
}

fn request(limits: Vec<NamespaceTypes>) -> TypeLimits {
    let mut request = TypeLimits::new();
    for limit in limits {
        request.insert(limit);
    }
    request
}

/// Every row in the tree, node by node from the root, with the path of
/// segments that leads to its node.
fn rows_by_path(tree: &TypeTree, path: &mut Vec<String>, out: &mut Vec<(Vec<String>, usize)>) {
    for t in &tree.types {
        out.push((path.clone(), t.row()));
    }
    for (segment, child) in &tree.namespaces {
        path.push(segment.clone());
        rows_by_path(child, path, out);
        path.pop();
    }
}

fn rows(tree: &TypeTree) -> Vec<usize> {
    let mut out = Vec::new();
    rows_by_path(tree, &mut Vec::new(), &mut out);
    out.into_iter().map(|(_, row)| row).collect()
}

/// Checks, for every node, that it is named by the path that leads to it,
/// that its types belong to that namespace, and that its children ascend.
fn assert_in_order(tree: &TypeTree, path: &mut Vec<String>) {
    assert_eq!(tree.namespace, path.join("."));
    for t in &tree.types {
        assert_eq!(t.namespace(), tree.namespace);
    }
    for pair in tree.namespaces.windows(2) {
        assert!(pair[0].0 < pair[1].0);
    }
    for (segment, child) in &tree.namespaces {
        path.push(segment.clone());
        assert_in_order(child, path);
        path.pop();
    }
}

#[test]
fn an_empty_request_gives_a_bare_root() {
    let tree = TypeTree::from_limits(&windows(), &TypeLimits::new()).unwrap();
    assert_eq!(tree.namespace, "");
    assert!(tree.types.is_empty());
    assert!(tree.namespaces.is_empty());
    assert!(tree.gen().is_empty());
}

#[test]
fn all_takes_every_type_of_the_namespace_in_row_order() {
    let reader = windows();
    let tree = TypeTree::from_limits(&reader, &request(vec![limit_all("Windows.Win32.FileSystem")]))
        .unwrap();
    let node = tree.get("Windows").unwrap().get("Win32").unwrap().get("FileSystem").unwrap();
    let names: Vec<&str> = node.types.iter().map(|t| t.name()).collect();
    assert_eq!(names, vec!["FILE_ACCESS_FLAGS", "CreateFileW"]);
    assert_eq!(rows(&tree), vec![1, 4]);
}

#[test]
fn all_of_a_namespace_without_types_gives_nothing() {
    let tree = TypeTree::from_limits(&windows(), &request(vec![limit_all("Windows.Win32")])).unwrap();
    assert!(tree.namespaces.is_empty());
}

#[test]
fn an_unknown_name_fails_the_request() {
    let reader = windows();
    let limits = request(vec![limit_named("Windows.Win32.FileSystem", &["NO_SUCH_TYPE"])]);
    assert_eq!(
        TypeTree::from_limits(&reader, &limits),
        Err(UnknownType {
            namespace: "Windows.Win32.FileSystem".to_string(),
            name: "NO_SUCH_TYPE".to_string(),
        })
    );
}

#[test]
fn a_name_is_looked_for_in_its_own_namespace_only() {
    let reader = windows();
    let limits = request(vec![limit_named("Windows.Win32.Foundation", &["FILE_ACCESS_FLAGS"])]);
    assert_eq!(
        TypeTree::from_limits(&reader, &limits),
        Err(UnknownType {
            namespace: "Windows.Win32.Foundation".to_string(),
            name: "FILE_ACCESS_FLAGS".to_string(),
        })
    );
}

#[test]
fn the_first_unknown_name_is_the_one_reported() {
    let reader = windows();
    let limits = request(vec![
        limit_named("Windows.Win32.FileSystem", &["FILE_ACCESS_FLAGS"]),
        limit_all("Windows.Foundation"),
        limit_named("Windows.Foundation", &["Uri", "First", "Second"]),
        limit_named("Nowhere", &["Third"]),
    ]);
    assert_eq!(
        TypeTree::from_limits(&reader, &limits),
        Err(UnknownType { namespace: "Windows.Foundation".to_string(), name: "First".to_string() })
    );
}

/// `A.X` and `B.Y` both depend on `C.Z`, which depends on a type without a
/// namespace, which depends on `D.E.W`.
fn diamond() -> TypeReader {
    let mut reader = TypeReader::new();
    let x = reader.insert("A", "X");
    let y = reader.insert("B", "Y");
    let z = reader.insert("C", "Z");
    let bare = reader.insert("", "bare");
    let w = reader.insert("D.E", "W");
    let _unused = reader.insert("A", "Unused");
    assert!(reader.add_dependency(x, z));
    assert!(reader.add_dependency(y, z));
    assert!(reader.add_dependency(z, bare));
    assert!(reader.add_dependency(bare, w));
    reader
}

#[test]
fn a_shared_dependency_is_filed_once() {
    let reader = diamond();
    let limits = request(vec![limit_named("A", &["X"]), limit_named("B", &["Y"])]);
    let tree = TypeTree::from_limits(&reader, &limits).unwrap();
    let mut found = rows(&tree);
    found.sort();
    assert_eq!(found, vec![0, 1, 2, 4]);
}

#[test]
fn a_type_asked_for_twice_is_filed_once() {
    let reader = diamond();
    let limits = request(vec![
        limit_named("A", &["X", "X"]),
        limit_all("A"),
        limit_named("A", &["X"]),
    ]);
    let tree = TypeTree::from_limits(&reader, &limits).unwrap();
    let mut found = rows(&tree);
    found.sort();
    assert_eq!(found, vec![0, 2, 4, 5]);
}

#[test]
fn a_dependency_is_filed_under_its_own_namespace() {
    let reader = diamond();
    let tree = TypeTree::from_limits(&reader, &request(vec![limit_named("A", &["X"])])).unwrap();
    let mut out = Vec::new();
    rows_by_path(&tree, &mut Vec::new(), &mut out);
    assert_eq!(
        out,
        vec![
            (vec!["A".to_string()], 0),
            (vec!["C".to_string()], 2),
            (vec!["D".to_string(), "E".to_string()], 4),
        ]
    );
}

#[test]
fn a_type_without_namespace_is_passed_through_but_not_filed() {
    let reader = diamond();
    let tree = TypeTree::from_limits(&reader, &request(vec![limit_named("C", &["Z"])])).unwrap();
    assert!(tree.types.is_empty());
    assert!(tree.get("").is_none());
    assert_eq!(rows(&tree), vec![2, 4]);
    let bare = TypeTree::from_limits(&reader, &request(vec![limit_all("")])).unwrap();
    assert_eq!(rows(&bare), vec![4]);
}

#[test]
fn every_node_is_named_by_its_path() {
    let reader = diamond();
    let limits = request(vec![limit_all("A"), limit_named("B", &["Y"])]);
    let tree = TypeTree::from_limits(&reader, &limits).unwrap();
    assert_in_order(&tree, &mut Vec::new());
    let windows = TypeTree::from_limits(
        &windows(),
        &request(vec![
            limit_all("Windows.Win32.FileSystem"),
            limit_all("Windows.Foundation"),
            limit_all("Windows.Win32.Foundation"),
        ]),
    )
    .unwrap();
    assert_in_order(&windows, &mut Vec::new());
    assert_eq!(windows.get("Windows").unwrap().get("Win32").unwrap().namespace, "Windows.Win32");
}

#[test]
fn dependencies_in_a_circle_end_and_are_filed_once_each() {
    let mut reader = TypeReader::new();
    let a = reader.insert("N", "A");
    let b = reader.insert("N", "B");
    assert!(reader.add_dependency(a, b));
    assert!(reader.add_dependency(b, a));
    let tree = TypeTree::from_limits(&reader, &request(vec![limit_named("N", &["A"])])).unwrap();
    let node = tree.get("N").unwrap();
    let names: Vec<&str> = node.types.iter().map(|t| t.name()).collect();
    assert_eq!(names, vec!["B", "A"]);
    assert_eq!(rows(&tree), vec![b, a]);
}

#[test]
fn a_type_that_depends_on_itself_is_filed_once() {
    let mut reader = TypeReader::new();
    let a = reader.insert("N", "A");
    assert!(reader.add_dependency(a, a));
    let tree = TypeTree::from_limits(&reader, &request(vec![limit_all("N")])).unwrap();
    assert_eq!(rows(&tree), vec![a]);
}

#[test]
fn dependencies_are_filed_before_the_type_that_needs_them() {
    let mut reader = TypeReader::new();
    let a = reader.insert("N", "A");
    let b = reader.insert("N", "B");
    let c = reader.insert("N", "C");
    let d = reader.insert("N", "D");
    assert!(reader.add_dependency(a, c));
    assert!(reader.add_dependency(a, b));
    assert!(reader.add_dependency(c, d));
    let tree = TypeTree::from_limits(&reader, &request(vec![limit_all("N")])).unwrap();
    assert_eq!(rows(&tree), vec![d, c, b, a]);
}

#[test]
fn the_same_request_gives_the_same_tree_and_fragments() {
    let reader = diamond();
    let limits = request(vec![limit_all("A"), limit_named("B", &["Y"])]);
    let first = TypeTree::from_limits(&reader, &limits).unwrap();
    let second = TypeTree::from_limits(&reader, &limits).unwrap();
    assert_eq!(first, second);
    assert_eq!(first.gen(), second.gen());
    assert_eq!(first.gen(), first.gen());
}

#[test]
fn children_stand_in_ascending_order() {
    let mut reader = TypeReader::new();
    for namespace in ["b", "Win32", "a", "Win", "Z", "Win.Sub", "é", "Windows"] {
        reader.insert(namespace, "T");
    }
    let limits = request(
        ["b", "Win32", "a", "Win", "Z", "Win.Sub", "é", "Windows"].iter().map(|n| limit_all(n)).collect(),
    );
    let tree = TypeTree::from_limits(&reader, &limits).unwrap();
    let keys: Vec<&str> = tree.namespaces.iter().map(|(key, _)| key.as_str()).collect();
    assert_eq!(keys, vec!["Win", "Win32", "Windows", "Z", "a", "b", "é"]);
    assert_eq!(tree.get("Win").unwrap().namespaces.len(), 1);
    assert_in_order(&tree, &mut Vec::new());
}

#[test]
fn get_finds_children_by_their_segment() {
    let tree = TypeTree::from_limits(&windows(), &request(vec![limit_all("Windows.Foundation")]))
        .unwrap();
    assert!(tree.get("Windows").is_some());
    assert!(tree.get("windows").is_none());
    assert!(tree.get("Windows.Foundation").is_none());
    assert!(tree.get("").is_none());
    assert!(tree.get("Windows").unwrap().get("Foundation").is_some());
}

fn three_namespaces() -> TypeTree {
    TypeTree::from_limits(
        &windows(),
        &request(vec![
            limit_all("Windows.Win32.FileSystem"),
            limit_all("Windows.Foundation"),
            limit_all("Windows.Win32.Foundation"),
        ]),
    )
    .unwrap()
}

#[test]
fn remove_cuts_the_namespace_and_leaves_its_siblings() {
    let before = three_namespaces();
    let mut tree = three_namespaces();
    tree.remove("Windows.Win32.FileSystem");
    let win32 = tree.get("Windows").unwrap().get("Win32").unwrap();
    assert!(win32.get("FileSystem").is_none());
    assert_eq!(win32.namespaces.len(), 1);
    assert_eq!(rows(&tree), vec![3, 2]);
    assert_eq!(
        win32.get("Foundation"),
        before.get("Windows").unwrap().get("Win32").unwrap().get("Foundation")
    );
    assert_eq!(
        tree.get("Windows").unwrap().get("Foundation"),
        before.get("Windows").unwrap().get("Foundation")
    );
    assert_in_order(&tree, &mut Vec::new());
}

#[test]
fn remove_takes_everything_below_along() {
    let mut tree = three_namespaces();
    tree.remove("Windows.Win32");
    let windows = tree.get("Windows").unwrap();
    assert!(windows.get("Win32").is_none());
    assert_eq!(rows(&tree), vec![3]);
    tree.remove("Windows");
    assert_eq!(tree, TypeTree::from_namespace(String::new()));
}

#[test]
fn remove_of_what_is_not_there_changes_nothing() {
    let before = three_namespaces();
    for namespace in [
        "Nowhere",
        "Windows.Nowhere",
        "Windows.Nowhere.FileSystem",
        "Windows.Win32.FileSystem.Deeper",
        "windows",
        "",
        "Windows.",
        ".Windows",
    ] {
        let mut tree = three_namespaces();
        tree.remove(namespace);
        assert_eq!(tree, before, "{:?}", namespace);
    }
}

#[test]
fn remove_twice_is_remove_once() {
    let mut once = three_namespaces();
    once.remove("Windows.Win32.FileSystem");
    let mut twice = three_namespaces();
    twice.remove("Windows.Win32.FileSystem");
    twice.remove("Windows.Win32.FileSystem");
    assert_eq!(once, twice);
}
