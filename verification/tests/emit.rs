use std::collections::BTreeSet;
use type_tree::{
    gen_namespaces, ElementType, Fragment, Gen, NamespaceTypes, TypeLimit, TypeLimits, TypeReader,
    TypeTree,
};

fn lints() -> Vec<String> {
    vec![
        "unused_variables".to_string(),
        "non_upper_case_globals".to_string(),
        "non_snake_case".to_string(),
    ]
}

fn module(name: &str, tokens: Vec<Fragment>) -> Fragment {
    Fragment::Module { name: name.to_string(), allow: lints(), tokens }
}

fn written(row: usize, namespace: &str, name: &str) -> Fragment {
    Fragment::Type {
        def: ElementType { row, namespace: namespace.to_string(), name: name.to_string() },
        gen: Gen::Relative(namespace.to_string()),
    }
}

fn catalog() -> TypeReader {
    let mut reader = TypeReader::new();
    reader.insert("Windows.Win32.FileSystem", "FILE_ACCESS_FLAGS");
    reader.insert("Windows.Win32.Foundation", "HANDLE");
    reader.insert("Windows.Foundation", "Uri");
    reader.insert("Windows.Win32.FileSystem", "CreateFileW");
    reader.insert("Windows", "Root");
    assert!(reader.add_dependency(3, 1));
    assert!(reader.add_dependency(3, 0));
    reader
}

fn everything() -> TypeTree {
    let mut limits = TypeLimits::new();
    for namespace in ["Windows.Win32.FileSystem", "Windows.Foundation", "Windows"] {
        limits.insert(NamespaceTypes { namespace: namespace.to_string(), limit: TypeLimit::All });
    }
    TypeTree::from_limits(&catalog(), &limits).unwrap()
}

#[test]
fn gen_gives_types_first_and_then_modules_in_order() {
    let expected = vec![module(
        "windows",
        vec![
            written(4, "Windows", "Root"),
            module("foundation", vec![written(2, "Windows.Foundation", "Uri")]),
            module(
                "win32",
                vec![
                    module(
                        "file_system",
                        vec![
                            written(0, "Windows.Win32.FileSystem", "FILE_ACCESS_FLAGS"),
                            written(3, "Windows.Win32.FileSystem", "CreateFileW"),
                        ],
                    ),
                    module("foundation", vec![written(1, "Windows.Win32.Foundation", "HANDLE")]),
                ],
            ),
        ],
    )];
    assert_eq!(everything().gen(), expected);
}

#[test]
fn gen_of_a_node_is_its_types_and_the_modules_of_its_children() {
    let tree = everything();
    let windows = tree.get("Windows").unwrap();
    let mut expected = vec![written(4, "Windows", "Root")];
    expected.extend(gen_namespaces(&windows.namespaces));
    assert_eq!(windows.gen(), expected);
    assert_eq!(gen_namespaces(&tree.namespaces), tree.gen());
    assert!(gen_namespaces(&Vec::new()).is_empty());
}

#[test]
fn gen_does_not_change_the_tree() {
    let tree = everything();
    let first = tree.gen();
    assert_eq!(tree, everything());
    assert_eq!(tree.gen(), first);
}

#[test]
fn gen_after_remove_lacks_the_module() {
    let mut tree = everything();
    tree.remove("Windows.Win32");
    let expected = vec![module(
        "windows",
        vec![
            written(4, "Windows", "Root"),
            module("foundation", vec![written(2, "Windows.Foundation", "Uri")]),
        ],
    )];
    assert_eq!(tree.gen(), expected);
}

#[test]
fn from_namespace_is_a_bare_node() {
    let node = TypeTree::from_namespace("Windows.Win32".to_string());
    assert_eq!(node.namespace, "Windows.Win32");
    assert!(node.types.is_empty());
    assert!(node.namespaces.is_empty());
}

fn path(segments: &[&str]) -> Vec<String> {
    segments.iter().map(|segment| segment.to_string()).collect()
}

#[test]
fn insert_makes_the_nodes_on_the_way() {
    let mut tree = TypeTree::from_namespace(String::new());
    let t = ElementType { row: 7, namespace: "A.B.C".to_string(), name: "T".to_string() };
    tree.insert(&path(&["A", "B", "C"]), 0, &t);
    let a = tree.get("A").unwrap();
    let b = a.get("B").unwrap();
    let c = b.get("C").unwrap();
    assert_eq!((a.namespace.as_str(), a.types.len()), ("A", 0));
    assert_eq!((b.namespace.as_str(), b.types.len()), ("A.B", 0));
    assert_eq!(c.namespace, "A.B.C");
    assert_eq!(c.types, vec![t]);
}

#[test]
fn insert_adds_to_the_end_of_a_node_that_is_there() {
    let mut tree = TypeTree::from_namespace(String::new());
    let first = ElementType { row: 1, namespace: "A.B".to_string(), name: "First".to_string() };
    let second = ElementType { row: 2, namespace: "A.B".to_string(), name: "Second".to_string() };
    let above = ElementType { row: 3, namespace: "A".to_string(), name: "Above".to_string() };
    tree.insert(&path(&["A", "B"]), 0, &first);
    tree.insert(&path(&["A"]), 0, &above);
    tree.insert(&path(&["A", "B"]), 0, &second);
    assert_eq!(tree.namespaces.len(), 1);
    let a = tree.get("A").unwrap();
    assert_eq!(a.types, vec![above]);
    assert_eq!(a.namespaces.len(), 1);
    assert_eq!(a.get("B").unwrap().types, vec![first, second]);
}

#[test]
fn insert_from_further_down_the_path_files_below_this_node() {
    let mut node = TypeTree::from_namespace("A".to_string());
    let t = ElementType { row: 1, namespace: "A.B".to_string(), name: "T".to_string() };
    node.insert(&path(&["A", "B"]), 1, &t);
    assert_eq!(node.namespaces.len(), 1);
    assert_eq!(node.get("B").unwrap().namespace, "A.B");
    assert_eq!(node.get("B").unwrap().types, vec![t]);
}

#[test]
fn insert_without_a_segment_left_files_nothing() {
    let mut tree = TypeTree::from_namespace(String::new());
    let t = ElementType { row: 1, namespace: "A".to_string(), name: "T".to_string() };
    tree.insert(&path(&["A"]), 1, &t);
    tree.insert(&path(&["A"]), 5, &t);
    tree.insert(&Vec::new(), 0, &t);
    assert_eq!(tree, TypeTree::from_namespace(String::new()));
}

#[test]
fn insert_keeps_an_empty_last_segment() {
    let mut tree = TypeTree::from_namespace(String::new());
    let t = ElementType { row: 1, namespace: "A.".to_string(), name: "T".to_string() };
    tree.insert(&path(&["A", ""]), 0, &t);
    let last = tree.get("A").unwrap().get("").unwrap();
    assert_eq!(last.namespace, "A.");
    assert_eq!(last.types, vec![t]);
}

#[test]
fn insert_if_enters_the_row_and_what_it_depends_on() {
    let reader = catalog();
    let mut tree = TypeTree::from_namespace(String::new());
    let mut set = BTreeSet::new();
    tree.insert_if(&reader, &mut set, 3);
    assert_eq!(set.into_iter().collect::<Vec<usize>>(), vec![0, 1, 3]);
    let win32 = tree.get("Windows").unwrap().get("Win32").unwrap();
    let names: Vec<&str> =
        win32.get("FileSystem").unwrap().types.iter().map(|t| t.name()).collect();
    assert_eq!(names, vec!["FILE_ACCESS_FLAGS", "CreateFileW"]);
    assert_eq!(win32.get("Foundation").unwrap().types.len(), 1);
}

#[test]
fn insert_if_skips_what_the_set_holds() {
    let reader = catalog();
    let mut tree = TypeTree::from_namespace(String::new());
    let mut set = BTreeSet::new();
    set.insert(3);
    tree.insert_if(&reader, &mut set, 3);
    assert_eq!(tree, TypeTree::from_namespace(String::new()));
    assert_eq!(set.len(), 1);
    set.insert(1);
    set.remove(&3);
    tree.insert_if(&reader, &mut set, 3);
    assert_eq!(set.into_iter().collect::<Vec<usize>>(), vec![0, 1, 3]);
    let win32 = tree.get("Windows").unwrap().get("Win32").unwrap();
    assert!(win32.get("Foundation").is_none());
    assert_eq!(win32.get("FileSystem").unwrap().types.len(), 2);
}

#[test]
fn insert_if_skips_a_row_that_the_catalog_lacks() {
    let reader = catalog();
    let mut tree = TypeTree::from_namespace(String::new());
    let mut set = BTreeSet::new();
    tree.insert_if(&reader, &mut set, 5);
    tree.insert_if(&reader, &mut set, usize::MAX);
    assert!(set.is_empty());
    assert_eq!(tree, TypeTree::from_namespace(String::new()));
}

#[test]
fn limits_keep_their_order_and_their_repeats() {
    let mut limits = TypeLimits::new();
    assert!(limits.limits().is_empty());
    let first = NamespaceTypes { namespace: "B".to_string(), limit: TypeLimit::All };
    let second =
        NamespaceTypes { namespace: "A".to_string(), limit: TypeLimit::Named(vec!["X".to_string()]) };
    limits.insert(NamespaceTypes { namespace: "B".to_string(), limit: TypeLimit::All });
    limits.insert(NamespaceTypes {
        namespace: "A".to_string(),
        limit: TypeLimit::Named(vec!["X".to_string()]),
    });
    limits.insert(NamespaceTypes { namespace: "B".to_string(), limit: TypeLimit::All });
    assert_eq!(limits.limits().len(), 3);
    assert_eq!(limits.limits()[0], first);
    assert_eq!(limits.limits()[1], second);
    assert_eq!(limits.limits()[2], first);
}

#[test]
fn the_order_of_the_request_is_the_order_within_a_node() {
    let mut reader = TypeReader::new();
    reader.insert("N", "A");
    reader.insert("N", "B");
    let mut forward = TypeLimits::new();
    forward.insert(NamespaceTypes {
        namespace: "N".to_string(),
        limit: TypeLimit::Named(vec!["B".to_string(), "A".to_string()]),
    });
    let tree = TypeTree::from_limits(&reader, &forward).unwrap();
    let names: Vec<&str> = tree.get("N").unwrap().types.iter().map(|t| t.name()).collect();
    assert_eq!(names, vec!["B", "A"]);
}
