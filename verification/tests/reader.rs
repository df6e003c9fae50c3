use type_tree::{ElementType, Gen, TypeReader, UnknownType};

#[test]
fn rows_count_up_from_zero() {
    let mut reader = TypeReader::new();
    assert_eq!(reader.len(), 0);
    assert_eq!(reader.insert("A", "X"), 0);
    assert_eq!(reader.insert("A", "Y"), 1);
    assert_eq!(reader.insert("", "u32"), 2);
    assert_eq!(reader.len(), 3);
    assert_eq!(reader.types[1].namespace, "A");
    assert_eq!(reader.types[1].name, "Y");
    assert!(reader.types[1].dependencies.is_empty());
}

#[test]
fn a_dependency_needs_both_rows() {
    let mut reader = TypeReader::new();
    let x = reader.insert("A", "X");
    let y = reader.insert("A", "Y");
    assert!(reader.add_dependency(x, y));
    assert!(reader.add_dependency(x, x));
    assert!(!reader.add_dependency(x, 2));
    assert!(!reader.add_dependency(2, x));
    assert_eq!(reader.types[x].dependencies, vec![y, x]);
    assert!(reader.types[y].dependencies.is_empty());
}

#[test]
fn element_describes_the_row() {
    let mut reader = TypeReader::new();
    reader.insert("A", "X");
    let y = reader.insert("A.B", "Y");
    let t = reader.element(y).unwrap();
    assert_eq!(t, ElementType { row: 1, namespace: "A.B".to_string(), name: "Y".to_string() });
    assert_eq!(t.row(), 1);
    assert_eq!(t.namespace(), "A.B");
    assert_eq!(t.name(), "Y");
    assert_eq!(t.clone(), t);
    assert_eq!(reader.element(2), None);
}

#[test]
fn namespace_types_come_in_row_order() {
    let mut reader = TypeReader::new();
    reader.insert("A", "Z");
    reader.insert("B", "M");
    reader.insert("A", "Y");
    reader.insert("A.B", "N");
    reader.insert("A", "X");
    let types = reader.namespace_types("A");
    let rows: Vec<usize> = types.iter().map(|t| t.row()).collect();
    let names: Vec<&str> = types.iter().map(|t| t.name()).collect();
    assert_eq!(rows, vec![0, 2, 4]);
    assert_eq!(names, vec!["Z", "Y", "X"]);
    assert!(types.iter().all(|t| t.namespace() == "A"));
    assert!(reader.namespace_types("C").is_empty());
    assert!(reader.namespace_types("a").is_empty());
}

#[test]
fn resolve_finds_the_type_in_its_namespace() {
    let mut reader = TypeReader::new();
    reader.insert("A", "X");
    reader.insert("B", "X");
    reader.insert("B", "Y");
    assert_eq!(reader.resolve_type("B", "X").unwrap().row(), 1);
    assert_eq!(reader.resolve_type("A", "X").unwrap().row(), 0);
    assert_eq!(reader.resolve_type("B", "Y").unwrap().row(), 2);
}

#[test]
fn resolve_takes_the_lowest_row_of_a_repeated_name() {
    let mut reader = TypeReader::new();
    reader.insert("A", "Other");
    reader.insert("A", "X");
    reader.insert("A", "X");
    assert_eq!(reader.resolve_type("A", "X").unwrap().row(), 1);
}

#[test]
fn resolve_reports_what_is_unknown() {
    let mut reader = TypeReader::new();
    reader.insert("A", "X");
    assert_eq!(
        reader.resolve_type("A", "Y"),
        Err(UnknownType { namespace: "A".to_string(), name: "Y".to_string() })
    );
    assert_eq!(
        reader.resolve_type("B", "X"),
        Err(UnknownType { namespace: "B".to_string(), name: "X".to_string() })
    );
    assert_eq!(
        TypeReader::new().resolve_type("", ""),
        Err(UnknownType { namespace: String::new(), name: String::new() })
    );
}

fn element(namespace: &str, name: &str) -> ElementType {
    ElementType { row: 0, namespace: namespace.to_string(), name: name.to_string() }
}

#[test]
fn absolute_name_goes_through_every_module() {
    let t = element("Windows.Win32.FileSystem", "FILE_ACCESS_FLAGS");
    assert_eq!(t.gen_name(&Gen::Absolute), "windows :: win32 :: file_system :: FILE_ACCESS_FLAGS");
    assert_eq!(element("Windows", "Uri").gen_name(&Gen::Absolute), "windows :: Uri");
}

#[test]
fn a_type_without_namespace_is_named_bare() {
    let t = element("", "u32");
    assert_eq!(t.gen_name(&Gen::Absolute), "u32");
    assert_eq!(t.gen_name(&Gen::Relative("Windows.Win32".to_string())), "u32");
    assert_eq!(t.gen_name(&Gen::Relative(String::new())), "u32");
}

#[test]
fn relative_name_inside_the_same_namespace_is_bare() {
    let t = element("Windows.Win32.FileSystem", "FILE_ACCESS_FLAGS");
    let gen = Gen::Relative("Windows.Win32.FileSystem".to_string());
    assert_eq!(t.gen_name(&gen), "FILE_ACCESS_FLAGS");
}

#[test]
fn relative_name_steps_out_as_far_as_the_paths_differ() {
    let t = element("Windows.Win32.Foundation", "HANDLE");
    assert_eq!(
        t.gen_name(&Gen::Relative("Windows.Win32.FileSystem".to_string())),
        "super :: foundation :: HANDLE"
    );
    assert_eq!(
        t.gen_name(&Gen::Relative("Windows.Foundation".to_string())),
        "super :: win32 :: foundation :: HANDLE"
    );
    assert_eq!(
        t.gen_name(&Gen::Relative("Other.Place.Deep".to_string())),
        "super :: super :: super :: windows :: win32 :: foundation :: HANDLE"
    );
}

#[test]
fn relative_name_goes_down_from_an_enclosing_namespace() {
    let t = element("Windows.Win32.Foundation", "HANDLE");
    assert_eq!(
        t.gen_name(&Gen::Relative("Windows".to_string())),
        "win32 :: foundation :: HANDLE"
    );
    assert_eq!(
        t.gen_name(&Gen::Relative(String::new())),
        "windows :: win32 :: foundation :: HANDLE"
    );
}

#[test]
fn relative_name_goes_up_to_an_enclosing_namespace() {
    let t = element("Windows", "Uri");
    assert_eq!(
        t.gen_name(&Gen::Relative("Windows.Win32.Foundation".to_string())),
        "super :: super :: Uri"
    );
}
