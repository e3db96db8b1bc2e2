use logprep_core::field::{field_list_to_dotted_field, get_dotted_field_list, join_dotted_fields};

#[test]
fn field_simple_dotted_field() {
    assert_eq!(get_dotted_field_list("a.b.c"), vec!["a", "b", "c"]);
}

#[test]
fn field_escaped_dot() {
    assert_eq!(get_dotted_field_list(r"dotted\.field"), vec!["dotted.field"]);
}

#[test]
fn field_double_escaped() {
    assert_eq!(get_dotted_field_list(r"dotted\\.field"), vec![r"dotted\", "field"]);
}

#[test]
fn field_no_dots() {
    assert_eq!(get_dotted_field_list("simple"), vec!["simple"]);
}

#[test]
fn field_trailing_backslash() {
    assert_eq!(get_dotted_field_list(r"field\\"), vec![r"field\"]);
}

#[test]
fn field_field_list_to_dotted_field_simple() {
    assert_eq!(field_list_to_dotted_field(&["a".to_string(), "b".to_string(), "c".to_string()]), "a.b.c");
}

#[test]
fn field_field_list_to_dotted_field_escape() {
    assert_eq!(field_list_to_dotted_field(&["x.y".to_string(), "z".to_string()]), "x\\.y.z");
}

#[test]
fn field_join_dotted_fields_simple() {
    assert_eq!(join_dotted_fields(&["x.y".to_string(), "z".to_string()]), "x.y.z");
}

#[test]
fn py_simple_dotted_field() {
    assert_eq!(get_dotted_field_list("a.b.c"), vec!["a", "b", "c"]);
}

#[test]
fn py_escaped_dot() {
    assert_eq!(get_dotted_field_list(r"dotted\.field"), vec!["dotted.field"]);
}

#[test]
fn py_double_escaped() {
    assert_eq!(get_dotted_field_list(r"dotted\\.field"), vec![r"dotted\", "field"]);
}

#[test]
fn py_no_dots() {
    assert_eq!(get_dotted_field_list("simple"), vec!["simple"]);
}

#[test]
fn py_trailing_backslash() {
    assert_eq!(get_dotted_field_list(r"field\\"), vec![r"field\"]);
}

#[test]
fn py_field_list_to_dotted_field_simple() {
    assert_eq!(field_list_to_dotted_field(&["a".to_string(), "b".to_string(), "c".to_string()]), "a.b.c");
}

#[test]
fn py_field_list_to_dotted_field_escape() {
    assert_eq!(field_list_to_dotted_field(&["x.y".to_string(), "z".to_string()]), "x\\.y.z");
}

#[test]
fn py_join_dotted_fields_simple() {
    assert_eq!(join_dotted_fields(&["x.y".to_string(), "z".to_string()]), "x.y.z");
}
