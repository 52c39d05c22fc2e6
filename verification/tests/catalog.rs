use parser::catalog::PartNameCatalog;

fn s(text: &str) -> String {
    text.to_string()
}

#[test]
fn new_catalog_names_nothing() {
    let names = PartNameCatalog::new();
    assert_eq!(names.len(), 0);
    assert_eq!(names.get(&s("Vn1")), None);
    assert_eq!(names.get(&s("")), None);
}

#[test]
fn inserted_name_is_found() {
    let mut names = PartNameCatalog::new();
    names.insert(s("Vn1"), s("Violin I"));
    names.insert(s("Vc"), s("Cello"));
    assert_eq!(names.len(), 2);
    assert_eq!(names.get(&s("Vn1")), Some(&s("Violin I")));
    assert_eq!(names.get(&s("Vc")), Some(&s("Cello")));
    assert_eq!(names.get(&s("Va")), None);
    assert_eq!(names.get(&s("vn1")), None);
}

#[test]
fn second_name_replaces_the_first() {
    let mut names = PartNameCatalog::new();
    names.insert(s("Vn1"), s("Violin I"));
    names.insert(s("Vc"), s("Cello"));
    names.insert(s("Vn1"), s("Viola"));
    assert_eq!(names.len(), 2);
    assert_eq!(names.get(&s("Vn1")), Some(&s("Viola")));
    assert_eq!(names.get(&s("Vc")), Some(&s("Cello")));
}

#[test]
fn empty_identifier_is_an_identifier() {
    let mut names = PartNameCatalog::new();
    names.insert(s(""), s("Nameless"));
    assert_eq!(names.get(&s("")), Some(&s("Nameless")));
    assert_eq!(names.len(), 1);
}
