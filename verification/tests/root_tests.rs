use m1_workspace::{qualify_root, strip_root, CONFIG_EXT, DBC_EXT, PROJECT_FILE, ROOT_PREFIX, SCRIPT_EXT};

#[test]
fn qualify_and_strip_root() {
    assert_eq!(qualify_root("Foo.Bar"), "Root.Foo.Bar");
    assert_eq!(qualify_root("Root.Foo.Bar"), "Root.Foo.Bar");
    assert_eq!(qualify_root("Root"), "Root");
    assert_eq!(strip_root("Root.Foo.Bar"), "Foo.Bar");
    assert_eq!(strip_root("Foo.Bar"), "Foo.Bar");
}

#[test]
fn qualify_root_is_idempotent() {
    for name in ["", "Foo", "Root", "Root.", "Rooted.X", "root.X", "Ωmega.°"] {
        let once = qualify_root(name);
        assert_eq!(qualify_root(&once), once);
    }
}

#[test]
fn strip_root_undoes_qualify_root() {
    for name in ["Foo.Bar", "", "Rooted", "root.Foo", "Ω.µ"] {
        assert_eq!(strip_root(&qualify_root(name)), name);
    }
}

#[test]
fn qualify_root_edge_cases() {
    assert_eq!(qualify_root(""), "Root.");
    assert_eq!(qualify_root("Rooted"), "Root.Rooted");
    assert_eq!(qualify_root("Root."), "Root.");
    assert_eq!(strip_root("Root."), "");
    assert_eq!(strip_root("Root"), "Root");
    assert_eq!(strip_root("Root.Ω"), "Ω");
}

#[test]
fn file_name_constants() {
    assert_eq!(PROJECT_FILE, "Project.m1prj");
    assert_eq!(SCRIPT_EXT, "m1scr");
    assert_eq!(CONFIG_EXT, "m1cfg");
    assert_eq!(DBC_EXT, "m1dbc");
    assert_eq!(ROOT_PREFIX, "Root.");
}
