use m1_workspace::read_limit_error;
use m1_workspace::walk::{file_extension, has_extension, walk_lists_directory, walk_step, EntryKind, WalkStep, MAX_WALK_DEPTH};

#[test]
fn file_extension_follows_path_rules() {
    assert_eq!(file_extension("a.m1dbc"), Some("m1dbc"));
    assert_eq!(file_extension("Torque Vectoring.m1scr"), Some("m1scr"));
    assert_eq!(file_extension("archive.tar.gz"), Some("gz"));
    assert_eq!(file_extension("noext"), None);
    assert_eq!(file_extension(".m1dbc"), None);
    assert_eq!(file_extension(".hidden.m1dbc"), Some("m1dbc"));
    assert_eq!(file_extension("trailing."), Some(""));
    assert_eq!(file_extension(".."), None);
    assert_eq!(file_extension("°.µ"), Some("µ"));
}

#[test]
fn file_extension_agrees_with_std_path() {
    for name in ["a.b", "a", ".a", ".a.b", "a.", "..", "a..b", "Ω.ext", "x.y.z"] {
        let std_ext = std::path::Path::new(name).extension().and_then(|e| e.to_str());
        assert_eq!(file_extension(name), std_ext, "{name}");
    }
}

#[test]
fn walk_steps() {
    assert_eq!(walk_step(EntryKind::Symlink, "x.m1dbc", "m1dbc"), WalkStep::Skip);
    assert_eq!(walk_step(EntryKind::Unknown, "x.m1dbc", "m1dbc"), WalkStep::Skip);
    assert_eq!(walk_step(EntryKind::Directory, "dbc", "m1dbc"), WalkStep::Descend);
    assert_eq!(walk_step(EntryKind::Other, "x.m1dbc", "m1dbc"), WalkStep::Collect);
    assert_eq!(walk_step(EntryKind::Other, "x.m1scr", "m1dbc"), WalkStep::Skip);
    assert_eq!(walk_step(EntryKind::Other, "x.M1DBC", "m1dbc"), WalkStep::Skip);
    assert!(has_extension("params.m1cfg", "m1cfg"));
    assert!(!has_extension("m1cfg", "m1cfg"));
}

#[test]
fn walk_depth_limit() {
    assert_eq!(MAX_WALK_DEPTH, 64);
    assert!(walk_lists_directory(0));
    assert!(walk_lists_directory(64));
    assert!(!walk_lists_directory(65));
}

#[test]
fn read_limit_messages() {
    assert_eq!(read_limit_error(10, 10), None);
    assert_eq!(read_limit_error(0, 0), None);
    assert_eq!(
        read_limit_error(100, 10),
        Some("file is 100 bytes, exceeding the 10-byte read limit".to_string())
    );
    assert_eq!(
        read_limit_error(u64::MAX, 67108864),
        Some("file is 18446744073709551615 bytes, exceeding the 67108864-byte read limit".to_string())
    );
}
