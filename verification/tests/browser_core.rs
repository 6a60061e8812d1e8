use filebrowser::entry::{is_editable, is_supported_name, FileSystemEntry};
use filebrowser::provider::{HostError, Listing, MemProvider, RawChild};
use filebrowser::session::{EditorSession, SessionState};
use filebrowser::traverse::{refresh, sort_entries, TreeSnapshot};

fn raw(name: &str, is_directory: bool, capability: u64) -> RawChild {
    RawChild { name: name.to_string(), is_directory, capability }
}

fn leaf(name: &str, capability: u64) -> FileSystemEntry {
    FileSystemEntry {
        name: name.to_string(),
        is_directory: false,
        children: Vec::new(),
        capability: Some(capability),
    }
}

fn trees_equal(a: &[FileSystemEntry], b: &[FileSystemEntry]) -> bool {
    a.len() == b.len()
        && a.iter().zip(b.iter()).all(|(x, y)| {
            x.name == y.name
                && x.is_directory == y.is_directory
                && x.capability == y.capability
                && trees_equal(&x.children, &y.children)
        })
}

/// Root (cap 1) holds files `b.md` (cap 10), `a.txt` (cap 11) and directory
/// `z` (cap 2); `z` holds file `c.rs` (cap 12).
fn scenario_provider() -> MemProvider {
    MemProvider {
        dirs: vec![
            (
                1,
                Listing::Children(vec![
                    raw("b.md", false, 10),
                    raw("a.txt", false, 11),
                    raw("z", true, 2),
                ]),
            ),
            (2, Listing::Children(vec![raw("c.rs", false, 12)])),
        ],
        files: vec![(10, "hello".to_string()), (11, "plain".to_string()), (12, "fn main() {}".to_string())],
    }
}

#[test]
fn supported_extensions_default_set() {
    assert!(is_supported_name("notes.md"));
    assert!(is_supported_name("data.json"));
    assert!(is_supported_name("main.rs"));
    assert!(is_supported_name("app.js"));
    assert!(!is_supported_name("image.png"));
    assert!(!is_supported_name("readme.txt"));
    assert!(!is_supported_name("md"));
    assert!(!is_supported_name(""));
}

#[test]
fn supported_extensions_ignore_ascii_case() {
    assert!(is_supported_name("NOTES.MD"));
    assert!(is_supported_name("Data.Json"));
    assert!(is_supported_name("MAIN.RS"));
    assert!(is_supported_name("APP.jS"));
}

#[test]
fn configured_allow_list_decides_support() {
    let allow = vec![".toml".to_string(), ".md".to_string()];
    assert!(filebrowser::entry::is_supported_name_in("Cargo.TOML", &allow));
    assert!(filebrowser::entry::is_supported_name_in("readme.md", &allow));
    assert!(!filebrowser::entry::is_supported_name_in("main.rs", &allow));
    assert!(!filebrowser::entry::is_supported_name_in("x", &vec![]));
}

#[test]
fn directories_are_inert() {
    let dir = FileSystemEntry {
        name: "src.rs".to_string(),
        is_directory: true,
        children: Vec::new(),
        capability: Some(5),
    };
    assert!(!is_editable(&dir));
    assert!(is_editable(&leaf("src.rs", 5)));
}

#[test]
fn sort_orders_directories_before_files_and_names_within_kind() {
    let d = |name: &str, cap: u64| FileSystemEntry {
        name: name.to_string(),
        is_directory: true,
        children: Vec::new(),
        capability: Some(cap),
    };
    let v = vec![leaf("b.md", 1), d("y", 2), leaf("a.txt", 3), d("x", 4)];
    let sorted = sort_entries(v);
    let names: Vec<&str> = sorted.iter().map(|e| e.name.as_str()).collect();
    assert_eq!(names, vec!["x", "y", "a.txt", "b.md"]);
    assert!(sorted[0].is_directory && sorted[1].is_directory);
    assert!(!sorted[2].is_directory && !sorted[3].is_directory);
}

#[test]
fn refresh_scenario_a_expected_tree() {
    let p = scenario_provider();
    let tree = refresh(&p, 1).unwrap();
    assert_eq!(tree.len(), 3);
    assert_eq!(tree[0].name, "z");
    assert!(tree[0].is_directory);
    assert_eq!(tree[0].capability, Some(2));
    assert_eq!(tree[0].children.len(), 1);
    assert_eq!(tree[0].children[0].name, "c.rs");
    assert!(!tree[0].children[0].is_directory);
    assert_eq!(tree[0].children[0].capability, Some(12));
    assert_eq!(tree[1].name, "a.txt");
    assert!(!tree[1].is_directory);
    assert_eq!(tree[2].name, "b.md");
    assert!(!is_editable(&tree[1]));
    assert!(is_editable(&tree[2]));
    assert!(is_editable(&tree[0].children[0]));
}

#[test]
fn refresh_twice_yields_equal_trees() {
    let p = scenario_provider();
    let t1 = refresh(&p, 1).unwrap();
    let t2 = refresh(&p, 1).unwrap();
    assert!(trees_equal(&t1, &t2));
}

#[test]
fn refresh_of_unknown_root_fails_without_touching_snapshot() {
    let p = scenario_provider();
    let mut snap = TreeSnapshot::new();
    assert!(snap.refresh_from(&p, 1).is_none());
    let stamp = snap.updated_at;
    let before: Vec<String> = snap.tree.iter().map(|e| e.name.clone()).collect();
    assert_eq!(snap.refresh_from(&p, 99), Some(HostError::EnumerationFailed));
    let after: Vec<String> = snap.tree.iter().map(|e| e.name.clone()).collect();
    assert_eq!(before, after);
    assert_eq!(snap.updated_at, stamp);
}

#[test]
fn snapshot_stamp_increases_on_success() {
    let p = scenario_provider();
    let mut snap = TreeSnapshot::new();
    assert_eq!(snap.updated_at, 0);
    assert!(snap.refresh_from(&p, 1).is_none());
    assert_eq!(snap.updated_at, 1);
    assert!(snap.refresh_from(&p, 2).is_none());
    assert_eq!(snap.updated_at, 2);
}

#[test]
fn failed_child_enumeration_degrades_to_empty_subtree() {
    let p = MemProvider {
        dirs: vec![
            (
                1,
                Listing::Children(vec![
                    raw("broken", true, 2),
                    raw("ok.md", false, 10),
                    raw("missing", true, 3),
                ]),
            ),
            (2, Listing::Unreadable),
            // capability 3 is not even known to the provider
        ],
        files: vec![(10, "text".to_string())],
    };
    let tree = refresh(&p, 1).unwrap();
    assert_eq!(tree.len(), 3);
    assert_eq!(tree[0].name, "broken");
    assert!(tree[0].is_directory);
    assert!(tree[0].children.is_empty());
    assert_eq!(tree[1].name, "missing");
    assert!(tree[1].is_directory);
    assert!(tree[1].children.is_empty());
    assert_eq!(tree[2].name, "ok.md");
    assert!(!tree[2].is_directory);
}

#[test]
fn deep_nesting_is_cut_off_instead_of_diverging() {
    // the capability points back at its own directory: a cyclic host
    let p = MemProvider {
        dirs: vec![(1, Listing::Children(vec![raw("loop", true, 1)]))],
        files: vec![],
    };
    let tree = refresh(&p, 1).unwrap();
    assert_eq!(tree.len(), 1);
    assert_eq!(tree[0].name, "loop");
}

#[test]
fn read_text_of_missing_file_is_read_failed() {
    let p = scenario_provider();
    assert_eq!(p.read_text(77).unwrap_err(), HostError::ReadFailed);
    assert_eq!(p.read_text(10).unwrap(), "hello");
}

#[test]
fn write_text_of_missing_file_is_write_failed() {
    let mut p = scenario_provider();
    assert_eq!(p.write_text(77, "x").unwrap_err(), HostError::WriteFailed);
    assert!(p.write_text(10, "x").is_ok());
    assert_eq!(p.read_text(10).unwrap(), "x");
}

#[test]
fn read_write_read_round_trip() {
    let mut p = scenario_provider();
    let first = p.read_text(10).unwrap();
    p.write_text(10, &first).unwrap();
    let second = p.read_text(10).unwrap();
    assert_eq!(second, "hello");
    assert_eq!(first, second);
    // the other files are untouched too
    assert_eq!(p.read_text(11).unwrap(), "plain");
    assert_eq!(p.read_text(12).unwrap(), "fn main() {}");
}

#[test]
fn scenario_b_edit_and_apply() {
    let mut p = scenario_provider();
    let tree = refresh(&p, 1).unwrap();
    let b_md = &tree[2];
    assert_eq!(b_md.name, "b.md");

    let mut session = EditorSession::new();
    assert_eq!(session.state, SessionState::Idle);
    assert!(session.select_in(b_md, &p).is_none());
    assert_eq!(session.state, SessionState::Clean);
    assert_eq!(session.buffer, "hello");
    assert!(!session.dirty());

    session.edit("hello!".to_string());
    assert_eq!(session.state, SessionState::Dirty);
    assert!(session.dirty());
    assert!(session.can_apply());

    assert!(session.apply_in(&mut p).is_none());
    assert_eq!(session.state, SessionState::Clean);
    assert!(!session.dirty());
    assert_eq!(session.buffer, "hello!");
    assert_eq!(p.read_text(10).unwrap(), "hello!");
}

#[test]
fn scenario_c_selecting_discards_dirty_buffer() {
    let mut p = scenario_provider();
    let tree = refresh(&p, 1).unwrap();
    let b_md = &tree[2];
    let c_rs = &tree[0].children[0];

    let mut session = EditorSession::new();
    assert!(session.select_in(b_md, &p).is_none());
    session.edit("doomed edit".to_string());
    assert!(session.dirty());

    assert!(session.select_in(c_rs, &p).is_none());
    assert_eq!(session.state, SessionState::Clean);
    assert_eq!(session.buffer, "fn main() {}");
    assert!(!session.dirty());
    // the discarded edit was never written
    assert_eq!(p.read_text(10).unwrap(), "hello");
}

#[test]
fn apply_is_a_no_op_unless_dirty() {
    let mut p = scenario_provider();
    let tree = refresh(&p, 1).unwrap();
    let b_md = &tree[2];

    let mut session = EditorSession::new();
    // idle: nothing selected
    assert!(session.apply_in(&mut p).is_none());
    assert_eq!(session.state, SessionState::Idle);

    // clean after a load: still a no-op, nothing is written
    assert!(session.select_in(b_md, &p).is_none());
    assert!(!session.can_apply());
    assert!(session.apply_in(&mut p).is_none());
    assert_eq!(session.state, SessionState::Clean);
    assert_eq!(p.read_text(10).unwrap(), "hello");
}

#[test]
fn selecting_inert_entries_changes_nothing() {
    let p = scenario_provider();
    let tree = refresh(&p, 1).unwrap();
    let a_txt = &tree[1];
    let z_dir = &tree[0];

    let mut session = EditorSession::new();
    assert!(session.select_in(a_txt, &p).is_none());
    assert_eq!(session.state, SessionState::Idle);
    assert!(session.select_in(z_dir, &p).is_none());
    assert_eq!(session.state, SessionState::Idle);
    assert!(session.selected.is_none());
}

#[test]
fn failed_load_reports_and_leaves_no_usable_buffer() {
    let p = MemProvider {
        dirs: vec![(1, Listing::Children(vec![raw("ghost.md", false, 40)]))],
        files: vec![],
    };
    let tree = refresh(&p, 1).unwrap();
    let mut session = EditorSession::new();
    let r = session.select_in(&tree[0], &p);
    assert_eq!(r, Some(HostError::ReadFailed));
    assert_eq!(session.state, SessionState::Loading);
    assert_eq!(session.buffer, "");
}

#[test]
fn failed_save_keeps_buffer_and_dirty_flag() {
    let p = scenario_provider();
    let tree = refresh(&p, 1).unwrap();
    let b_md = &tree[2];

    let mut session = EditorSession::new();
    assert!(session.select_in(b_md, &p).is_none());
    session.edit("unsaved".to_string());

    // the write goes against a provider that no longer has the file
    let mut gone = MemProvider { dirs: vec![], files: vec![] };
    let r = session.apply_in(&mut gone);
    assert_eq!(r, Some(HostError::WriteFailed));
    assert_eq!(session.state, SessionState::Dirty);
    assert!(session.dirty());
    assert_eq!(session.buffer, "unsaved");
}

#[test]
fn empty_directory_refreshes_to_empty_tree() {
    let p = MemProvider { dirs: vec![(1, Listing::Children(vec![]))], files: vec![] };
    let tree = refresh(&p, 1).unwrap();
    assert!(tree.is_empty());
}

#[test]
fn unicode_names_sort_by_character_order() {
    let v = vec![leaf("ß.md", 1), leaf("a.md", 2), leaf("Z.md", 3)];
    let sorted = sort_entries(v);
    let names: Vec<&str> = sorted.iter().map(|e| e.name.as_str()).collect();
    // 'Z' < 'a' < 'ß' by scalar value
    assert_eq!(names, vec!["Z.md", "a.md", "ß.md"]);
}
