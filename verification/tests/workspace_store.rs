use jj_workspace_store::protos::Workspace;
use jj_workspace_store::protos::Workspaces;
use jj_workspace_store::simple_workspace_store::SimpleWorkspaceStore;
use jj_workspace_store::workspace_store::WorkspaceMetadata;
use jj_workspace_store::workspace_store::WorkspaceStoreError;
use jj_workspace_store::workspace_store::WorkspaceType;

fn record(name: &str, path: &str, workspace_type: i32) -> Workspace {
    Workspace {
        name: name.to_string(),
        path: path.as_bytes().to_vec(),
        workspace_type,
    }
}

fn store() -> SimpleWorkspaceStore {
    SimpleWorkspaceStore::new(b"/home/u/repo/.jj/repo/workspace_store")
}

fn names_and_types(all: &[WorkspaceMetadata]) -> Vec<(String, WorkspaceType)> {
    all.iter()
        .map(|m| (m.name().to_string(), m.workspace_type()))
        .collect()
}

#[test]
fn metadata_accessors() {
    let m = WorkspaceMetadata::new("default".to_string(), WorkspaceType::Independent);
    assert_eq!(m.name(), "default");
    assert_eq!(m.workspace_type(), WorkspaceType::Independent);
}

#[test]
fn store_files() {
    let s = store();
    assert_eq!(s.store_dir(), b"/home/u/repo/.jj/repo/workspace_store");
    assert_eq!(s.store_file(), b"/home/u/repo/.jj/repo/workspace_store/index");
    assert_eq!(s.lock_file(), b"/home/u/repo/.jj/repo/workspace_store/index.lock");
    assert_eq!(SimpleWorkspaceStore::name(), "simple_workspace_store");
    let (_s, index) = SimpleWorkspaceStore::init(b"d/");
    assert_eq!(_s.store_file(), b"d/index");
    assert_eq!(index, Workspaces::default());
}

#[test]
fn load_initializes_missing_index() {
    let (_s, index) = SimpleWorkspaceStore::load(b"/r/ws", false);
    assert_eq!(index, Some(Workspaces::default()));
    let (_s, index) = SimpleWorkspaceStore::load(b"/r/ws", true);
    assert_eq!(index, None);
}

#[test]
fn canonical_paths_are_relative_to_repo() {
    let s = store();
    assert_eq!(s.to_canonical_workspace_path(b"/home/u/repo"), b"../../".to_vec());
    assert_eq!(s.to_canonical_workspace_path(b"/home/u/ws2"), b"../../../ws2".to_vec());
}

#[test]
fn add_records_path_and_type() {
    let s = store();
    let index = s.add(Workspaces::default(), "default", b"/home/u/repo", WorkspaceType::Regular);
    let index = s.add(index, "agent", b"/home/u/agent", WorkspaceType::Independent);
    assert_eq!(
        index.workspaces,
        vec![
            record("default", "../../", 0),
            record("agent", "../../../agent", 1),
        ]
    );
    assert_eq!(
        SimpleWorkspaceStore::get_workspace_path(&index, "agent"),
        Some(b"../../../agent".to_vec())
    );
    assert_eq!(
        SimpleWorkspaceStore::get_workspace_type(&index, "agent"),
        Some(WorkspaceType::Independent)
    );
    assert_eq!(SimpleWorkspaceStore::get_workspace_type(&index, "nope"), None);
    assert_eq!(SimpleWorkspaceStore::get_workspace_path(&index, "nope"), None);
}

#[test]
fn add_replaces_existing_name() {
    let s = store();
    let index = Workspaces {
        workspaces: vec![
            record("a", "x", 0),
            record("b", "y", 1),
            record("a", "z", 1),
        ],
    };
    let index = s.add(index, "a", b"/home/u/repo/.jj/repo/w", WorkspaceType::Regular);
    assert_eq!(index.workspaces, vec![record("b", "y", 1), record("a", "w", 0)]);
}

#[test]
fn forget_drops_listed_names() {
    let index = Workspaces {
        workspaces: vec![
            record("a", "x", 0),
            record("b", "y", 1),
            record("c", "z", 0),
            record("a", "w", 0),
        ],
    };
    let index = SimpleWorkspaceStore::forget(index, &["a".to_string(), "q".to_string()]);
    assert_eq!(index.workspaces, vec![record("b", "y", 1), record("c", "z", 0)]);
    let index = SimpleWorkspaceStore::forget(index, &[]);
    assert_eq!(index.workspaces.len(), 2);
}

#[test]
fn rename_renames_every_record_of_the_name() {
    let index = Workspaces {
        workspaces: vec![record("a", "x", 0), record("b", "y", 1), record("a", "w", 1)],
    };
    let index = SimpleWorkspaceStore::rename(index, "a", "c");
    assert_eq!(
        index.workspaces,
        vec![record("c", "x", 0), record("b", "y", 1), record("c", "w", 1)]
    );
    assert_eq!(
        SimpleWorkspaceStore::get_workspace_path(&index, "c"),
        Some(b"x".to_vec())
    );
    assert_eq!(SimpleWorkspaceStore::get_workspace_path(&index, "a"), None);
}

#[test]
fn lookup_by_name_takes_the_first_record() {
    let index = Workspaces {
        workspaces: vec![record("a", "x", 7), record("a", "w", 1)],
    };
    let (m, p) = SimpleWorkspaceStore::get_workspace_metadata_by_workspace_name(&index, "a").unwrap();
    assert_eq!(m.name(), "a");
    assert_eq!(m.workspace_type(), WorkspaceType::Regular);
    assert_eq!(p, b"x".to_vec());
}

#[test]
fn lookup_by_path_compares_paths() {
    let s = store();
    let index = Workspaces {
        workspaces: vec![
            record("one", "../../../one", 0),
            record("two", "../..//../two/", 1),
        ],
    };
    let m = s
        .get_workspace_metadata_by_workspace_path(&index, b"/home/u/two")
        .unwrap();
    assert_eq!(m.name(), "two");
    assert_eq!(m.workspace_type(), WorkspaceType::Independent);
    assert!(s
        .get_workspace_metadata_by_workspace_path(&index, b"/home/u/three")
        .is_none());
}

#[test]
fn all_workspaces_sorted_by_name() {
    let index = Workspaces {
        workspaces: vec![
            record("zeta", "1", 0),
            record("alpha", "2", 1),
            record("mid", "3", 0),
            record("alpha", "4", 0),
            record("Zed", "5", 1),
        ],
    };
    let all = SimpleWorkspaceStore::get_all_workspaces(&index);
    assert_eq!(
        names_and_types(&all),
        vec![
            ("Zed".to_string(), WorkspaceType::Independent),
            ("alpha".to_string(), WorkspaceType::Independent),
            ("alpha".to_string(), WorkspaceType::Regular),
            ("mid".to_string(), WorkspaceType::Regular),
            ("zeta".to_string(), WorkspaceType::Regular),
        ]
    );
}

#[test]
fn proto_conversions() {
    let m = SimpleWorkspaceStore::proto_to_workspace_metadata(&record("w", "p", 1));
    assert_eq!(m.workspace_type(), WorkspaceType::Independent);
    let back = SimpleWorkspaceStore::workspace_metadata_to_proto(&m, b"q");
    assert_eq!(back, record("w", "q", 1));
    assert_eq!(record("w", "p", 5).workspace_type(), WorkspaceType::Regular);
}

#[test]
fn store_error_variants() {
    let e = WorkspaceStoreError::StoreNotFound(b"/nowhere".to_vec());
    assert!(matches!(e, WorkspaceStoreError::StoreNotFound(ref p) if p == b"/nowhere"));
    let e = WorkspaceStoreError::Other("boom".to_string());
    assert!(matches!(e, WorkspaceStoreError::Other(ref m) if m == "boom"));
}

#[test]
fn added_workspace_found_by_its_path() {
    let s = store();
    let index = s.add(Workspaces::default(), "default", b"/home/u/repo", WorkspaceType::Regular);
    let index = s.add(index, "side", b"/home/u/side", WorkspaceType::Independent);
    let m = s.get_workspace_metadata_by_workspace_path(&index, b"/home/u/side").unwrap();
    assert_eq!(m.name(), "side");
    assert_eq!(m.workspace_type(), WorkspaceType::Independent);
    let m = s.get_workspace_metadata_by_workspace_path(&index, b"/home/u/repo").unwrap();
    assert_eq!(m.name(), "default");
}
