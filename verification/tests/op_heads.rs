use std::collections::BTreeSet;

use jj_workspace_store::hex::OperationId;
use jj_workspace_store::simple_op_heads_store::OpHeadsAction;
use jj_workspace_store::simple_op_heads_store::OpHeadsStoreError;
use jj_workspace_store::simple_op_heads_store::SimpleOpHeadsStore;
use jj_workspace_store::workspace_store::WorkspaceType;

/// A directory tree in memory: the paths that exist.
struct FakeFs {
    paths: BTreeSet<Vec<u8>>,
}

impl FakeFs {
    fn new() -> Self {
        FakeFs { paths: BTreeSet::new() }
    }

    fn parent_exists(&self, path: &[u8]) -> bool {
        match path.iter().rposition(|b| *b == b'/') {
            Some(0) | None => true,
            Some(i) => self.paths.contains(&path[..i]),
        }
    }

    fn apply(&mut self, steps: &[OpHeadsAction]) {
        for step in steps {
            match step {
                OpHeadsAction::CreateDir(p) => {
                    assert!(self.parent_exists(p), "no parent for {:?}", String::from_utf8_lossy(p));
                    assert!(self.paths.insert(p.clone()), "directory exists");
                }
                OpHeadsAction::WriteEmptyFile(p) => {
                    assert!(self.parent_exists(p), "no parent for {:?}", String::from_utf8_lossy(p));
                    self.paths.insert(p.clone());
                }
                OpHeadsAction::RemoveFile(p) => {
                    self.paths.remove(p);
                }
            }
        }
    }

    fn list(&self, dir: &[u8]) -> Vec<String> {
        let mut prefix = dir.to_vec();
        prefix.push(b'/');
        self.paths
            .iter()
            .filter(|p| p.starts_with(&prefix))
            .map(|p| p[prefix.len()..].to_vec())
            .filter(|rest| !rest.is_empty() && !rest.contains(&b'/'))
            .map(|rest| String::from_utf8(rest).unwrap())
            .collect()
    }
}

fn get_op_heads(
    store: &SimpleOpHeadsStore,
    fs: &FakeFs,
    name: &str,
    workspace_type: WorkspaceType,
) -> Vec<OperationId> {
    let dir = store.operations_dir(name, workspace_type);
    SimpleOpHeadsStore::get_op_heads(&fs.list(&dir)).unwrap()
}

#[test]
fn test_op_heads() {
    let mut fs = FakeFs::new();
    fs.apply(&[OpHeadsAction::CreateDir(b"/tmp".to_vec())]);
    let workspace_name = "default";
    let workspace_type = WorkspaceType::Regular;

    let op1 = OperationId::from_hex("1111");
    let op2 = OperationId::from_hex("2222");
    let op3 = OperationId::from_hex("3333");
    let op4 = OperationId::from_hex("4444");

    // Initial op head is respected
    let (op_heads_store, steps) =
        SimpleOpHeadsStore::init(b"/tmp", workspace_name, workspace_type, &op1);
    fs.apply(&steps);
    let op_heads = get_op_heads(&op_heads_store, &fs, workspace_name, workspace_type);
    assert_eq!(op_heads, vec![op1.clone()]);

    // Simple replacement
    fs.apply(&op_heads_store.update_op_heads(
        workspace_name,
        workspace_type,
        std::slice::from_ref(&op1),
        &op2,
    ));
    let op_heads = get_op_heads(&op_heads_store, &fs, workspace_name, workspace_type);
    assert_eq!(op_heads, vec![op2.clone()]);

    // Duplicating is a no-op
    fs.apply(&op_heads_store.update_op_heads(workspace_name, workspace_type, &[], &op2));
    let op_heads = get_op_heads(&op_heads_store, &fs, workspace_name, workspace_type);
    assert_eq!(op_heads, vec![op2.clone()]);

    // Deleting non-head is a no-op
    fs.apply(&op_heads_store.update_op_heads(
        workspace_name,
        workspace_type,
        std::slice::from_ref(&op1),
        &op2,
    ));
    let op_heads = get_op_heads(&op_heads_store, &fs, workspace_name, workspace_type);
    assert_eq!(op_heads, vec![op2.clone()]);

    // Can create multiple heads
    fs.apply(&op_heads_store.update_op_heads(workspace_name, workspace_type, &[], &op3));
    let op_heads = get_op_heads(&op_heads_store, &fs, workspace_name, workspace_type);
    assert_eq!(op_heads, vec![op2.clone(), op3.clone()]);

    // Can replace multiple heads
    fs.apply(&op_heads_store.update_op_heads(
        workspace_name,
        workspace_type,
        &[op2.clone(), op3.clone()],
        &op4,
    ));
    let op_heads = get_op_heads(&op_heads_store, &fs, workspace_name, workspace_type);
    assert_eq!(op_heads, vec![op4.clone()]);

    // Can replace multiple heads by one of the old heads
    fs.apply(&op_heads_store.update_op_heads(workspace_name, workspace_type, &[], &op3));
    fs.apply(&op_heads_store.update_op_heads(
        workspace_name,
        workspace_type,
        &[op3.clone(), op4.clone()],
        &op4,
    ));
    let op_heads = get_op_heads(&op_heads_store, &fs, workspace_name, workspace_type);
    assert_eq!(op_heads, vec![op4.clone()]);
}

#[test]
fn init_steps_of_regular_workspace() {
    let op = OperationId::from_hex("abcd");
    let (store, steps) = SimpleOpHeadsStore::init(b"/r/op_heads", "ws", WorkspaceType::Regular, &op);
    assert_eq!(store.repo_heads_dir(), b"/r/op_heads/heads".to_vec());
    assert_eq!(
        steps,
        vec![
            OpHeadsAction::CreateDir(b"/r/op_heads/heads".to_vec()),
            OpHeadsAction::CreateDir(b"/r/op_heads/workspace_heads".to_vec()),
            OpHeadsAction::WriteEmptyFile(b"/r/op_heads/heads/abcd".to_vec()),
        ]
    );
}

#[test]
fn init_steps_of_independent_workspace() {
    let op = OperationId::from_hex("00ff");
    let (_store, steps) = SimpleOpHeadsStore::init(b"/r/op_heads/", "ws1", WorkspaceType::Independent, &op);
    assert_eq!(
        steps,
        vec![
            OpHeadsAction::CreateDir(b"/r/op_heads/heads".to_vec()),
            OpHeadsAction::CreateDir(b"/r/op_heads/workspace_heads".to_vec()),
            OpHeadsAction::CreateDir(b"/r/op_heads/workspace_heads/ws1".to_vec()),
            OpHeadsAction::WriteEmptyFile(b"/r/op_heads/workspace_heads/ws1/00ff".to_vec()),
        ]
    );
}

#[test]
fn operations_dir_by_type() {
    let store = SimpleOpHeadsStore::load(b"root");
    assert_eq!(store.operations_dir("w", WorkspaceType::Regular), b"root/heads".to_vec());
    assert_eq!(
        store.operations_dir("w", WorkspaceType::Independent),
        b"root/workspace_heads/w".to_vec()
    );
    assert_eq!(store.workspace_heads_dir("w"), b"root/workspace_heads/w".to_vec());
    assert_eq!(store.lock("w", WorkspaceType::Independent), b"root/workspace_heads/w/lock".to_vec());
    assert_eq!(store.lock("w", WorkspaceType::Regular), b"root/heads/lock".to_vec());
}

#[test]
fn update_steps_skip_the_new_head() {
    let store = SimpleOpHeadsStore::load(b"/x");
    let a = OperationId::from_hex("aa");
    let b = OperationId::from_hex("bb");
    let steps = store.update_op_heads("d", WorkspaceType::Regular, &[a.clone(), b.clone(), a.clone()], &b);
    assert_eq!(
        steps,
        vec![
            OpHeadsAction::WriteEmptyFile(b"/x/heads/bb".to_vec()),
            OpHeadsAction::RemoveFile(b"/x/heads/aa".to_vec()),
            OpHeadsAction::RemoveFile(b"/x/heads/aa".to_vec()),
        ]
    );
}

#[test]
fn init_per_workspace_steps() {
    let store = SimpleOpHeadsStore::load(b"/x");
    let root = OperationId::from_hex("0000");
    assert_eq!(
        store.init_per_workspace_op_heads("agent", &root),
        vec![
            OpHeadsAction::CreateDir(b"/x/workspace_heads/agent".to_vec()),
            OpHeadsAction::WriteEmptyFile(b"/x/workspace_heads/agent/0000".to_vec()),
        ]
    );
}

#[test]
fn op_heads_skip_other_files_and_sort() {
    let names = vec![
        "lock".to_string(),
        "ff".to_string(),
        "0a".to_string(),
        "0A".to_string(),
        "abc".to_string(),
        "".to_string(),
        "00ff".to_string(),
    ];
    let heads = SimpleOpHeadsStore::get_op_heads(&names).unwrap();
    assert_eq!(
        heads,
        vec![
            OperationId::new(vec![]),
            OperationId::new(vec![0x00, 0xff]),
            OperationId::new(vec![0x0a]),
            OperationId::new(vec![0x0a]),
            OperationId::new(vec![0xff]),
        ]
    );
}

#[test]
fn op_heads_none_is_corrupt() {
    let names = vec!["lock".to_string(), "xyz1".to_string()];
    match SimpleOpHeadsStore::get_op_heads(&names) {
        Err(OpHeadsStoreError::Read(message)) => {
            assert_eq!(message, "Corrupt repository: no head operation")
        }
        other => panic!("unexpected {other:?}"),
    }
    assert!(SimpleOpHeadsStore::get_op_heads(&[]).is_err());
}

#[test]
fn store_names() {
    assert_eq!(SimpleOpHeadsStore::name(), "simple_op_heads_store");
}


#[test]
fn listing_of_written_heads_reads_them_back() {
    let ids = vec![
        OperationId::new(vec![0x10, 0x20]),
        OperationId::new(vec![0x01]),
        OperationId::new(vec![0xfe, 0xdc, 0xba]),
    ];
    let names: Vec<String> = ids.iter().map(|id| id.hex()).collect();
    let heads = SimpleOpHeadsStore::get_op_heads(&names).unwrap();
    assert_eq!(heads, vec![ids[1].clone(), ids[0].clone(), ids[2].clone()]);
}

#[test]
fn non_hex_names_change_nothing() {
    let plain = vec!["01".to_string(), "ff".to_string()];
    let with_others = vec![
        "lock".to_string(),
        "01".to_string(),
        "tmp.x".to_string(),
        "ff".to_string(),
        "g0".to_string(),
    ];
    assert_eq!(
        SimpleOpHeadsStore::get_op_heads(&plain).unwrap(),
        SimpleOpHeadsStore::get_op_heads(&with_others).unwrap()
    );
}

#[test]
fn op_heads_ignore_listing_order() {
    let a = vec!["ff".to_string(), "lock".to_string(), "01".to_string(), "01".to_string()];
    let b = vec!["01".to_string(), "01".to_string(), "ff".to_string()];
    assert_eq!(
        SimpleOpHeadsStore::get_op_heads(&a).unwrap(),
        SimpleOpHeadsStore::get_op_heads(&b).unwrap()
    );
    // Two regular workspaces read the same directory.
    let store = SimpleOpHeadsStore::load(b"/r");
    assert_eq!(
        store.operations_dir("one", WorkspaceType::Regular),
        store.operations_dir("two", WorkspaceType::Regular)
    );
}

#[test]
fn interrupted_update_keeps_new_head() {
    let mut fs = FakeFs::new();
    fs.apply(&[OpHeadsAction::CreateDir(b"/w".to_vec())]);
    let old = OperationId::from_hex("aa");
    let new = OperationId::from_hex("bb");
    let (store, steps) = SimpleOpHeadsStore::init(b"/w", "ws", WorkspaceType::Independent, &old);
    fs.apply(&steps);
    let other = fs.paths.contains(&b"/w/heads".to_vec());
    let update = store.update_op_heads("ws", WorkspaceType::Independent, &[old.clone()], &new);
    for m in 1..=update.len() {
        let mut partial = FakeFs { paths: fs.paths.clone() };
        partial.apply(&update[..m]);
        assert!(partial.paths.contains(&b"/w/workspace_heads/ws/bb".to_vec()));
        assert_eq!(partial.paths.contains(&b"/w/heads".to_vec()), other);
    }
}
