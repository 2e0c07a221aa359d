use jj_workspace_store::hex::decode_hex;
use jj_workspace_store::hex::encode_hex;
use jj_workspace_store::hex::operation_ids_equal;
use jj_workspace_store::hex::OperationId;
use jj_workspace_store::order::bytes_less;
use jj_workspace_store::path::join_path;
use jj_workspace_store::path::path_components_of;
use jj_workspace_store::path::relative_path;
use jj_workspace_store::path::same_path;

fn comps(p: &str) -> Vec<Vec<u8>> {
    path_components_of(p.as_bytes())
}

fn strs(v: &[&str]) -> Vec<Vec<u8>> {
    v.iter().map(|s| s.as_bytes().to_vec()).collect()
}

#[test]
fn hex_encoding_is_lower_case() {
    assert_eq!(encode_hex(&[0x00, 0x1f, 0xa0, 0xff]), "001fa0ff");
    assert_eq!(encode_hex(&[]), "");
    assert_eq!(OperationId::new(vec![0x12, 0xab]).hex(), "12ab");
}

#[test]
fn hex_decoding_accepts_both_cases() {
    assert_eq!(decode_hex(b"001FA0ff"), Some(vec![0x00, 0x1f, 0xa0, 0xff]));
    assert_eq!(decode_hex(b""), Some(vec![]));
    assert_eq!(decode_hex(b"abc"), None);
    assert_eq!(decode_hex(b"zz"), None);
    assert_eq!(decode_hex(b"lock"), None);
}

#[test]
fn hex_round_trip() {
    let data: Vec<u8> = (0..=255u8).collect();
    let text = encode_hex(&data);
    assert_eq!(decode_hex(text.as_bytes()), Some(data));
}

#[test]
fn operation_id_from_hex() {
    let id = OperationId::from_hex("DEADbeef");
    assert_eq!(id.as_bytes(), &[0xde, 0xad, 0xbe, 0xef]);
    assert!(operation_ids_equal(&id, &OperationId::new(vec![0xde, 0xad, 0xbe, 0xef])));
    assert!(!operation_ids_equal(&id, &OperationId::new(vec![0xde, 0xad])));
}

#[test]
fn byte_order_is_lexicographic() {
    assert!(bytes_less(b"", b"a"));
    assert!(bytes_less(b"ab", b"b"));
    assert!(bytes_less(b"ab", b"abc"));
    assert!(!bytes_less(b"abc", b"ab"));
    assert!(!bytes_less(b"ab", b"ab"));
}

#[test]
fn join_adds_one_separator() {
    assert_eq!(join_path(b"/a", b"b"), b"/a/b".to_vec());
    assert_eq!(join_path(b"/a/", b"b"), b"/a/b".to_vec());
    assert_eq!(join_path(b"", b"b"), b"b".to_vec());
    assert_eq!(join_path(b"/a", b"/b"), b"/b".to_vec());
    assert_eq!(join_path(b"../..", b""), b"../../".to_vec());
}

#[test]
fn components_follow_unix_rules() {
    assert_eq!(comps("/a//b/./c/"), strs(&["/", "a", "b", "c"]));
    assert_eq!(comps("./a"), strs(&[".", "a"]));
    assert_eq!(comps("a/../b"), strs(&["a", "..", "b"]));
    assert_eq!(comps("."), strs(&["."]));
    assert_eq!(comps(""), strs(&[]));
    assert_eq!(comps("//"), strs(&["/"]));
    assert_eq!(comps("a/./."), strs(&["a"]));
}

#[test]
fn same_path_compares_components() {
    assert!(same_path(b"a//b/", b"a/b"));
    assert!(same_path(b"a/./b", b"a/b"));
    assert!(!same_path(b"/a", b"a"));
    assert!(!same_path(b"./a", b"a"));
    assert!(!same_path(b"a/b", b"a/c"));
}

#[test]
fn relative_paths() {
    let repo = comps("/home/u/repo/.jj/repo");
    assert_eq!(relative_path(&repo, b"/home/u/repo"), b"../../".to_vec());
    assert_eq!(relative_path(&repo, b"/home/u/other"), b"../../../other".to_vec());
    assert_eq!(relative_path(&repo, b"/home/u/repo/.jj/repo"), b".".to_vec());
    assert_eq!(relative_path(&repo, b"/home/u/repo/.jj/repo/sub/x"), b"sub/x".to_vec());
    assert_eq!(relative_path(&repo, b"/elsewhere"), b"../../../../../elsewhere".to_vec());
    assert_eq!(relative_path(&comps("a"), b"/x"), b"/x".to_vec());
    assert_eq!(relative_path(&comps("/r"), b"x/y"), b"x/y".to_vec());
}

#[test]
fn relative_path_leads_back_to_workspace() {
    // From /home/u/repo/.jj/repo, "../../../other" resolves to /home/u/other.
    let repo = comps("/home/u/repo/.jj/repo");
    let rel = relative_path(&repo, b"/home/u/other");
    let mut stack = repo.clone();
    for c in comps(std::str::from_utf8(&rel).unwrap()) {
        if c == b".." {
            stack.pop();
        } else if c != b"." {
            stack.push(c);
        }
    }
    assert_eq!(stack, comps("/home/u/other"));
}
