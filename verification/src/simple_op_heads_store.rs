//! The file-based store of operation heads: which directories and files it
//! creates and removes, and which operation heads a listing of a heads
//! directory stands for.
//!
//! An operation head is an empty file named by the hexadecimal text of the
//! operation's identifier. The heads of the repository lie in `heads` under
//! the store's root; those of an independent workspace lie in a directory
//! named after the workspace under `workspace_heads`. The functions here say
//! what to create, write or remove, in order; carrying it out, and listing a
//! directory, happen around them.

use vstd::prelude::*;

use vstd::string::StringSliceAdditionalSpecFns;
use vstd::utf8::encode_utf8;

use crate::hex::decode_hex;
use crate::hex::lemma_decode_encode_hex;
use crate::hex::spec_decode_hex;
use crate::hex::spec_encode_hex;
use crate::hex::operation_ids_equal;
use crate::hex::OperationId;
use crate::order::byte_key_of;
use crate::order::id_key;
use crate::order::lemma_stable_sort_unique;
use crate::order::is_stable_sort;
use crate::order::lemma_stable_sort_map;
use crate::order::stable_sort_by_key;
use crate::path::join_path;
use crate::path::spec_join;
use crate::workspace_store::WorkspaceType;

verus! {

/// An error on a path: the path and what went wrong there.
#[derive(Debug)]
pub struct PathError {
    /// The path.
    pub path: Vec<u8>,
    /// What went wrong.
    pub message: String,
}

/// Error that may occur during `SimpleOpHeadsStore` initialization.
#[derive(Debug)]
pub struct SimpleOpHeadsStoreInitError(pub PathError);

/// Errors of the operation-heads store.
#[derive(Debug)]
pub enum OpHeadsStoreError {
    /// Reading the heads failed.
    Read(String),
    /// Recording the new head `new_op_id` failed.
    Write {
        /// The operation that was to become a head.
        new_op_id: OperationId,
        /// What went wrong.
        source: String,
    },
    /// Locking the heads failed.
    Lock(String),
    /// Setting up the heads of a workspace failed.
    Init(String),
}

/// A step on the file system.
#[derive(Debug, Clone, PartialEq, Eq)]
pub enum OpHeadsAction {
    /// Create the directory at this path; it is an error if it exists.
    CreateDir(Vec<u8>),
    /// Write an empty file at this path.
    WriteEmptyFile(Vec<u8>),
    /// Remove the file at this path; a file that is not there is no error.
    RemoveFile(Vec<u8>),
}

/// What an `OpHeadsAction` does, on which path.
pub enum OpHeadsActionView {
    /// Create a directory.
    CreateDir(Seq<u8>),
    /// Write an empty file.
    WriteEmptyFile(Seq<u8>),
    /// Remove a file, if it is there.
    RemoveFile(Seq<u8>),
}

impl View for OpHeadsAction {
    type V = OpHeadsActionView;

    open spec fn view(&self) -> OpHeadsActionView {
        match self {
            OpHeadsAction::CreateDir(p) => OpHeadsActionView::CreateDir(p@),
            OpHeadsAction::WriteEmptyFile(p) => OpHeadsActionView::WriteEmptyFile(p@),
            OpHeadsAction::RemoveFile(p) => OpHeadsActionView::RemoveFile(p@),
        }
    }
}

/// The views of a sequence of actions.
pub open spec fn action_views(s: Seq<OpHeadsAction>) -> Seq<OpHeadsActionView> {
    s.map_values(|a: OpHeadsAction| a@)
}

/// The bytes of `heads`.
pub open spec fn heads_name() -> Seq<u8> {
    seq![104u8, 101u8, 97u8, 100u8, 115u8]
}

/// The bytes of `workspace_heads`.
pub open spec fn workspace_heads_name() -> Seq<u8> {
    seq![119u8, 111u8, 114u8, 107u8, 115u8, 112u8, 97u8, 99u8, 101u8, 95u8, 104u8, 101u8, 97u8, 100u8, 115u8]
}

/// The bytes of `lock`.
pub open spec fn lock_name() -> Seq<u8> {
    seq![108u8, 111u8, 99u8, 107u8]
}

/// The name of the file that records the head `id`: the lower-case
/// hexadecimal text of its bytes.
pub open spec fn head_file_name(id: Seq<u8>) -> Seq<u8> {
    encode_utf8(spec_encode_hex(id))
}

/// Returns the UTF-8 bytes of `s`.
fn str_bytes(s: &str) -> (res: Vec<u8>)
    ensures
        res@ == s.spec_bytes(),
{
    vstd::slice::slice_to_vec(s.as_bytes())
}

/// Returns the name of the file that records the head `id`.
fn head_file_name_of(id: &OperationId) -> (res: Vec<u8>)
    ensures
        res@ == head_file_name(id.id_bytes()),
{
    let text = id.hex();
    str_bytes(text.as_str())
}

/// A simple file-based store of operation heads under a root directory.
#[derive(Debug)]
pub struct SimpleOpHeadsStore {
    root_dir: Vec<u8>,
}

impl SimpleOpHeadsStore {
    /// The root directory of the store.
    pub closed spec fn spec_root_dir(&self) -> Seq<u8> {
        self.root_dir@
    }

    /// The directory of the repository's heads.
    pub open spec fn spec_repo_heads_dir(&self) -> Seq<u8> {
        spec_join(self.spec_root_dir(), heads_name())
    }

    /// The directory of the heads of the independent workspace `name`.
    pub open spec fn spec_workspace_heads_dir(&self, name: Seq<char>) -> Seq<u8> {
        spec_join(spec_join(self.spec_root_dir(), workspace_heads_name()), encode_utf8(name))
    }

    /// The directory of the heads that a workspace of the given name and
    /// type works on.
    pub open spec fn spec_operations_dir(&self, name: Seq<char>, t: WorkspaceType) -> Seq<u8> {
        match t {
            WorkspaceType::Regular => self.spec_repo_heads_dir(),
            WorkspaceType::Independent => self.spec_workspace_heads_dir(name),
        }
    }

    /// The file that records the head `id` for a workspace of the given name
    /// and type.
    pub open spec fn spec_head_file(&self, name: Seq<char>, t: WorkspaceType, id: Seq<u8>) -> Seq<u8> {
        spec_join(self.spec_operations_dir(name, t), head_file_name(id))
    }

    /// Returns the name of this OpHeadsStore implementation.
    pub fn name() -> (res: &'static str)
        ensures
            res@ == "simple_op_heads_store"@,
    {
        "simple_op_heads_store"
    }

    /// Returns the store whose root directory is `root_dir`.
    pub fn load(root_dir: &[u8]) -> (res: Self)
        ensures
            res.spec_root_dir() == root_dir@,
    {
        SimpleOpHeadsStore { root_dir: vstd::slice::slice_to_vec(root_dir) }
    }

    /// Returns the store whose root directory is `root_dir`, with the steps
    /// that initialize it for the workspace `workspace_name` of type
    /// `workspace_type` with `root_op_id` as its one head.
    pub fn init(
        root_dir: &[u8],
        workspace_name: &str,
        workspace_type: WorkspaceType,
        root_op_id: &OperationId,
    ) -> (res: (Self, Vec<OpHeadsAction>))
        ensures
            res.0.spec_root_dir() == root_dir@,
            action_views(res.1@) == res.0.spec_initialize(
                workspace_name@,
                workspace_type,
                root_op_id.id_bytes(),
            ),
    {
        let store = Self::load(root_dir);
        let steps = store.initialize(workspace_name, workspace_type, root_op_id);
        (store, steps)
    }

    /// The steps that initialize the store: create the directory of the
    /// repository's heads and the directory of workspace heads, for an
    /// independent workspace its own heads directory too, then record the
    /// root operation as the workspace's head.
    pub open spec fn spec_initialize(&self, name: Seq<char>, t: WorkspaceType, root: Seq<u8>) -> Seq<
        OpHeadsActionView,
    > {
        let dirs = seq![
            OpHeadsActionView::CreateDir(self.spec_repo_heads_dir()),
            OpHeadsActionView::CreateDir(spec_join(self.spec_root_dir(), workspace_heads_name())),
        ];
        let dirs = match t {
            WorkspaceType::Regular => dirs,
            WorkspaceType::Independent => dirs.push(
                OpHeadsActionView::CreateDir(self.spec_workspace_heads_dir(name)),
            ),
        };
        dirs.push(OpHeadsActionView::WriteEmptyFile(self.spec_head_file(name, t, root)))
    }

    /// Returns the steps that initialize the store.
    fn initialize(
        &self,
        workspace_name: &str,
        workspace_type: WorkspaceType,
        root_op_id: &OperationId,
    ) -> (res: Vec<OpHeadsAction>)
        ensures
            action_views(res@) == self.spec_initialize(
                workspace_name@,
                workspace_type,
                root_op_id.id_bytes(),
            ),
    {
        let mut steps: Vec<OpHeadsAction> = Vec::new();
        steps.push(OpHeadsAction::CreateDir(self.repo_heads_dir()));
        steps.push(OpHeadsAction::CreateDir(self.workspace_heads_root()));
        match workspace_type {
            WorkspaceType::Regular => {},
            WorkspaceType::Independent => {
                steps.push(OpHeadsAction::CreateDir(self.workspace_heads_dir(workspace_name)));
            },
        }
        steps.push(self.add_op_head(workspace_name, workspace_type, root_op_id));
        assert(action_views(steps@) =~= self.spec_initialize(
            workspace_name@,
            workspace_type,
            root_op_id.id_bytes(),
        ));
        steps
    }

    /// Returns the step that records `id` as a head.
    fn add_op_head(&self, workspace_name: &str, workspace_type: WorkspaceType, id: &OperationId) -> (res:
        OpHeadsAction)
        ensures
            res@ == OpHeadsActionView::WriteEmptyFile(
                self.spec_head_file(workspace_name@, workspace_type, id.id_bytes()),
            ),
    {
        let dir = self.operations_dir(workspace_name, workspace_type);
        let file = head_file_name_of(id);
        OpHeadsAction::WriteEmptyFile(join_path(dir.as_slice(), file.as_slice()))
    }

    /// Returns the step that removes `id` as a head.
    fn remove_op_head(&self, workspace_name: &str, workspace_type: WorkspaceType, id: &OperationId) -> (res:
        OpHeadsAction)
        ensures
            res@ == OpHeadsActionView::RemoveFile(
                self.spec_head_file(workspace_name@, workspace_type, id.id_bytes()),
            ),
    {
        let dir = self.operations_dir(workspace_name, workspace_type);
        let file = head_file_name_of(id);
        OpHeadsAction::RemoveFile(join_path(dir.as_slice(), file.as_slice()))
    }

    /// Returns the directory of the heads that a workspace of the given name
    /// and type works on.
    pub fn operations_dir(&self, workspace_name: &str, workspace_type: WorkspaceType) -> (res: Vec<
        u8,
    >)
        ensures
            res@ == self.spec_operations_dir(workspace_name@, workspace_type),
    {
        match workspace_type {
            WorkspaceType::Regular => self.repo_heads_dir(),
            WorkspaceType::Independent => self.workspace_heads_dir(workspace_name),
        }
    }

    /// Returns the directory of the repository's heads.
    pub fn repo_heads_dir(&self) -> (res: Vec<u8>)
        ensures
            res@ == self.spec_repo_heads_dir(),
    {
        let lit = "heads";
        let name = str_bytes(lit);
        proof {
            reveal_strlit("heads");
            assert(vstd::string::is_ascii(lit));
            vstd::string::is_ascii_spec_bytes(lit);
            assert(name@ =~= heads_name());
        }
        join_path(self.root_dir.as_slice(), name.as_slice())
    }

    /// Returns the directory that holds the heads directories of workspaces.
    fn workspace_heads_root(&self) -> (res: Vec<u8>)
        ensures
            res@ == spec_join(self.spec_root_dir(), workspace_heads_name()),
    {
        let lit = "workspace_heads";
        let name = str_bytes(lit);
        proof {
            reveal_strlit("workspace_heads");
            assert(vstd::string::is_ascii(lit));
            vstd::string::is_ascii_spec_bytes(lit);
            assert(name@ =~= workspace_heads_name());
        }
        join_path(self.root_dir.as_slice(), name.as_slice())
    }

    /// Returns the directory of the heads of the independent workspace
    /// `workspace_name`.
    pub fn workspace_heads_dir(&self, workspace_name: &str) -> (res: Vec<u8>)
        ensures
            res@ == self.spec_workspace_heads_dir(workspace_name@),
    {
        let root = self.workspace_heads_root();
        join_path(root.as_slice(), workspace_name.as_bytes())
    }

    /// The steps that make `new_id` a head in place of `old_ids`: record
    /// the new head first, then remove each old head that is not the new one.
    pub open spec fn spec_update_op_heads(
        &self,
        name: Seq<char>,
        t: WorkspaceType,
        old_ids: Seq<Seq<u8>>,
        new_id: Seq<u8>,
    ) -> Seq<OpHeadsActionView> {
        seq![OpHeadsActionView::WriteEmptyFile(self.spec_head_file(name, t, new_id))] + old_ids.filter(
            differs_from(new_id),
        ).map_values(self.remove_step(name, t))
    }

    /// The step that removes a head.
    pub open spec fn remove_step(&self, name: Seq<char>, t: WorkspaceType) -> spec_fn(Seq<u8>) -> OpHeadsActionView {
        |o: Seq<u8>| OpHeadsActionView::RemoveFile(self.spec_head_file(name, t, o))
    }

    /// Returns the steps that make `new_id` a head in place of `old_ids`.
    pub fn update_op_heads(
        &self,
        workspace_name: &str,
        workspace_type: WorkspaceType,
        old_ids: &[OperationId],
        new_id: &OperationId,
    ) -> (res: Vec<OpHeadsAction>)
        ensures
            action_views(res@) == self.spec_update_op_heads(
                workspace_name@,
                workspace_type,
                old_ids@.map_values(|o: OperationId| o.id_bytes()),
                new_id.id_bytes(),
            ),
    {
        let ghost olds = old_ids@.map_values(|o: OperationId| o.id_bytes());
        let ghost keep = differs_from(new_id.id_bytes());
        let ghost to_step = self.remove_step(workspace_name@, workspace_type);
        let mut steps: Vec<OpHeadsAction> = Vec::new();
        steps.push(self.add_op_head(workspace_name, workspace_type, new_id));
        let ghost first = action_views(steps@);
        let mut i: usize = 0;
        proof {
            reveal(Seq::filter);
            assert(olds.take(0) =~= Seq::<Seq<u8>>::empty());
            assert(action_views(steps@) =~= first + olds.take(0).filter(keep).map_values(to_step));
        }
        while i < old_ids.len()
            invariant
                olds == old_ids@.map_values(|o: OperationId| o.id_bytes()),
                keep == differs_from(new_id.id_bytes()),
                to_step == self.remove_step(workspace_name@, workspace_type),
                i <= old_ids@.len(),
                action_views(steps@) == first + olds.take(i as int).filter(keep).map_values(to_step),
            decreases old_ids.len() - i,
        {
            let ghost before = action_views(steps@);
            proof {
                assert(olds[i as int] == old_ids@[i as int].id_bytes());
                assert(olds.take(i + 1) =~= olds.take(i as int).push(olds[i as int]));
                olds.take(i as int).lemma_filter_push(olds[i as int], keep);
            }
            if !operation_ids_equal(&old_ids[i], new_id) {
                let step = self.remove_op_head(workspace_name, workspace_type, &old_ids[i]);
                let ghost prev = steps@;
                steps.push(step);
                proof {
                    let kept = olds.take(i as int).filter(keep);
                    assert(step@ == to_step(olds[i as int]));
                    assert(steps@ =~= prev.push(step));
                    assert(action_views(steps@) =~= before.push(step@));
                    assert(kept.push(olds[i as int]).map_values(to_step) =~= kept.map_values(to_step).push(
                        to_step(olds[i as int]),
                    ));
                }
                assert(action_views(steps@) =~= first + olds.take(i + 1).filter(keep).map_values(to_step));
            } else {
                assert(action_views(steps@) =~= first + olds.take(i + 1).filter(keep).map_values(to_step));
            }
            i = i + 1;
        }
        proof {
            assert(olds.take(old_ids@.len() as int) =~= olds);
        }
        steps
    }

    /// Returns the steps that give the independent workspace
    /// `workspace_name` its own heads: create its heads directory, then
    /// record `root_op_id` as its head.
    pub fn init_per_workspace_op_heads(&self, workspace_name: &str, root_op_id: &OperationId) -> (res:
        Vec<OpHeadsAction>)
        ensures
            action_views(res@) == seq![
                OpHeadsActionView::CreateDir(self.spec_workspace_heads_dir(workspace_name@)),
                OpHeadsActionView::WriteEmptyFile(
                    self.spec_head_file(workspace_name@, WorkspaceType::Independent, root_op_id.id_bytes()),
                ),
            ],
    {
        let mut steps: Vec<OpHeadsAction> = Vec::new();
        steps.push(OpHeadsAction::CreateDir(self.operations_dir(workspace_name, WorkspaceType::Independent)));
        steps.push(self.add_op_head(workspace_name, WorkspaceType::Independent, root_op_id));
        assert(action_views(steps@) =~= seq![
            OpHeadsActionView::CreateDir(self.spec_workspace_heads_dir(workspace_name@)),
            OpHeadsActionView::WriteEmptyFile(
                self.spec_head_file(workspace_name@, WorkspaceType::Independent, root_op_id.id_bytes()),
            ),
        ]);
        steps
    }

    /// Returns the lock file of the heads that a workspace of the given name
    /// and type works on: `lock` in their directory.
    pub fn lock(&self, workspace_name: &str, workspace_type: WorkspaceType) -> (res: Vec<u8>)
        ensures
            res@ == spec_join(self.spec_operations_dir(workspace_name@, workspace_type), lock_name()),
    {
        let dir = self.operations_dir(workspace_name, workspace_type);
        let lit = "lock";
        let name = str_bytes(lit);
        proof {
            reveal_strlit("lock");
            assert(vstd::string::is_ascii(lit));
            vstd::string::is_ascii_spec_bytes(lit);
            assert(name@ =~= lock_name());
        }
        join_path(dir.as_slice(), name.as_slice())
    }

    /// Returns the heads that the file names of a heads directory stand
    /// for, sorted: every name that is hexadecimal text stands for the
    /// operation with those bytes; other names are skipped. No head at all
    /// means the repository is corrupt.
    pub fn get_op_heads(file_names: &[String]) -> (res: Result<Vec<OperationId>, OpHeadsStoreError>)
        ensures
            match res {
                Ok(v) => {
                    &&& listed_heads(file_names@.map_values(|n: String| n@)).len() > 0
                    &&& is_stable_sort(
                        v@.map_values(|o: OperationId| o.id_bytes()),
                        listed_heads(file_names@.map_values(|n: String| n@)),
                        id_key(),
                    )
                },
                Err(e) => {
                    &&& listed_heads(file_names@.map_values(|n: String| n@)).len() == 0
                    &&& e matches OpHeadsStoreError::Read(m)
                    &&& m@ == "Corrupt repository: no head operation"@
                },
            },
    {
        let ghost names = file_names@.map_values(|n: String| n@);
        let ghost bytes = names.map_values(|n: Seq<char>| encode_utf8(n));
        let mut ids: Vec<OperationId> = Vec::new();
        let mut i: usize = 0;
        proof {
            assert(bytes.take(0) =~= Seq::<Seq<u8>>::empty());
            assert(ids@.map_values(|o: OperationId| o.id_bytes()) =~= bytes.take(0).filter_map(
                |t: Seq<u8>| spec_decode_hex(t),
            ));
        }
        while i < file_names.len()
            invariant
                names == file_names@.map_values(|n: String| n@),
                bytes == names.map_values(|n: Seq<char>| encode_utf8(n)),
                i <= file_names@.len(),
                ids@.map_values(|o: OperationId| o.id_bytes()) == bytes.take(i as int).filter_map(
                    |t: Seq<u8>| spec_decode_hex(t),
                ),
            decreases file_names.len() - i,
        {
            let ghost before = ids@;
            let decoded = decode_hex(file_names[i].as_str().as_bytes());
            proof {
                assert(bytes[i as int] == encode_utf8(file_names@[i as int]@));
                bytes.lemma_filter_map_take_succ(|t: Seq<u8>| spec_decode_hex(t), i as int);
            }
            match decoded {
                Some(b) => {
                    let id = OperationId::new(b);
                    ids.push(id);
                    assert(ids@.map_values(|o: OperationId| o.id_bytes()) =~= before.map_values(
                        |o: OperationId| o.id_bytes(),
                    ) + seq![id.id_bytes()]);
                },
                None => {},
            }
            i = i + 1;
        }
        proof {
            assert(bytes.take(file_names@.len() as int) =~= bytes);
            assert(listed_heads(names) == bytes.filter_map(|t: Seq<u8>| spec_decode_hex(t)));
        }
        if ids.len() == 0 {
            let message = "Corrupt repository: no head operation".to_owned();
            return Err(OpHeadsStoreError::Read(message));
        }
        let ghost built = ids@;
        let sorted = stable_sort_by_key(ids);
        proof {
            lemma_stable_sort_map(
                sorted@,
                built,
                byte_key_of::<OperationId>(),
                |o: OperationId| o.id_bytes(),
                id_key(),
            );
        }
        Ok(sorted)
    }
}

/// Holds of the identifiers other than `id`.
pub open spec fn differs_from(id: Seq<u8>) -> spec_fn(Seq<u8>) -> bool {
    |o: Seq<u8>| o != id
}

/// The heads that a listing of a heads directory stands for: the bytes
/// that each hexadecimal name stands for, in listing order.
pub open spec fn listed_heads(names: Seq<Seq<char>>) -> Seq<Seq<u8>> {
    names.map_values(|n: Seq<char>| encode_utf8(n)).filter_map(|t: Seq<u8>| spec_decode_hex(t))
}

/// The paths that exist after one step, where `files` are those before.
pub open spec fn apply_action(files: Set<Seq<u8>>, a: OpHeadsActionView) -> Set<Seq<u8>> {
    match a {
        OpHeadsActionView::CreateDir(p) => files.insert(p),
        OpHeadsActionView::WriteEmptyFile(p) => files.insert(p),
        OpHeadsActionView::RemoveFile(p) => files.remove(p),
    }
}

/// The paths that exist after the steps, taken in order, where `files`
/// are those before.
pub open spec fn apply_actions(files: Set<Seq<u8>>, steps: Seq<OpHeadsActionView>) -> Set<Seq<u8>>
    decreases steps.len(),
{
    if steps.len() == 0 {
        files
    } else {
        apply_action(apply_actions(files, steps.drop_last()), steps.last())
    }
}

/// Head files of different operations are different files.
pub proof fn lemma_head_file_injective(
    store: SimpleOpHeadsStore,
    name: Seq<char>,
    t: WorkspaceType,
    a: Seq<u8>,
    b: Seq<u8>,
)
    requires
        store.spec_head_file(name, t, a) == store.spec_head_file(name, t, b),
    ensures
        a == b,
{
    let dir = store.spec_operations_dir(name, t);
    let na = head_file_name(a);
    let nb = head_file_name(b);
    crate::hex::lemma_encode_hex_bytes(a);
    crate::hex::lemma_encode_hex_bytes(b);
    if na.len() > 0 {
        assert(na[0] == spec_encode_hex(a)[0] as u8);
    }
    if nb.len() > 0 {
        assert(nb[0] == spec_encode_hex(b)[0] as u8);
    }
    let pre = if dir.len() == 0 || dir.last() == crate::path::sep() {
        dir
    } else {
        dir + seq![crate::path::sep()]
    };
    assert(spec_join(dir, na) == pre + na);
    assert(spec_join(dir, nb) == pre + nb);
    assert(na =~= (pre + na).skip(pre.len() as int));
    assert(nb =~= (pre + nb).skip(pre.len() as int));
    lemma_decode_encode_hex(a);
    lemma_decode_encode_hex(b);
}

/// The head files that the first `k` removal steps remove.
pub open spec fn removed_by(store: SimpleOpHeadsStore, name: Seq<char>, t: WorkspaceType, olds: Seq<Seq<u8>>, k: int) -> Set<
    Seq<u8>,
> {
    Set::new(|p: Seq<u8>| exists|j: int| 0 <= j < k && p == store.spec_head_file(name, t, olds[j]))
}

/// Taking the first step of an update and the first `k` removal steps
/// leaves the files that were there and the new head's file, without the
/// files of the first `k` old heads removed.
pub proof fn lemma_apply_update_prefix(
    store: SimpleOpHeadsStore,
    name: Seq<char>,
    t: WorkspaceType,
    files: Set<Seq<u8>>,
    kept: Seq<Seq<u8>>,
    new_id: Seq<u8>,
    k: int,
)
    requires
        0 <= k <= kept.len(),
    ensures
        apply_actions(
            files,
            seq![OpHeadsActionView::WriteEmptyFile(store.spec_head_file(name, t, new_id))]
                + kept.map_values(store.remove_step(name, t)).take(k),
        ) == files.insert(store.spec_head_file(name, t, new_id)).difference(
            removed_by(store, name, t, kept, k),
        ),
    decreases k,
{
    let w = seq![OpHeadsActionView::WriteEmptyFile(store.spec_head_file(name, t, new_id))];
    let rm = kept.map_values(store.remove_step(name, t));
    let start = files.insert(store.spec_head_file(name, t, new_id));
    if k == 0 {
        assert(w + rm.take(0) =~= w);
        assert(w.drop_last() =~= Seq::<OpHeadsActionView>::empty());
        assert(apply_actions(files, w.drop_last()) == files);
        assert(apply_actions(files, w) == start);
        assert(start.difference(removed_by(store, name, t, kept, 0)) =~= start);
    } else {
        lemma_apply_update_prefix(store, name, t, files, kept, new_id, k - 1);
        assert((w + rm.take(k)).drop_last() =~= w + rm.take(k - 1));
        assert((w + rm.take(k)).last() == rm[k - 1]);
        let f = store.spec_head_file(name, t, kept[k - 1]);
        assert(rm[k - 1] == OpHeadsActionView::RemoveFile(f));
        assert(start.difference(removed_by(store, name, t, kept, k - 1)).remove(f) =~= start.difference(
            removed_by(store, name, t, kept, k),
        )) by {
            assert forall|p: Seq<u8>| removed_by(store, name, t, kept, k).contains(p) <==> (removed_by(store, name, t, kept, k - 1).contains(p) || p == f) by {
                if removed_by(store, name, t, kept, k).contains(p) {
                    let j = choose|j: int| 0 <= j < k && p == store.spec_head_file(name, t, kept[j]);
                    if j < k - 1 {
                        assert(removed_by(store, name, t, kept, k - 1).contains(p));
                    }
                }
                if removed_by(store, name, t, kept, k - 1).contains(p) {
                    let j = choose|j: int| 0 <= j < k - 1 && p == store.spec_head_file(name, t, kept[j]);
                    assert(0 <= j < k);
                }
            }
        }
        assert(apply_actions(files, w + rm.take(k)) == apply_action(apply_actions(files, w + rm.take(k - 1)), rm[k - 1]));
    }
}

/// Making `new_id` a head in place of `old_ids`, step after step, leaves
/// the files that were there and the new head's file, without the file of
/// any old head other than the new one; the new head's file is there even
/// when it was among the old heads.
pub proof fn lemma_update_op_heads(
    store: SimpleOpHeadsStore,
    name: Seq<char>,
    t: WorkspaceType,
    files: Set<Seq<u8>>,
    old_ids: Seq<Seq<u8>>,
    new_id: Seq<u8>,
)
    ensures
        apply_actions(files, store.spec_update_op_heads(name, t, old_ids, new_id)) == files.insert(
            store.spec_head_file(name, t, new_id),
        ).difference(
            Set::new(
                |p: Seq<u8>|
                    exists|o: Seq<u8>|
                        old_ids.contains(o) && o != new_id && p == store.spec_head_file(name, t, o),
            ),
        ),
        apply_actions(files, store.spec_update_op_heads(name, t, old_ids, new_id)).contains(
            store.spec_head_file(name, t, new_id),
        ),
{
    let kept = old_ids.filter(differs_from(new_id));
    let rm = kept.map_values(store.remove_step(name, t));
    lemma_apply_update_prefix(store, name, t, files, kept, new_id, kept.len() as int);
    assert(rm.take(kept.len() as int) =~= rm);
    let gone = Set::new(
        |p: Seq<u8>|
            exists|o: Seq<u8>| old_ids.contains(o) && o != new_id && p == store.spec_head_file(name, t, o),
    );
    assert forall|p: Seq<u8>| removed_by(store, name, t, kept, kept.len() as int).contains(p) <==> gone.contains(p) by {
        if removed_by(store, name, t, kept, kept.len() as int).contains(p) {
            let j = choose|j: int| 0 <= j < kept.len() && p == store.spec_head_file(name, t, kept[j]);
            old_ids.lemma_filter_pred(differs_from(new_id), j);
            old_ids.lemma_filter_contains_rev(differs_from(new_id), kept[j]);
            assert(old_ids.contains(kept[j]));
        }
        if gone.contains(p) {
            let o = choose|o: Seq<u8>| old_ids.contains(o) && o != new_id && p == store.spec_head_file(name, t, o);
            let i = choose|i: int| 0 <= i < old_ids.len() && old_ids[i] == o;
            old_ids.lemma_filter_contains(differs_from(new_id), i);
            let j = choose|j: int| 0 <= j < kept.len() && kept[j] == o;
            assert(p == store.spec_head_file(name, t, kept[j]));
        }
    }
    assert(removed_by(store, name, t, kept, kept.len() as int) =~= gone);
    if gone.contains(store.spec_head_file(name, t, new_id)) {
        let o = choose|o: Seq<u8>|
            old_ids.contains(o) && o != new_id && store.spec_head_file(name, t, new_id) == store.spec_head_file(name, t, o);
        lemma_head_file_injective(store, name, t, new_id, o);
    }
}

/// The file of a head is read back, in a listing of its directory, as
/// that head.
pub proof fn lemma_head_file_read_back(id: Seq<u8>)
    ensures
        spec_decode_hex(head_file_name(id)) == Some(id),
{
    lemma_decode_encode_hex(id);
}

/// A heads directory that holds the files of the heads `ids`, listed in
/// that order, stands for exactly those heads.
pub proof fn lemma_listing_of_head_files(ids: Seq<Seq<u8>>)
    ensures
        listed_heads(ids.map_values(|id: Seq<u8>| spec_encode_hex(id))) == ids,
    decreases ids.len(),
{
    let names = ids.map_values(|id: Seq<u8>| spec_encode_hex(id));
    let bytes = names.map_values(|n: Seq<char>| encode_utf8(n));
    if ids.len() > 0 {
        let rest = ids.drop_last();
        lemma_listing_of_head_files(rest);
        let rest_bytes = rest.map_values(|id: Seq<u8>| spec_encode_hex(id)).map_values(
            |n: Seq<char>| encode_utf8(n),
        );
        assert(bytes.drop_last() =~= rest_bytes);
        assert(bytes.last() == head_file_name(ids.last()));
        lemma_decode_encode_hex(ids.last());
        assert(bytes.filter_map(|t: Seq<u8>| spec_decode_hex(t)) =~= rest_bytes.filter_map(
            |t: Seq<u8>| spec_decode_hex(t),
        ) + seq![ids.last()]);
        assert(ids =~= rest + seq![ids.last()]);
    } else {
        assert(bytes.filter_map(|t: Seq<u8>| spec_decode_hex(t)) =~= ids);
    }
}

/// The heads whose files exist among `files`, for a workspace of the
/// given name and type.
pub open spec fn heads_among(
    store: SimpleOpHeadsStore,
    name: Seq<char>,
    t: WorkspaceType,
    files: Set<Seq<u8>>,
) -> Set<Seq<u8>> {
    Set::new(|id: Seq<u8>| files.contains(store.spec_head_file(name, t, id)))
}

/// Making `new_id` a head in place of `old_ids` leaves as heads those that
/// were heads and the new one, without every old head other than the new
/// one.
pub proof fn lemma_update_op_heads_heads(
    store: SimpleOpHeadsStore,
    name: Seq<char>,
    t: WorkspaceType,
    files: Set<Seq<u8>>,
    old_ids: Seq<Seq<u8>>,
    new_id: Seq<u8>,
)
    ensures
        heads_among(store, name, t, apply_actions(files, store.spec_update_op_heads(name, t, old_ids, new_id)))
            == heads_among(store, name, t, files).insert(new_id).difference(
            Set::new(|o: Seq<u8>| old_ids.contains(o) && o != new_id),
        ),
{
    lemma_update_op_heads(store, name, t, files, old_ids, new_id);
    let after = apply_actions(files, store.spec_update_op_heads(name, t, old_ids, new_id));
    let gone = Set::new(
        |p: Seq<u8>|
            exists|o: Seq<u8>| old_ids.contains(o) && o != new_id && p == store.spec_head_file(name, t, o),
    );
    assert forall|id: Seq<u8>| heads_among(store, name, t, after).contains(id) <==> heads_among(store, name, t, files).insert(new_id).difference(
        Set::new(|o: Seq<u8>| old_ids.contains(o) && o != new_id),
    ).contains(id) by {
        let f = store.spec_head_file(name, t, id);
        if gone.contains(f) {
            let o = choose|o: Seq<u8>| old_ids.contains(o) && o != new_id && f == store.spec_head_file(name, t, o);
            lemma_head_file_injective(store, name, t, id, o);
        }
        if old_ids.contains(id) && id != new_id {
            assert(gone.contains(f));
        }
        if id != new_id && f == store.spec_head_file(name, t, new_id) {
            lemma_head_file_injective(store, name, t, id, new_id);
        }
    }
    assert(heads_among(store, name, t, after) =~= heads_among(store, name, t, files).insert(new_id).difference(
        Set::new(|o: Seq<u8>| old_ids.contains(o) && o != new_id),
    ));
}

/// The heads of a listing are the heads of its parts, in order.
proof fn lemma_listed_heads_concat(a: Seq<Seq<char>>, b: Seq<Seq<char>>)
    ensures
        listed_heads(a + b) == listed_heads(a) + listed_heads(b),
    decreases b.len(),
{
    let enc = |n: Seq<char>| encode_utf8(n);
    let dec = |t: Seq<u8>| spec_decode_hex(t);
    if b.len() == 0 {
        assert(a + b =~= a);
        assert(listed_heads(b) =~= Seq::<Seq<u8>>::empty());
        assert(listed_heads(a) + listed_heads(b) =~= listed_heads(a));
    } else {
        lemma_listed_heads_concat(a, b.drop_last());
        assert((a + b).drop_last() =~= a + b.drop_last());
        assert((a + b).map_values(enc).drop_last() =~= (a + b.drop_last()).map_values(enc));
        assert(b.map_values(enc).drop_last() =~= b.drop_last().map_values(enc));
        assert((a + b).map_values(enc).last() == b.map_values(enc).last());
        match dec(b.map_values(enc).last()) {
            Some(x) => {
                assert(listed_heads(a + b) =~= listed_heads(a + b.drop_last()) + seq![x]);
                assert(listed_heads(b) =~= listed_heads(b.drop_last()) + seq![x]);
            },
            None => {
                assert(listed_heads(a + b) =~= listed_heads(a + b.drop_last()));
                assert(listed_heads(b) =~= listed_heads(b.drop_last()));
            },
        }
        assert(listed_heads(a + b) =~= listed_heads(a) + listed_heads(b));
    }
}

/// File names that are not hexadecimal text (such as `lock`, the lock file
/// that lies in a heads directory) stand for no head: wherever they stand in
/// a listing, the heads that it stands for, and so what `get_op_heads`
/// returns, are those of the listing without them.
pub proof fn lemma_non_hex_names_ignored(a: Seq<Seq<char>>, extra: Seq<Seq<char>>, b: Seq<Seq<char>>)
    requires
        forall|i: int| 0 <= i < extra.len() ==> spec_decode_hex(encode_utf8(#[trigger] extra[i])) is None,
    ensures
        listed_heads(a + extra + b) == listed_heads(a + b),
    decreases extra.len(),
{
    if extra.len() == 0 {
        assert(a + extra + b =~= a + b);
    } else {
        let rest = extra.drop_last();
        lemma_non_hex_names_ignored(a, rest, b);
        lemma_listed_heads_concat(a + extra, b);
        lemma_listed_heads_concat(a + rest, b);
        let last = seq![extra.last()];
        assert(a + extra =~= (a + rest) + last);
        lemma_listed_heads_concat(a + rest, last);
        assert(last.map_values(|n: Seq<char>| encode_utf8(n)).drop_last() =~= Seq::<Seq<char>>::empty().map_values(
            |n: Seq<char>| encode_utf8(n),
        ));
        assert(listed_heads(Seq::<Seq<char>>::empty()) =~= Seq::<Seq<u8>>::empty());
        assert(spec_decode_hex(encode_utf8(extra[extra.len() - 1])) is None);
        assert(last.map_values(|n: Seq<char>| encode_utf8(n)).last() == encode_utf8(extra.last()));
        assert(listed_heads(last) =~= Seq::<Seq<u8>>::empty());
        assert(listed_heads(a + rest) + listed_heads(last) =~= listed_heads(a + rest));
        assert(a + rest + b =~= (a + rest) + b);
        assert(a + extra + b =~= (a + extra) + b);
    }
}

/// Holds of the file names that are hexadecimal text.
pub open spec fn is_hex_name() -> spec_fn(Seq<char>) -> bool {
    |n: Seq<char>| spec_decode_hex(encode_utf8(n)) is Some
}

/// The heads of a listing are those of its hexadecimal names.
proof fn lemma_listed_heads_hex_only(names: Seq<Seq<char>>)
    ensures
        listed_heads(names) == listed_heads(names.filter(is_hex_name())),
    decreases names.len(),
{
    reveal(Seq::filter);
    if names.len() == 0 {
        assert(names.filter(is_hex_name()) =~= names);
    } else {
        let r = names.drop_last();
        let x = names.last();
        lemma_listed_heads_hex_only(r);
        assert(names =~= r + seq![x]);
        lemma_listed_heads_concat(r, seq![x]);
        if is_hex_name()(x) {
            assert(names.filter(is_hex_name()) =~= r.filter(is_hex_name()) + seq![x]);
            lemma_listed_heads_concat(r.filter(is_hex_name()), seq![x]);
        } else {
            assert(names.filter(is_hex_name()) == r.filter(is_hex_name()));
            assert(seq![x].map_values(|n: Seq<char>| encode_utf8(n)).drop_last() =~= Seq::<Seq<char>>::empty().map_values(
                |n: Seq<char>| encode_utf8(n),
            ));
            assert(listed_heads(Seq::<Seq<char>>::empty()) =~= Seq::<Seq<u8>>::empty());
            assert(seq![x].map_values(|n: Seq<char>| encode_utf8(n)).last() == encode_utf8(x));
            assert(listed_heads(seq![x]) =~= Seq::<Seq<u8>>::empty());
            assert(listed_heads(r) + listed_heads(seq![x]) =~= listed_heads(r));
        }
    }
}

/// Listings with the same names, as many times each, stand for the same
/// heads, as many times each.
proof fn lemma_listed_heads_multiset(a: Seq<Seq<char>>, b: Seq<Seq<char>>)
    requires
        a.to_multiset() == b.to_multiset(),
    ensures
        listed_heads(a).to_multiset() == listed_heads(b).to_multiset(),
    decreases a.len(),
{
    broadcast use vstd::seq_lib::group_to_multiset_ensures;
    broadcast use vstd::multiset::group_multiset_axioms;

    vstd::seq_lib::to_multiset_len(a);
    vstd::seq_lib::to_multiset_len(b);
    if a.len() == 0 {
        assert(a =~= b);
    } else {
        let x = a.last();
        let a1 = a.drop_last();
        assert(a =~= a1.push(x));
        vstd::seq_lib::to_multiset_build(a1, x);
        assert(a.contains(x)) by {
            assert(a[a.len() - 1] == x);
        }
        vstd::seq_lib::to_multiset_contains(a, x);
        vstd::seq_lib::to_multiset_contains(b, x);
        let i = choose|i: int| 0 <= i < b.len() && b[i] == x;
        let b1 = b.remove(i);
        vstd::seq_lib::to_multiset_remove(b, i);
        assert(b1.to_multiset() =~= a1.to_multiset()) by {
            assert forall|y: Seq<char>| b1.to_multiset().count(y) == a1.to_multiset().count(y) by {
                if y == x {
                    vstd::multiset::lemma_insert_increases_count_by_1(a1.to_multiset(), x);
                } else {
                    vstd::multiset::lemma_insert_other_elements_unchanged(a1.to_multiset(), x, y);
                }
            }
        }
        lemma_listed_heads_multiset(a1, b1);
        let t = b.take(i);
        let u = b.skip(i + 1);
        let one = seq![x];
        assert(b =~= t + one + u);
        assert(b1 =~= t + u);
        lemma_listed_heads_concat(a1, one);
        lemma_listed_heads_concat(t + one, u);
        lemma_listed_heads_concat(t, one);
        lemma_listed_heads_concat(t, u);
        let lt = listed_heads(t);
        let lu = listed_heads(u);
        let lx = listed_heads(one);
        vstd::seq_lib::lemma_multiset_commutative(listed_heads(a1), lx);
        vstd::seq_lib::lemma_multiset_commutative(lt + lx, lu);
        vstd::seq_lib::lemma_multiset_commutative(lt, lx);
        vstd::seq_lib::lemma_multiset_commutative(lt, lu);
        assert(a =~= a1 + one);
        assert(listed_heads(a) == listed_heads(a1) + lx);
        assert(listed_heads(b) == (lt + lx) + lu);
        assert(listed_heads(b1) == lt + lu);
        let ma = listed_heads(a).to_multiset();
        let mb = listed_heads(b).to_multiset();
        assert(ma == listed_heads(a1).to_multiset().add(lx.to_multiset()));
        assert(mb == (lt + lx).to_multiset().add(lu.to_multiset()));
        assert(listed_heads(a1).to_multiset() == lt.to_multiset().add(lu.to_multiset()));
        assert((lt + lx).to_multiset() == lt.to_multiset().add(lx.to_multiset()));
        assert forall|y: Seq<u8>| ma.count(y) == mb.count(y) by {}
        assert(ma =~= mb);
    }
}

/// What `get_op_heads` returns depends only on which hexadecimal names the
/// listing holds, and how many times each: not on their order, nor on the
/// other names in it. So two regular workspaces, whatever their names, read
/// the same heads from the same directory, listed in any order.
pub proof fn lemma_op_heads_depend_on_hex_names(
    names1: Seq<Seq<char>>,
    names2: Seq<Seq<char>>,
    heads1: Seq<Seq<u8>>,
    heads2: Seq<Seq<u8>>,
)
    requires
        names1.filter(is_hex_name()).to_multiset() == names2.filter(is_hex_name()).to_multiset(),
        is_stable_sort(heads1, listed_heads(names1), id_key()),
        is_stable_sort(heads2, listed_heads(names2), id_key()),
    ensures
        listed_heads(names1).len() == listed_heads(names2).len(),
        heads1 == heads2,
{
    lemma_listed_heads_hex_only(names1);
    lemma_listed_heads_hex_only(names2);
    lemma_listed_heads_multiset(names1.filter(is_hex_name()), names2.filter(is_hex_name()));
    vstd::seq_lib::to_multiset_len(listed_heads(names1));
    vstd::seq_lib::to_multiset_len(listed_heads(names2));
    lemma_stable_sort_unique(heads1, listed_heads(names1), heads2, listed_heads(names2));
}

/// The step list of an update, cut short after its first `m` steps, leaves
/// the new head's file in place whenever at least the first step was taken,
/// so a heads directory that an update was made on never loses its last
/// head; and it leaves every path outside the heads directory as it was.
pub proof fn lemma_update_op_heads_prefix(
    store: SimpleOpHeadsStore,
    name: Seq<char>,
    t: WorkspaceType,
    files: Set<Seq<u8>>,
    old_ids: Seq<Seq<u8>>,
    new_id: Seq<u8>,
    m: int,
    p: Seq<u8>,
)
    requires
        0 <= m <= store.spec_update_op_heads(name, t, old_ids, new_id).len(),
    ensures
        m >= 1 ==> apply_actions(files, store.spec_update_op_heads(name, t, old_ids, new_id).take(m)).contains(
            store.spec_head_file(name, t, new_id),
        ),
        (forall|x: Seq<u8>| p != #[trigger] spec_join(store.spec_operations_dir(name, t), x)) ==> (
        apply_actions(files, store.spec_update_op_heads(name, t, old_ids, new_id).take(m)).contains(p)
            == files.contains(p)),
{
    let steps = store.spec_update_op_heads(name, t, old_ids, new_id);
    let kept = old_ids.filter(differs_from(new_id));
    let w = seq![OpHeadsActionView::WriteEmptyFile(store.spec_head_file(name, t, new_id))];
    let rm = kept.map_values(store.remove_step(name, t));
    let fnew = store.spec_head_file(name, t, new_id);
    if m == 0 {
        assert(steps.take(0) =~= Seq::<OpHeadsActionView>::empty());
    } else {
        assert(steps.take(m) =~= w + rm.take(m - 1));
        lemma_apply_update_prefix(store, name, t, files, kept, new_id, m - 1);
        let removed = removed_by(store, name, t, kept, m - 1);
        if removed.contains(fnew) {
            let j = choose|j: int| 0 <= j < m - 1 && fnew == store.spec_head_file(name, t, kept[j]);
            lemma_head_file_injective(store, name, t, new_id, kept[j]);
            old_ids.lemma_filter_pred(differs_from(new_id), j);
        }
        if forall|x: Seq<u8>| p != #[trigger] spec_join(store.spec_operations_dir(name, t), x) {
            assert(p != spec_join(store.spec_operations_dir(name, t), head_file_name(new_id)));
            if removed.contains(p) {
                let j = choose|j: int| 0 <= j < m - 1 && p == store.spec_head_file(name, t, kept[j]);
                assert(p == spec_join(store.spec_operations_dir(name, t), head_file_name(kept[j])));
            }
        }
    }
}

/// Initializing a store, whatever its root directory and the workspace's
/// type, creates the directory of the repository's heads and the directory
/// of workspace heads, for an independent workspace its own heads
/// directory too, and then writes the root operation's head file: every
/// step but the last creates a directory, the last writes that file, and
/// after the steps exactly these paths exist besides those that did before.
pub proof fn lemma_initialize_creates(
    store: SimpleOpHeadsStore,
    name: Seq<char>,
    t: WorkspaceType,
    root: Seq<u8>,
    files: Set<Seq<u8>>,
    p: Seq<u8>,
)
    ensures
        store.spec_initialize(name, t, root).len() >= 1,
        store.spec_initialize(name, t, root).last() == OpHeadsActionView::WriteEmptyFile(
            store.spec_head_file(name, t, root),
        ),
        forall|i: int|
            0 <= i < store.spec_initialize(name, t, root).len() - 1 ==> (#[trigger] store.spec_initialize(
                name,
                t,
                root,
            )[i]) is CreateDir,
        apply_actions(files, store.spec_initialize(name, t, root)).contains(p) <==> {
            ||| files.contains(p)
            ||| p == store.spec_repo_heads_dir()
            ||| p == spec_join(store.spec_root_dir(), workspace_heads_name())
            ||| (t is Independent && p == store.spec_workspace_heads_dir(name))
            ||| p == store.spec_head_file(name, t, root)
        },
{
    let steps = store.spec_initialize(name, t, root);
    let d0 = OpHeadsActionView::CreateDir(store.spec_repo_heads_dir());
    let d1 = OpHeadsActionView::CreateDir(spec_join(store.spec_root_dir(), workspace_heads_name()));
    let w = OpHeadsActionView::WriteEmptyFile(store.spec_head_file(name, t, root));
    let f1 = apply_action(files, d0);
    let f2 = apply_action(f1, d1);
    match t {
        WorkspaceType::Regular => {
            assert(steps =~= seq![d0, d1, w]);
            assert(steps.drop_last() =~= seq![d0, d1]);
            assert(steps.drop_last().drop_last() =~= seq![d0]);
            assert(steps.drop_last().drop_last().drop_last() =~= Seq::<OpHeadsActionView>::empty());
            assert(seq![d0].drop_last() =~= Seq::<OpHeadsActionView>::empty());
            assert(apply_actions(files, Seq::<OpHeadsActionView>::empty()) == files);
            assert(apply_actions(files, seq![d0]) == f1);
            assert(apply_actions(files, seq![d0, d1]) == f2);
            assert(apply_actions(files, steps) == apply_action(f2, w));
        },
        WorkspaceType::Independent => {
            let d2 = OpHeadsActionView::CreateDir(store.spec_workspace_heads_dir(name));
            let f3 = apply_action(f2, d2);
            assert(steps =~= seq![d0, d1, d2, w]);
            assert(steps.drop_last() =~= seq![d0, d1, d2]);
            assert(seq![d0, d1, d2].drop_last() =~= seq![d0, d1]);
            assert(seq![d0, d1].drop_last() =~= seq![d0]);
            assert(seq![d0].drop_last() =~= Seq::<OpHeadsActionView>::empty());
            assert(seq![d0].drop_last() =~= Seq::<OpHeadsActionView>::empty());
            assert(apply_actions(files, Seq::<OpHeadsActionView>::empty()) == files);
            assert(apply_actions(files, seq![d0]) == f1);
            assert(apply_actions(files, seq![d0, d1]) == f2);
            assert(apply_actions(files, seq![d0, d1, d2]) == f3);
            assert(apply_actions(files, steps) == apply_action(f3, w));
        },
    }
}

} // verus!
