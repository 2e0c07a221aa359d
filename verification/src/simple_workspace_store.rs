//! The file-based workspace store: where its files lie, and what each of its
//! operations makes of the workspace index that it reads and writes.
//!
//! Reading and writing the index file, and locking it, happen around these
//! functions; each operation here takes the index that was read and gives
//! the index to write, or the answer to return.

use vstd::prelude::*;

use crate::order::byte_key_of;
use crate::order::is_stable_sort;
use crate::order::lemma_stable_sort_map;
use crate::order::stable_sort_by_key;
use crate::path::is_canonical;
use crate::path::lemma_relative_path_leads_back;
use crate::path::path_components;
use crate::path::resolve;
use crate::path::path_components_of;
use crate::path::relative_path;
use crate::path::same_path;
use crate::path::has_root;
use crate::path::sep;
use crate::path::spec_join;
use crate::path::spec_relative_path;
use crate::path::views;
use crate::protos::record_views;
use crate::protos::type_from_proto;
use crate::protos::type_to_proto;
use crate::protos::workspace_type_to_proto;
use crate::protos::Workspace;
use crate::protos::WorkspaceView;
use crate::protos::Workspaces;
use crate::workspace_store::metadata_key;
use crate::workspace_store::WorkspaceMetadata;
use crate::workspace_store::WorkspaceMetadataView;
use crate::workspace_store::WorkspaceType;

verus! {

/// Holds of the records named `name`.
pub open spec fn is_named(name: Seq<char>) -> spec_fn(WorkspaceView) -> bool {
    |r: WorkspaceView| r.name == name
}

/// Holds of the records not named `name`.
pub open spec fn is_not_named(name: Seq<char>) -> spec_fn(WorkspaceView) -> bool {
    |r: WorkspaceView| r.name != name
}

/// Holds of the records whose name is not among `names`.
pub open spec fn is_not_listed(names: Seq<Seq<char>>) -> spec_fn(WorkspaceView) -> bool {
    |r: WorkspaceView| !names.contains(r.name)
}

/// Holds of the records whose path has the components `comps`.
pub open spec fn is_at(comps: Seq<Seq<u8>>) -> spec_fn(WorkspaceView) -> bool {
    |r: WorkspaceView| path_components(r.path) == comps
}

/// The records of `s` named `name`, in stored order.
pub open spec fn records_named(s: Seq<WorkspaceView>, name: Seq<char>) -> Seq<WorkspaceView> {
    s.filter(is_named(name))
}

/// The first element of `s`, if any.
pub open spec fn first_of<A>(s: Seq<A>) -> Option<A> {
    if s.len() > 0 {
        Some(s[0])
    } else {
        None
    }
}

/// The record that describes the workspace `name` at `path` of type `t`.
pub open spec fn new_record(name: Seq<char>, path: Seq<u8>, t: WorkspaceType) -> WorkspaceView {
    WorkspaceView { name, path, workspace_type: type_to_proto(t) }
}

/// The index after adding the workspace `name`: every record of that name
/// is dropped and the new record goes last.
pub open spec fn spec_add(s: Seq<WorkspaceView>, name: Seq<char>, path: Seq<u8>, t: WorkspaceType) -> Seq<WorkspaceView> {
    s.filter(is_not_named(name)).push(new_record(name, path, t))
}

/// The index after forgetting the workspaces `names`.
pub open spec fn spec_forget(s: Seq<WorkspaceView>, names: Seq<Seq<char>>) -> Seq<WorkspaceView> {
    s.filter(is_not_listed(names))
}

/// A record with the name `old` renamed to `new`; other records unchanged.
pub open spec fn renamed(old: Seq<char>, new: Seq<char>) -> spec_fn(WorkspaceView) -> WorkspaceView {
    |r: WorkspaceView|
        if r.name == old {
            WorkspaceView { name: new, path: r.path, workspace_type: r.workspace_type }
        } else {
            r
        }
}

/// The index after renaming `old` to `new`: every record of that name is
/// renamed in place.
pub open spec fn spec_rename(s: Seq<WorkspaceView>, old: Seq<char>, new: Seq<char>) -> Seq<WorkspaceView> {
    s.map_values(renamed(old, new))
}

/// The metadata that a stored record stands for.
pub open spec fn to_metadata() -> spec_fn(WorkspaceView) -> WorkspaceMetadataView {
    |r: WorkspaceView| WorkspaceMetadataView { name: r.name, workspace_type: type_from_proto(r.workspace_type) }
}

/// The bytes of `index`, the name of the index file.
pub open spec fn index_file_name() -> Seq<u8> {
    seq![105u8, 110u8, 100u8, 101u8, 120u8]
}

/// The bytes of `.lock`, the suffix of the lock file.
pub open spec fn lock_suffix() -> Seq<u8> {
    seq![46u8, 108u8, 111u8, 99u8, 107u8]
}

/// A simple file-based implementation of `WorkspaceStore`: its index file
/// and lock file lie in its directory.
#[derive(Clone, Debug)]
pub struct SimpleWorkspaceStore {
    store_dir: Vec<u8>,
    store_file: Vec<u8>,
    lock_file: Vec<u8>,
}

impl SimpleWorkspaceStore {
    /// The directory of the store.
    pub closed spec fn spec_store_dir(&self) -> Seq<u8> {
        self.store_dir@
    }

    /// The index file of the store.
    pub closed spec fn spec_store_file(&self) -> Seq<u8> {
        self.store_file@
    }

    /// The lock file of the store.
    pub closed spec fn spec_lock_file(&self) -> Seq<u8> {
        self.lock_file@
    }

    /// The directory of the store has a parent, the repository directory.
    pub open spec fn has_repo_dir(&self) -> bool {
        let c = path_components(self.spec_store_dir());
        c.len() > 0 && c.last() != seq![sep()]
    }

    /// The components of the repository directory, the parent of the store's.
    pub open spec fn repo_components(&self) -> Seq<Seq<u8>> {
        path_components(self.spec_store_dir()).drop_last()
    }

    /// The form in which the index records the workspace whose canonical
    /// path is `canonical`: relative to the repository directory.
    pub open spec fn spec_canonical_path(&self, canonical: Seq<u8>) -> Seq<u8> {
        spec_relative_path(self.repo_components(), canonical)
    }

    /// Returns the name of this WorkspaceStore implementation.
    pub fn name() -> (res: &'static str)
        ensures
            res@ == "simple_workspace_store"@,
    {
        "simple_workspace_store"
    }

    /// Creates the store whose directory is `store_dir`: its index file is
    /// `index` in that directory, and its lock file is the index file's path
    /// with `.lock` added.
    pub fn new(store_dir: &[u8]) -> (res: Self)
        ensures
            res.spec_store_dir() == store_dir@,
            res.spec_store_file() == spec_join(store_dir@, index_file_name()),
            res.spec_lock_file() == spec_join(store_dir@, index_file_name()) + lock_suffix(),
    {
        let mut index_name: Vec<u8> = Vec::new();
        index_name.push(105u8);
        index_name.push(110u8);
        index_name.push(100u8);
        index_name.push(101u8);
        index_name.push(120u8);
        assert(index_name@ =~= index_file_name());
        let store_file = crate::path::join_path(store_dir, index_name.as_slice());
        let mut lock_file = vstd::slice::slice_to_vec(store_file.as_slice());
        lock_file.push(46u8);
        lock_file.push(108u8);
        lock_file.push(111u8);
        lock_file.push(99u8);
        lock_file.push(107u8);
        assert(lock_file@ =~= store_file@ + lock_suffix());
        SimpleWorkspaceStore { store_dir: vstd::slice::slice_to_vec(store_dir), store_file, lock_file }
    }

    /// Returns the store whose directory is `store_dir`, with the index to
    /// write when its index file does not exist yet (`index_exists` says
    /// whether it does): one with no record.
    pub fn load(store_dir: &[u8], index_exists: bool) -> (res: (Self, Option<Workspaces>))
        ensures
            res.0.spec_store_dir() == store_dir@,
            res.0.spec_store_file() == spec_join(store_dir@, index_file_name()),
            res.0.spec_lock_file() == spec_join(store_dir@, index_file_name()) + lock_suffix(),
            match res.1 {
                Some(w) => !index_exists && w.records() == Seq::<WorkspaceView>::empty(),
                None => index_exists,
            },
    {
        let store = Self::new(store_dir);
        if index_exists {
            (store, None)
        } else {
            (store, Some(Workspaces::new()))
        }
    }

    /// Creates the store whose directory is `store_dir`, with the index that
    /// initializing it writes: one with no record.
    pub fn init(store_dir: &[u8]) -> (res: (Self, Workspaces))
        ensures
            res.0.spec_store_dir() == store_dir@,
            res.0.spec_store_file() == spec_join(store_dir@, index_file_name()),
            res.0.spec_lock_file() == spec_join(store_dir@, index_file_name()) + lock_suffix(),
            res.1.records() == Seq::<WorkspaceView>::empty(),
    {
        (Self::new(store_dir), Workspaces::new())
    }

    /// Returns the directory of the store.
    pub fn store_dir(&self) -> (res: &[u8])
        ensures
            res@ == self.spec_store_dir(),
    {
        self.store_dir.as_slice()
    }

    /// Returns the index file of the store.
    pub fn store_file(&self) -> (res: &[u8])
        ensures
            res@ == self.spec_store_file(),
    {
        self.store_file.as_slice()
    }

    /// Returns the lock file of the store.
    pub fn lock_file(&self) -> (res: &[u8])
        ensures
            res@ == self.spec_lock_file(),
    {
        self.lock_file.as_slice()
    }

    /// Returns the path under which the index records the workspace whose
    /// canonical path is `workspace_path`: relative to the repository
    /// directory, the parent of the store's directory.
    pub fn to_canonical_workspace_path(&self, workspace_path: &[u8]) -> (res: Vec<u8>)
        requires
            self.has_repo_dir(),
        ensures
            res@ == self.spec_canonical_path(workspace_path@),
    {
        let mut repo = path_components_of(self.store_dir.as_slice());
        let ghost all = views(repo@);
        repo.pop();
        assert(views(repo@) =~= all.drop_last());
        relative_path(&repo, workspace_path)
    }

    /// Returns the metadata that a stored record stands for.
    pub fn proto_to_workspace_metadata(workspace_proto: &Workspace) -> (res: WorkspaceMetadata)
        ensures
            res@ == to_metadata()(workspace_proto@),
    {
        WorkspaceMetadata::new(workspace_proto.name.clone(), workspace_proto.workspace_type())
    }

    /// Returns the record that stores `workspace_metadata` at `workspace_path`.
    pub fn workspace_metadata_to_proto(
        workspace_metadata: &WorkspaceMetadata,
        workspace_path: &[u8],
    ) -> (res: Workspace)
        ensures
            res@ == new_record(
                workspace_metadata@.name,
                workspace_path@,
                workspace_metadata@.workspace_type,
            ),
    {
        Workspace {
            name: workspace_metadata.name().to_owned(),
            path: vstd::slice::slice_to_vec(workspace_path),
            workspace_type: workspace_type_to_proto(workspace_metadata.workspace_type()),
        }
    }

    /// Returns the index after adding the workspace `workspace_name` whose
    /// canonical path is `workspace_path`: every record of that name is
    /// dropped and a record of the workspace, at its path relative to the
    /// repository directory, goes last.
    pub fn add(
        &self,
        index: Workspaces,
        workspace_name: &str,
        workspace_path: &[u8],
        workspace_type: WorkspaceType,
    ) -> (res: Workspaces)
        requires
            self.has_repo_dir(),
        ensures
            res.records() == spec_add(
                index.records(),
                workspace_name@,
                self.spec_canonical_path(workspace_path@),
                workspace_type,
            ),
    {
        let path = self.to_canonical_workspace_path(workspace_path);
        let name = workspace_name.to_owned();
        let workspace_metadata = WorkspaceMetadata::new(name.clone(), workspace_type);
        let mut kept = retain_not_named(index.workspaces, &name);
        let ghost before = record_views(kept@);
        kept.push(Self::workspace_metadata_to_proto(&workspace_metadata, path.as_slice()));
        let res = Workspaces { workspaces: kept };
        assert(res.records() =~= before.push(new_record(workspace_name@, path@, workspace_type)));
        res
    }

    /// Returns the index after forgetting the workspaces `workspace_names`.
    pub fn forget(index: Workspaces, workspace_names: &[String]) -> (res: Workspaces)
        ensures
            res.records() == spec_forget(
                index.records(),
                workspace_names@.map_values(|n: String| n@),
            ),
    {
        let ghost names = workspace_names@.map_values(|n: String| n@);
        let ghost input = index.records();
        let mut rest = index.workspaces;
        let mut kept: Vec<Workspace> = Vec::new();
        proof {
            assert(record_views(rest@) =~= input.skip(0));
            assert(input.take(0) =~= Seq::<WorkspaceView>::empty());
            reveal(Seq::filter);
            assert(record_views(kept@) =~= input.take(0).filter(is_not_listed(names)));
        }
        while rest.len() > 0
            invariant
                names == workspace_names@.map_values(|n: String| n@),
                rest@.len() <= input.len(),
                record_views(rest@) == input.skip(input.len() - rest@.len()),
                record_views(kept@) == input.take(input.len() - rest@.len()).filter(
                    is_not_listed(names),
                ),
            decreases rest.len(),
        {
            let ghost done: int = input.len() - rest@.len();
            let ghost old_rest = rest@;
            let w = rest.remove(0);
            proof {
                assert(record_views(old_rest)[0] == w@);
                lemma_views_after_remove_first(old_rest, rest@, input, done);
                assert(input.take(done + 1) =~= input.take(done).push(w@));
                input.take(done).lemma_filter_push(w@, is_not_listed(names));
            }
            let listed = is_listed(workspace_names, &w.name);
            let ghost old_kept = record_views(kept@);
            if !listed {
                kept.push(w);
                assert(record_views(kept@) =~= old_kept.push(w@));
            }
        }
        proof {
            assert(input.take(input.len() as int) =~= input);
        }
        Workspaces { workspaces: kept }
    }

    /// Returns the index after renaming the workspace `old_name` to
    /// `new_name`: every record of the old name takes the new one.
    pub fn rename(index: Workspaces, old_name: &str, new_name: &str) -> (res: Workspaces)
        ensures
            res.records() == spec_rename(index.records(), old_name@, new_name@),
    {
        let old_s = old_name.to_owned();
        let new_s = new_name.to_owned();
        let ghost input = index.records();
        let ghost f = renamed(old_name@, new_name@);
        let mut rest = index.workspaces;
        let mut out: Vec<Workspace> = Vec::new();
        proof {
            assert(record_views(rest@) =~= input.skip(0));
            assert(record_views(out@) =~= input.take(0).map_values(f));
        }
        while rest.len() > 0
            invariant
                old_s@ == old_name@,
                new_s@ == new_name@,
                f == renamed(old_name@, new_name@),
                rest@.len() <= input.len(),
                record_views(rest@) == input.skip(input.len() - rest@.len()),
                record_views(out@) == input.take(input.len() - rest@.len()).map_values(f),
            decreases rest.len(),
        {
            let ghost done: int = input.len() - rest@.len();
            let ghost old_rest = rest@;
            let ghost old_out = record_views(out@);
            let w = rest.remove(0);
            proof {
                assert(record_views(old_rest)[0] == w@);
                lemma_views_after_remove_first(old_rest, rest@, input, done);
                assert(input.take(done + 1).map_values(f) =~= input.take(done).map_values(f).push(f(w@)));
            }
            if w.name == old_s {
                let r = Workspace { name: new_s.clone(), path: w.path, workspace_type: w.workspace_type };
                out.push(r);
            } else {
                out.push(w);
            }
            assert(record_views(out@) =~= old_out.push(f(w@)));
        }
        proof {
            assert(input.take(input.len() as int) =~= input);
        }
        Workspaces { workspaces: out }
    }

    /// Returns the metadata and the recorded path of the first record named
    /// `workspace_name`, if there is one.
    pub fn get_workspace_metadata_by_workspace_name(
        index: &Workspaces,
        workspace_name: &str,
    ) -> (res: Option<(WorkspaceMetadata, Vec<u8>)>)
        ensures
            match first_of(records_named(index.records(), workspace_name@)) {
                None => res is None,
                Some(r) => res matches Some((m, p)) && m@ == to_metadata()(r) && p@ == r.path,
            },
    {
        let name = workspace_name.to_owned();
        let ghost input = index.records();
        let ghost pred = is_named(workspace_name@);
        let v = &index.workspaces;
        let mut i: usize = 0;
        proof {
            reveal(Seq::filter);
            assert(input.take(0) =~= Seq::<WorkspaceView>::empty());
        }
        while i < v.len()
            invariant
                input == record_views(v@),
                input == index.records(),
                name@ == workspace_name@,
                pred == is_named(workspace_name@),
                i <= v@.len(),
                input.take(i as int).filter(pred).len() == 0,
            decreases v.len() - i,
        {
            assert(input[i as int] == v@[i as int]@);
            if v[i].name == name {
                proof {
                    lemma_first_match(input, pred, i as int);
                }
                let m = Self::proto_to_workspace_metadata(&v[i]);
                let p = vstd::slice::slice_to_vec(v[i].path.as_slice());
                return Some((m, p));
            }
            proof {
                assert(input.take(i + 1) =~= input.take(i as int).push(input[i as int]));
                input.take(i as int).lemma_filter_push(input[i as int], pred);
            }
            i = i + 1;
        }
        proof {
            assert(input.take(v@.len() as int) =~= input);
        }
        None
    }

    /// Returns the metadata of the first record whose path, as a path, is
    /// the one under which the index records the workspace whose canonical
    /// path is `workspace_path`.
    pub fn get_workspace_metadata_by_workspace_path(
        &self,
        index: &Workspaces,
        workspace_path: &[u8],
    ) -> (res: Option<WorkspaceMetadata>)
        requires
            self.has_repo_dir(),
        ensures
            match first_of(
                index.records().filter(
                    is_at(path_components(self.spec_canonical_path(workspace_path@))),
                ),
            ) {
                None => res is None,
                Some(r) => res matches Some(m) && m@ == to_metadata()(r),
            },
    {
        let canonical = self.to_canonical_workspace_path(workspace_path);
        let ghost input = index.records();
        let ghost pred = is_at(path_components(canonical@));
        let v = &index.workspaces;
        let mut i: usize = 0;
        proof {
            reveal(Seq::filter);
            assert(input.take(0) =~= Seq::<WorkspaceView>::empty());
        }
        while i < v.len()
            invariant
                input == record_views(v@),
                input == index.records(),
                canonical@ == self.spec_canonical_path(workspace_path@),
                pred == is_at(path_components(canonical@)),
                i <= v@.len(),
                input.take(i as int).filter(pred).len() == 0,
            decreases v.len() - i,
        {
            assert(input[i as int] == v@[i as int]@);
            if same_path(v[i].path.as_slice(), canonical.as_slice()) {
                proof {
                    lemma_first_match(input, pred, i as int);
                }
                return Some(Self::proto_to_workspace_metadata(&v[i]));
            }
            proof {
                assert(input.take(i + 1) =~= input.take(i as int).push(input[i as int]));
                input.take(i as int).lemma_filter_push(input[i as int], pred);
            }
            i = i + 1;
        }
        proof {
            assert(input.take(v@.len() as int) =~= input);
        }
        None
    }

    /// Returns the recorded path of the first record named `workspace_name`.
    pub fn get_workspace_path(index: &Workspaces, workspace_name: &str) -> (res: Option<Vec<u8>>)
        ensures
            match first_of(records_named(index.records(), workspace_name@)) {
                None => res is None,
                Some(r) => res matches Some(p) && p@ == r.path,
            },
    {
        match Self::get_workspace_metadata_by_workspace_name(index, workspace_name) {
            Some((_m, p)) => Some(p),
            None => None,
        }
    }

    /// Returns the type of the first record named `workspace_name`.
    pub fn get_workspace_type(index: &Workspaces, workspace_name: &str) -> (res: Option<
        WorkspaceType,
    >)
        ensures
            match first_of(records_named(index.records(), workspace_name@)) {
                None => res is None,
                Some(r) => res == Some(type_from_proto(r.workspace_type)),
            },
    {
        match Self::get_workspace_metadata_by_workspace_name(index, workspace_name) {
            Some((m, _p)) => Some(m.workspace_type()),
            None => None,
        }
    }

    /// Returns the metadata of every record, sorted by name; records of one
    /// name keep their stored order.
    pub fn get_all_workspaces(index: &Workspaces) -> (res: Vec<WorkspaceMetadata>)
        ensures
            is_stable_sort(
                res@.map_values(|m: WorkspaceMetadata| m@),
                index.records().map_values(to_metadata()),
                metadata_key(),
            ),
    {
        let ghost input = index.records();
        let v = &index.workspaces;
        let mut metas: Vec<WorkspaceMetadata> = Vec::new();
        let mut i: usize = 0;
        while i < v.len()
            invariant
                input == record_views(v@),
                i <= v@.len(),
                metas@.map_values(|m: WorkspaceMetadata| m@) == input.take(i as int).map_values(
                    to_metadata(),
                ),
            decreases v.len() - i,
        {
            let ghost old_metas = metas@;
            let m = Self::proto_to_workspace_metadata(&v[i]);
            metas.push(m);
            proof {
                assert(input[i as int] == v@[i as int]@);
                assert(metas@ =~= old_metas.push(m));
                assert(metas@.map_values(|m: WorkspaceMetadata| m@) =~= old_metas.map_values(
                    |m: WorkspaceMetadata| m@,
                ).push(m@));
                assert(input.take(i + 1).map_values(to_metadata()) =~= input.take(
                    i as int,
                ).map_values(to_metadata()).push(to_metadata()(input[i as int])));
            }
            i = i + 1;
        }
        proof {
            assert(input.take(v@.len() as int) =~= input);
        }
        let ghost built = metas@;
        let sorted = stable_sort_by_key(metas);
        proof {
            lemma_stable_sort_map(
                sorted@,
                built,
                byte_key_of::<WorkspaceMetadata>(),
                |m: WorkspaceMetadata| m@,
                metadata_key(),
            );
        }
        sorted
    }
}

/// Whether `name` is among `names`.
fn is_listed(names: &[String], name: &String) -> (res: bool)
    ensures
        res == names@.map_values(|n: String| n@).contains(name@),
{
    let ghost views_of_names = names@.map_values(|n: String| n@);
    let mut i: usize = 0;
    while i < names.len()
        invariant
            views_of_names == names@.map_values(|n: String| n@),
            i <= names@.len(),
            forall|j: int| 0 <= j < i ==> views_of_names[j] != name@,
        decreases names.len() - i,
    {
        if names[i] == *name {
            assert(views_of_names[i as int] == name@);
            return true;
        }
        i = i + 1;
    }
    false
}

/// Keeps the records not named `name`, in order.
fn retain_not_named(records: Vec<Workspace>, name: &String) -> (res: Vec<Workspace>)
    ensures
        record_views(res@) == record_views(records@).filter(is_not_named(name@)),
{
    let ghost input = record_views(records@);
    let mut rest = records;
    let mut kept: Vec<Workspace> = Vec::new();
    proof {
        assert(record_views(rest@) =~= input.skip(0));
        assert(input.take(0) =~= Seq::<WorkspaceView>::empty());
        reveal(Seq::filter);
        assert(record_views(kept@) =~= input.take(0).filter(is_not_named(name@)));
    }
    while rest.len() > 0
        invariant
            rest@.len() <= input.len(),
            record_views(rest@) == input.skip(input.len() - rest@.len()),
            record_views(kept@) == input.take(input.len() - rest@.len()).filter(
                is_not_named(name@),
            ),
        decreases rest.len(),
    {
        let ghost done: int = input.len() - rest@.len();
        let ghost old_rest = rest@;
        let w = rest.remove(0);
        proof {
            assert(record_views(old_rest)[0] == w@);
            lemma_views_after_remove_first(old_rest, rest@, input, done);
            assert(input.take(done + 1) =~= input.take(done).push(w@));
            input.take(done).lemma_filter_push(w@, is_not_named(name@));
        }
        let ghost old_kept = record_views(kept@);
        if !(w.name == *name) {
            kept.push(w);
            assert(record_views(kept@) =~= old_kept.push(w@));
        }
    }
    proof {
        assert(input.take(input.len() as int) =~= input);
    }
    kept
}

/// Removing the first record of a suffix of `input` leaves the next suffix.
proof fn lemma_views_after_remove_first(
    before: Seq<Workspace>,
    after: Seq<Workspace>,
    input: Seq<WorkspaceView>,
    done: int,
)
    requires
        0 <= done < input.len(),
        before.len() > 0,
        record_views(before) == input.skip(done),
        after == before.remove(0),
    ensures
        record_views(after) == input.skip(done + 1),
{
    assert(after.len() == before.len() - 1);
    assert(record_views(before).len() == input.skip(done).len());
    assert forall|j: int| 0 <= j < after.len() implies #[trigger] record_views(after)[j] == input.skip(done + 1)[j] by {
        assert(after[j] == before[j + 1]);
        assert(record_views(after)[j] == after[j]@);
        assert(record_views(before)[j + 1] == before[j + 1]@);
        assert(record_views(before)[j + 1] == input.skip(done)[j + 1]);
        assert(input.skip(done)[j + 1] == input[done + j + 1]);
        assert(input.skip(done + 1)[j] == input[done + 1 + j]);
    }
    assert(record_views(after) =~= input.skip(done + 1));
}

/// When no element before `i` satisfies `p` and `s[i]` does, `s[i]` is the
/// first element of `s` that satisfies `p`.
proof fn lemma_first_match<A>(s: Seq<A>, p: spec_fn(A) -> bool, i: int)
    requires
        0 <= i < s.len(),
        s.take(i).filter(p).len() == 0,
        p(s[i]),
    ensures
        s.filter(p).len() > 0,
        s.filter(p)[0] == s[i],
{
    let a = s.take(i + 1);
    let b = s.skip(i + 1);
    assert(s =~= a + b);
    assert(a =~= s.take(i).push(s[i]));
    s.take(i).lemma_filter_push(s[i], p);
    Seq::filter_distributes_over_add(a, b, p);
    assert(s.filter(p) =~= a.filter(p) + b.filter(p));
    assert(a.filter(p) =~= seq![s[i]]);
}

/// Filtering twice is filtering by both predicates.
proof fn lemma_filter_twice<A>(s: Seq<A>, p: spec_fn(A) -> bool, q: spec_fn(A) -> bool)
    ensures
        s.filter(p).filter(q) == s.filter(|x: A| p(x) && q(x)),
    decreases s.len(),
{
    reveal(Seq::filter);
    let pq = |x: A| p(x) && q(x);
    if s.len() > 0 {
        let rest = s.drop_last();
        let last = s.last();
        lemma_filter_twice(rest, p, q);
        assert(s =~= rest.push(last));
        rest.lemma_filter_push(last, p);
        rest.lemma_filter_push(last, pq);
        if p(last) {
            rest.filter(p).lemma_filter_push(last, q);
        }
    } else {
        assert(s.filter(p).filter(q) =~= s.filter(pq));
    }
}

/// Filters by predicates that agree everywhere are equal.
proof fn lemma_filter_same<A>(s: Seq<A>, p: spec_fn(A) -> bool, q: spec_fn(A) -> bool)
    requires
        forall|x: A| #[trigger] p(x) == q(x),
    ensures
        s.filter(p) == s.filter(q),
{
    assert(p =~= q);
}

/// A filter by a predicate that holds of nothing is empty.
proof fn lemma_filter_none<A>(s: Seq<A>, p: spec_fn(A) -> bool)
    requires
        forall|x: A| !#[trigger] p(x),
    ensures
        s.filter(p) == Seq::<A>::empty(),
{
    assert(s.all(|x: A| !p(x)));
    s.lemma_all_neg_filter_empty(p);
    assert(s.filter(p) =~= Seq::<A>::empty());
}

/// Filtering a mapped sequence is mapping the elements whose image passes.
proof fn lemma_map_filter<A, B>(s: Seq<A>, f: spec_fn(A) -> B, p: spec_fn(B) -> bool)
    ensures
        s.map_values(f).filter(p) == s.filter(|x: A| p(f(x))).map_values(f),
    decreases s.len(),
{
    reveal(Seq::filter);
    let pf = |x: A| p(f(x));
    if s.len() > 0 {
        let rest = s.drop_last();
        let last = s.last();
        lemma_map_filter(rest, f, p);
        assert(s.map_values(f) =~= rest.map_values(f).push(f(last)));
        rest.map_values(f).lemma_filter_push(f(last), p);
        assert(s =~= rest.push(last));
        rest.lemma_filter_push(last, pf);
        if pf(last) {
            assert(rest.filter(pf).push(last).map_values(f) =~= rest.filter(pf).map_values(f).push(f(last)));
        }
    } else {
        assert(s.map_values(f).filter(p) =~= s.filter(pf).map_values(f));
    }
}

/// After adding the workspace `name`, the index holds one record of that
/// name: the new one, which gives back the path and the type that were
/// added.
pub proof fn lemma_add_then_read(s: Seq<WorkspaceView>, name: Seq<char>, path: Seq<u8>, t: WorkspaceType)
    ensures
        records_named(spec_add(s, name, path, t), name) == seq![new_record(name, path, t)],
        first_of(records_named(spec_add(s, name, path, t), name)) == Some(new_record(name, path, t)),
        to_metadata()(new_record(name, path, t)) == (WorkspaceMetadataView { name, workspace_type: t }),
{
    let kept = s.filter(is_not_named(name));
    kept.lemma_filter_push(new_record(name, path, t), is_named(name));
    lemma_filter_twice(s, is_not_named(name), is_named(name));
    lemma_filter_none(s, |x: WorkspaceView| is_not_named(name)(x) && is_named(name)(x));
    assert(kept.filter(is_named(name)) =~= Seq::<WorkspaceView>::empty());
    assert(records_named(spec_add(s, name, path, t), name) =~= seq![new_record(name, path, t)]);
}

/// Adding the workspace `name` leaves the records of every other name as
/// they were.
pub proof fn lemma_add_keeps_others(
    s: Seq<WorkspaceView>,
    name: Seq<char>,
    path: Seq<u8>,
    t: WorkspaceType,
    other: Seq<char>,
)
    requires
        other != name,
    ensures
        records_named(spec_add(s, name, path, t), other) == records_named(s, other),
{
    let kept = s.filter(is_not_named(name));
    kept.lemma_filter_push(new_record(name, path, t), is_named(other));
    lemma_filter_twice(s, is_not_named(name), is_named(other));
    lemma_filter_same(
        s,
        |x: WorkspaceView| is_not_named(name)(x) && is_named(other)(x),
        is_named(other),
    );
}

/// After forgetting `names`, no record of a forgotten name is left, and the
/// records of every other name are as they were.
pub proof fn lemma_forget(s: Seq<WorkspaceView>, names: Seq<Seq<char>>, name: Seq<char>)
    ensures
        records_named(spec_forget(s, names), name) == if names.contains(name) {
            Seq::<WorkspaceView>::empty()
        } else {
            records_named(s, name)
        },
{
    lemma_filter_twice(s, is_not_listed(names), is_named(name));
    let both = |x: WorkspaceView| is_not_listed(names)(x) && is_named(name)(x);
    if names.contains(name) {
        lemma_filter_none(s, both);
    } else {
        lemma_filter_same(s, both, is_named(name));
    }
}

/// Renaming `old` to `new` leaves no record named `old`, gives the new name
/// to the records of the old one (beside those that had it already, in
/// stored order, each with its path and type), and leaves the records of
/// every other name as they were.
pub proof fn lemma_rename(s: Seq<WorkspaceView>, old: Seq<char>, new: Seq<char>, name: Seq<char>)
    requires
        old != new,
    ensures
        records_named(spec_rename(s, old, new), old) == Seq::<WorkspaceView>::empty(),
        records_named(spec_rename(s, old, new), new) == s.filter(
            |r: WorkspaceView| r.name == old || r.name == new,
        ).map_values(renamed(old, new)),
        name != old && name != new ==> records_named(spec_rename(s, old, new), name)
            == records_named(s, name),
{
    let f = renamed(old, new);
    lemma_map_filter(s, f, is_named(old));
    lemma_filter_none(s, |x: WorkspaceView| is_named(old)(f(x)));
    assert(Seq::<WorkspaceView>::empty().map_values(f) =~= Seq::<WorkspaceView>::empty());
    lemma_map_filter(s, f, is_named(new));
    lemma_filter_same(
        s,
        |x: WorkspaceView| is_named(new)(f(x)),
        |r: WorkspaceView| r.name == old || r.name == new,
    );
    if name != old && name != new {
        lemma_map_filter(s, f, is_named(name));
        lemma_filter_same(s, |x: WorkspaceView| is_named(name)(f(x)), is_named(name));
        let kept = s.filter(is_named(name));
        assert forall|i: int| 0 <= i < kept.len() implies #[trigger] kept.map_values(f)[i] == kept[i] by {
            s.lemma_filter_pred(is_named(name), i);
        }
        assert(kept.map_values(f) =~= kept);
    }
}

/// After adding the workspace `name` at `path`, looking a workspace up by
/// that path finds the new one, unless a workspace of another name is
/// recorded at the same path.
pub proof fn lemma_add_then_find_by_path(
    s: Seq<WorkspaceView>,
    name: Seq<char>,
    path: Seq<u8>,
    t: WorkspaceType,
)
    requires
        forall|i: int|
            0 <= i < s.len() && s[i].name != name ==> path_components(#[trigger] s[i].path)
                != path_components(path),
    ensures
        first_of(spec_add(s, name, path, t).filter(is_at(path_components(path)))) == Some(
            new_record(name, path, t),
        ),
{
    let at = is_at(path_components(path));
    let kept = s.filter(is_not_named(name));
    kept.lemma_filter_push(new_record(name, path, t), at);
    lemma_filter_twice(s, is_not_named(name), at);
    assert forall|i: int| 0 <= i < s.len() implies !(|x: WorkspaceView| is_not_named(name)(x) && at(x))(
        #[trigger] s[i],
    ) by {}
    assert(s.all(|x: WorkspaceView| !(is_not_named(name)(x) && at(x))));
    s.lemma_all_neg_filter_empty(|x: WorkspaceView| is_not_named(name)(x) && at(x));
    assert(kept.filter(at) =~= Seq::<WorkspaceView>::empty());
}

/// When the repository directory and the canonical path of a workspace are
/// absolute and hold no `.` or `..` component, the path that the index
/// records for the workspace is relative, and following it from the
/// repository directory leads back to the workspace.
pub proof fn lemma_recorded_path_leads_back(store: SimpleWorkspaceStore, canonical: Seq<u8>)
    requires
        store.has_repo_dir(),
        is_canonical(store.repo_components()),
        is_canonical(path_components(canonical)),
    ensures
        !has_root(store.spec_canonical_path(canonical)),
        resolve(store.repo_components(), path_components(store.spec_canonical_path(canonical)))
            == path_components(canonical),
{
    lemma_relative_path_leads_back(store.repo_components(), canonical);
}

/// Renaming changes names only: every record keeps its place, its path and
/// its type, and takes the new name exactly when it had the old one.
pub proof fn lemma_rename_keeps_path_and_type(s: Seq<WorkspaceView>, old: Seq<char>, new: Seq<char>)
    ensures
        spec_rename(s, old, new).len() == s.len(),
        forall|i: int|
            0 <= i < s.len() ==> {
                &&& (#[trigger] spec_rename(s, old, new)[i]).path == s[i].path
                &&& spec_rename(s, old, new)[i].workspace_type == s[i].workspace_type
                &&& spec_rename(s, old, new)[i].name == if s[i].name == old {
                    new
                } else {
                    s[i].name
                }
            },
{
}

} // verus!
