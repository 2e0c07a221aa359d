//! Workspace metadata and the interface of a workspace store.

use vstd::prelude::*;

use vstd::utf8::encode_utf8;

use vstd::string::StringSliceAdditionalSpecFns;

use crate::order::ByteKeyed;

verus! {

/// Errors that can occur when interacting with a workspace store.
#[derive(Debug)]
pub enum WorkspaceStoreError {
    /// There is no workspace store at the given location (a path, as bytes).
    StoreNotFound(Vec<u8>),
    /// Another error, described by its message.
    Other(String),
}

/// The type of workspace.
#[derive(Copy, Clone, PartialEq, Eq, Hash, Debug, Structural)]
pub enum WorkspaceType {
    /// A regular workspace does not have its own operation heads; it uses
    /// those of the repository.
    Regular,
    /// An independent workspace has its own operation heads.
    Independent,
}

/// Metadata about a workspace: its name and its type.
#[derive(Clone, PartialEq, Eq, Hash, Debug)]
pub struct WorkspaceMetadata {
    name: String,
    workspace_type: WorkspaceType,
}

/// What a `WorkspaceMetadata` holds.
pub struct WorkspaceMetadataView {
    /// The name of the workspace.
    pub name: Seq<char>,
    /// The type of the workspace.
    pub workspace_type: WorkspaceType,
}

impl View for WorkspaceMetadata {
    type V = WorkspaceMetadataView;

    closed spec fn view(&self) -> WorkspaceMetadataView {
        WorkspaceMetadataView { name: self.name@, workspace_type: self.workspace_type }
    }
}

/// The key by which workspace metadata is ordered: the UTF-8 bytes of the name.
pub open spec fn metadata_key() -> spec_fn(WorkspaceMetadataView) -> Seq<u8> {
    |m: WorkspaceMetadataView| encode_utf8(m.name)
}

impl ByteKeyed for WorkspaceMetadata {
    open spec fn byte_key(&self) -> Seq<u8> {
        encode_utf8(self@.name)
    }

    fn key_bytes(&self) -> (res: &[u8]) {
        self.name().as_bytes()
    }
}

impl WorkspaceMetadata {
    /// Creates a new `WorkspaceMetadata` instance.
    pub fn new(name: String, workspace_type: WorkspaceType) -> (res: Self)
        ensures
            res@.name == name@,
            res@.workspace_type == workspace_type,
    {
        WorkspaceMetadata { name, workspace_type }
    }

    /// Returns the name of the workspace.
    pub fn name(&self) -> (res: &str)
        ensures
            res@ == self@.name,
    {
        self.name.as_str()
    }

    /// Returns the type of the workspace.
    pub fn workspace_type(&self) -> (res: WorkspaceType)
        ensures
            res == self@.workspace_type,
    {
        self.workspace_type
    }
}

/// A storage backend for workspace metadata. Paths are byte strings.
pub trait WorkspaceStore: Send + Sync {
    /// Returns the name of this workspace store implementation.
    fn name(&self) -> &str;

    /// Adds a workspace with the given name and path to the store.
    fn add(&self, workspace_name: &str, path: &[u8], workspace_type: WorkspaceType) -> Result<
        (),
        WorkspaceStoreError,
    >;

    /// Forgets the workspaces with the given names.
    fn forget(&self, workspace_names: &[String]) -> Result<(), WorkspaceStoreError>;

    /// Renames a workspace from `old_name` to `new_name`.
    fn rename(&self, old_name: &str, new_name: &str) -> Result<(), WorkspaceStoreError>;

    /// Returns the metadata for the workspace matching the given path in this
    /// store, if it exists.
    fn get_workspace_metadata_by_workspace_path(&self, workspace_path: &[u8]) -> Result<
        Option<WorkspaceMetadata>,
        WorkspaceStoreError,
    >;

    /// Gets the path of the workspace with the given name, if it exists.
    fn get_workspace_path(&self, workspace_name: &str) -> Result<
        Option<Vec<u8>>,
        WorkspaceStoreError,
    >;

    /// Gets the type of the workspace with the given name, if it exists.
    fn get_workspace_type(&self, workspace_name: &str) -> Result<
        Option<WorkspaceType>,
        WorkspaceStoreError,
    >;

    /// Returns metadata about all workspaces in the store.
    fn get_all_workspaces(&self) -> Result<Vec<WorkspaceMetadata>, WorkspaceStoreError>;
}

} // verus!
