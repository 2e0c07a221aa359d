//! The records of the workspace index as they are stored.

use vstd::prelude::*;

use crate::workspace_store::WorkspaceType;

verus! {

/// The stored number of a regular workspace.
pub const WORKSPACE_TYPE_REGULAR: i32 = 0;

/// The stored number of an independent workspace.
pub const WORKSPACE_TYPE_INDEPENDENT: i32 = 1;

/// The workspace type that a stored number stands for; a number that
/// stands for no type reads as the default, regular.
pub open spec fn type_from_proto(t: i32) -> WorkspaceType {
    if t == WORKSPACE_TYPE_INDEPENDENT {
        WorkspaceType::Independent
    } else {
        WorkspaceType::Regular
    }
}

/// The stored number of a workspace type.
pub open spec fn type_to_proto(t: WorkspaceType) -> i32 {
    match t {
        WorkspaceType::Regular => WORKSPACE_TYPE_REGULAR,
        WorkspaceType::Independent => WORKSPACE_TYPE_INDEPENDENT,
    }
}

/// One workspace as the index stores it.
#[derive(Clone, Debug, PartialEq, Default)]
pub struct Workspace {
    /// The name of the workspace.
    pub name: String,
    /// The path of the workspace, relative to the repository when it can be.
    pub path: Vec<u8>,
    /// The stored number of the workspace type.
    pub workspace_type: i32,
}

/// What a stored workspace record holds.
pub struct WorkspaceView {
    /// The name.
    pub name: Seq<char>,
    /// The path.
    pub path: Seq<u8>,
    /// The stored number of the type.
    pub workspace_type: i32,
}

impl View for Workspace {
    type V = WorkspaceView;

    open spec fn view(&self) -> WorkspaceView {
        WorkspaceView { name: self.name@, path: self.path@, workspace_type: self.workspace_type }
    }
}

impl Workspace {
    /// Returns the workspace type of the record.
    pub fn workspace_type(&self) -> (res: WorkspaceType)
        ensures
            res == type_from_proto(self.workspace_type),
    {
        if self.workspace_type == WORKSPACE_TYPE_INDEPENDENT {
            WorkspaceType::Independent
        } else {
            WorkspaceType::Regular
        }
    }
}

/// The whole workspace index: its records in stored order.
#[derive(Clone, Debug, PartialEq, Default)]
pub struct Workspaces {
    /// The records.
    pub workspaces: Vec<Workspace>,
}

/// The views of a sequence of stored records.
pub open spec fn record_views(s: Seq<Workspace>) -> Seq<WorkspaceView> {
    s.map_values(|w: Workspace| w@)
}

impl Workspaces {
    /// The records, as views.
    pub open spec fn records(&self) -> Seq<WorkspaceView> {
        record_views(self.workspaces@)
    }

    /// Creates an index with no record.
    pub fn new() -> (res: Self)
        ensures
            res.records() == Seq::<WorkspaceView>::empty(),
    {
        let res = Workspaces { workspaces: Vec::new() };
        assert(res.records() =~= Seq::<WorkspaceView>::empty());
        res
    }
}

/// Returns the stored number of a workspace type.
pub fn workspace_type_to_proto(t: WorkspaceType) -> (res: i32)
    ensures
        res == type_to_proto(t),
{
    match t {
        WorkspaceType::Regular => WORKSPACE_TYPE_REGULAR,
        WorkspaceType::Independent => WORKSPACE_TYPE_INDEPENDENT,
    }
}

} // verus!
