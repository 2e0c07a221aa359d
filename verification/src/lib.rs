//! Workspace metadata, the file-based workspace index and the operation-heads
//! store of a repository, with their rules stated and proved.

pub mod hex;
pub mod order;
pub mod path;
pub mod protos;
pub mod simple_op_heads_store;
pub mod simple_workspace_store;
pub mod workspace_store;
