# jj_workspace_store

The workspace index and the operation-heads store of a jj repository,
written in Verus with their rules stated as contracts and proved.

- `src/` is the verified library. It decides what the stores read, write
  and answer: the records that each operation on the workspace index leaves,
  the paths under which workspaces are recorded (relative to the repository),
  the directories and files that hold operation heads, and the heads that a
  directory listing stands for. Paths are byte strings with `/` as the
  separator, as on Unix.
  - `workspace_store`: workspace types, metadata and the store interface.
  - `protos`: the stored records of the workspace index.
  - `simple_workspace_store`: the file-based workspace store.
  - `simple_op_heads_store`: the file-based operation-heads store.
  - `hex`, `order`, `path`: hexadecimal text, byte order and stable sorting,
    path components, joining and relative paths.
- `app/` is the file-system side: locking, reading and writing the index
  file with Protobuf, canonicalizing paths, carrying out the steps on head
  files and listing heads directories.
- `tests/` runs the library on concrete values, the operation-heads steps
  against a directory tree kept in memory.
