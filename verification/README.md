# elfshaker

A version control system for binaries: it stores snapshots of directories in
highly compressed pack files and gives fast access to the stored files.

The library under `src/` is verified with Verus. It works on plain values (bytes
of files, paths as byte strings, times) and decides what is to be read, written
and deleted. The program under `app/` does the input and output.

## Layout

- `entrypool`, `pathidx`: pools that give values small handles.
- `packidx`: the index of a pack, with its snapshots, and its file format. The
  model is in `packidx/model.rs`, and what holds across operations in
  `packidx/laws.rs`.
- `repo`: repositories. `id` names packs and snapshots, `pack` and `packfile`
  are the format of pack files, `create` and `extract` go from files to packs
  and back, `checkout` plans the extraction of a snapshot, `diff` compares
  lists of files, `store` creates loose snapshots, `search` finds snapshots,
  `merge` joins indexes, `gc` finds what is not needed, `remote` reads remote
  indexes, `fs` cleans up directories.
- `cli`: the output of the commands, and their options.
- `createpack`: packs of directories, without a repository.
- `indexed`: repositories with one top-level index.
- `atomicfile`, `log`, `progress`, `batch`, `compression`, `digest`: creating
  files atomically, logging, progress reports, work on many objects, Zstandard,
  SHA-1 and hexadecimal text.
- `bytes`, `lookup`, `paths`, `sort`, `split`, `text`: byte strings, paths and
  text.

## What is proved

Each function says what it returns for every input. Proof functions whose name
begins with `law_` say what holds across functions, among others:

- a snapshot that was pushed to an index is found again with exactly its files,
  and the snapshots before it stay as they are;
- an index is the same after it has been stored and loaded;
- a snapshot that was packed is extracted again, file by file;
- carrying out an extraction leaves exactly the files of the snapshot;
- what garbage collection deletes is in a pack, or is not needed by any
  snapshot.

What the outside crates do (Zstandard, SHA-1, MessagePack, URLs, dates, random
numbers) is trusted. It is stated at the functions marked
`#[verifier::external_body]`, each of which wraps one call.
