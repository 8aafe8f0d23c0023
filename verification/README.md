# file_tidy

A command-line tool that tidies a directory's files:

- `file dup-list` lists files with the same contents (same size, same digest),
- `file dup-del` deletes such duplicates, keeping protected files and one file
  of every group, and checks each pair with a second digest first (SHA-1
  where the search used MD5, else MD5),
- `file rename` renames files by the digest of their contents (MD5 unless
  another is chosen) or by a sequence number in a chosen order, leaving
  hidden and ignored files alone.

The decisions are a library verified with Verus (`src/`); the program around
it (`app/`) reads the command line, walks directories, reads files, and
renames or deletes them.

`src/`:

- `enumerate`: digest algorithms and orders, with their names;
- `digest`: digests of contents and their hexadecimal text;
- `text`, `naming`: small text operations and zero-padded numbers;
- `order`, `path`, `sorting`: orders on bytes, texts and paths (as std
  compares paths), and a stable sort by key;
- `dup`, `report`: finding groups of duplicates and the text that lists them;
- `dup_del`: which duplicates to delete, and the check before a deletion;
- `rename`: the new names of renamed files;
- `command`, `error`: the commands' arguments and the errors.
