# eh_git

A small content-addressed version store in the style of git, with its formats and
decisions verified in Verus.

- `src/` is the verified library:
  - `objects`: objects as `kind NUL content`, named by the SHA-1 of their bytes; decoding.
  - `commit`: the commit format (`tree0…`, `parent0…`, message), building and reading it.
  - `tree`: directory entries kept in byte order of names, the tree format, reading it back,
    and what each entry becomes when a tree is read into a working directory.
  - `refs`: ref paths, tags, reading a ref (`get_oid`), planning a checkout.
  - `cat`: what listing a blob, tree or commit prints.
  - `hex`, `bytes`, `order`, `text`: hex rendering, byte searching and splitting, byte order,
    text helpers.
- `app/` is the command-line program: file system access and printing around the library.
- `tests/` runs the library on concrete values.

The store lives in `.eh-git/` (objects under `.eh-git/objects/`, the head in `.eh-git/HEAD`,
tags under `.eh-git/refs/tags/`).
