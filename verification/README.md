# level_cache

A verified level-cache store for Merkle trees. Such a store keeps the base row of a
tree (or leaves it to an external reader) and the rows near the root, and discards the
rows in between.

`src/` is the library. It decides where every byte of a store lies and which requests
are refused; its contracts are proved by Verus.

- `tree`: the shape of a tree and of the part of it that is cached.
- `config`, `error`: how a store is configured, and why a request is refused.
- `store`: opening a store; `read`, `ranges`, `write`, `truncate`, `consistency` plan the
  requests, `layer` and `rows` build a tree.
- `oss`: finding a remote object.
- `image`, `requests`, `built`: what the plans find in the bytes of the file, what a
  request for several ranges gives back, and what building a tree leaves.

`app/` carries the plans out on files, readers and object stores. `tests/` runs the
library on concrete values.
