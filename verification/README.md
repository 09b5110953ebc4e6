# otf

An embedded relational database engine, written in Rust and verified with Verus.

| module    | what it holds |
|-----------|---------------|
| `common`  | error categories, clocks, seeded randomness, block stores and fault injection |
| `pager`   | fixed-size pages with checksums, two alternating meta slots, the free list, crash recovery |
| `btree`   | the copy-on-write B+tree on those pages, its cursors and its integrity check |
| `proto`   | the wire form of requests and responses, and its grammar |
| `index`   | secondary-index entries and how they are probed |
| `catalog` | schemas, constraints, stored definitions, row writes and the trees they change |
| `dbms`    | results, cursors, reports and errors as callers see them |
| `cli`     | what the shell answers |

`bytes`, `order`, `text`, `value` and `views` are shared ground: little-endian numbers,
byte order, text, column values, and what collections hold.

Every function says in its `ensures` what it returns or changes. The promises that span
several functions are public proof functions, among them:

- a commit that succeeds is durable and is read back; one that the store failed is
  recovered as the state before it or as the new one, never as a mixture, as long as a
  meta page that was written in part fails its checks (`pager::laws`); and the trees that
  were committed before it are then as they were (`btree::durable`, `catalog::named`);
- a captured root is a stable snapshot (`btree::api`), and a tree that passes its check,
  with cells of the allowed size, is a B+tree (`btree::sound`);
- no page is lost or kept twice when trees change, and changes, commits, giving back pages,
  reopening and crashes all keep the trees apart from each other and from the free list
  (`btree::grove`, `btree::plant`, `btree::life`);
- what was written to a page is read from it until it is written again or freed, and a
  recording of allocations holds what was handed out (`pager::laws`);
- a store that was consistent before a commit passes its audit after it, also where the
  commit failed, and what is staged keeps clear of the committed free list
  (`pager::chain`); the cache gives up its entries in the order of their
  last use (`pager::cache`);
- a fault that is armed strikes exactly the operation it is armed on (`common::io`);
- a range yields exactly the entries within its bounds, in order, and the number of
  entries follows the insertions and removals (`btree::ordered`);
- what is encoded decodes to the same thing (`proto::inverse`, `catalog::stored`);
- every index stays in step with its base table (`catalog::plan`), given what probing the
  trees finds (`catalog::probe`);
- rows that are accepted obey every constraint and are read back, and removals orphan no
  referencing row (`catalog::effects`, `catalog::fk`);
- a conditional write touches exactly the rows that its policy matches (`catalog::policy`),
  and a series of writes is all or nothing (`catalog::series`);
- paging gives each row once and in order (`dbms::cursor`).

How values are encoded and compared is left to the value layer: its answers come in as
arguments. `app/` is the command-line tool around the library.
