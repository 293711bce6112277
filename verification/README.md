# venom_db

A small relational database whose core is verified with Verus: slotted pages with checksums, a
buffer pool, a write-ahead log with recovery, B+tree indexes, a lock manager, a SQL subset and an
approximate nearest-neighbour index.

The library does no I/O. It works on images of the files (the log, the pages, the catalog, the page
lists) and hands back what has to be written; the program in `app/` reads and writes the files, in
the order that durability asks for: new pages, empty, with the lists that name them; then the log;
then what the pages hold.

## Layout

| Module | Holds |
| --- | --- |
| `storage` | pages, the image of the database file, the catalog file |
| `buffer` | frames, which of them to evict, the buffer pool |
| `recovery` | log records, the log and what recovery makes of it |
| `index` | B+tree nodes and trees, the neighbour graph (`hnsw`) |
| `concurrency` | transactions and the lock manager |
| `sql` | values, tokens, statements; numbers are floats as bit patterns |
| `engine` | schemas and rows, the executor, and what statements mean |
| `shell` | what a line that was typed in asks for |
| `display` | how results and trees are shown |
| `bytes`, `text` | little-endian numbers, texts and their UTF-8 form |

`engine::model` says what each statement means: functions from the state of a database and a
statement to the next state and the answer. `Executor::execute` and `Executor::recover` are proved
to compute exactly these. What follows for a user of the database is stated and proved as `law_*`
functions beside it:

- `engine::contents`, `engine::changes`: what INSERT, DELETE and UPDATE do to the rows that SELECT
  reads; one that fails at some row changes none;
- `engine::keys`: indexes and tables agree, and primary keys of every type stay unique;
- `engine::lookups`: a lookup through an index finds what a scan finds;
- `engine::order`: ORDER BY and LIMIT;
- `engine::durability`, `engine::rebuild`: what a restart brings back;
- `engine::crashes`: a statement whose records did not all reach the log leaves nothing;
- `engine::indexed`: which columns have an index;
- `engine::promises`: what holds of a database at all times, and what follows for its statements.

`recovery::wal` says what recovery makes of a log: every slot of every page holds what the committed
transactions, done in log order, left there.

The other modules hold their own laws: reading back what was written to a page, a row, a node, a log
or a catalog file, what the buffer pool keeps, which locks exclude each other, what a B+tree finds,
and how the neighbour graph stays linked.

## What is taken on trust

Few functions outside the library are called, and each has a contract that nothing here proves; the
comment above it says what it claims. They are `crc32fast::hash` (`storage::page`), the `Debug` form
of a text, the UTF-8 decoder and `String::push` (`text`), and the Unicode classes and upper case of
characters beyond ASCII (`sql::lexer`).

Floating-point arithmetic stays in `app/`: distances between vectors, the random level of a new
graph node, and the value of a float literal. The library gets the results as bit patterns.
