# rqdb

A small relational database as a verified library. Its parts, from the bottom up:

| Module | What it holds |
|--------|---------------|
| `bytes`, `text` | Little-endian numbers in bytes; numbers, case, lines and columns in texts |
| `error` | Errors and their SQLSTATE codes |
| `storage::page`, `storage::tuple` | Slotted pages with checksums; headers of row versions and their visibility |
| `storage::fsm`, `storage::heap`, `storage::heap_order` | The free-space map; heap files of pages; the order of rows on one page |
| `storage::pool_model`, `storage::pool`, `storage::pool_laws`, `storage::pool_manager` | The buffer pool: its model, the pool, what runs of calls leave alone, the pools of a database |
| `storage::table_file`, `storage::table_work`, `storage::tablespace` | The rows of a table through a pool with a frame, and through any pool; the rows of all tables |
| `catalog` | The tables of the catalog: how they are written, read and cached; the configuration |
| `sql` | Statements: expressions and rows, `SELECT`, `INSERT`, `DELETE`, `UPDATE`, `CREATE TABLE`, `DROP TABLE` |
| `transaction::tx` | Transaction numbers and states |
| `db`, `shell` | Opening and making databases; what is typed into the shell |

The contracts speak of models: a page is the rows in its slots, a heap file is its pages and its
map, a pool is its frames and files, a table is its rows by address, the catalog is its lists. The
public proof functions whose names start with `law_` state what holds across functions: that a row
that was inserted is selected, that a deleted one is gone, that a dropped table can be made again,
that a database that was written is read back.

Where a function asks something of its input that a caller has to test, another function tests it:
`HeapFile::open_checked` and `HeapFile::is_numbered` for the bytes of files, `catalog_is_sound` for a
catalog, `TablespaceManager::is_touchable` and `is_scannable` for the pages of a table,
`parse_checked` for a text, `is_ok` for a statement.

The library does no input or output. It takes the bytes of files and gives the bytes that are to be
written; `app/` reads and writes the files, parses the command line and runs the shell.

What is not proved is stated at the functions that call other crates and the standard library: the
CRC-32 of a page (`storage::page`), the parser of SQL (`sql::parser`, which gives the parser's own
tree; `app/` turns it into the library's statements one for one), letters beyond ASCII
(`text`), texts as UTF-8 (`catalog::row`), and the messages for numbers that cannot be read
(`catalog::loader`).
