//! Where the free-space map of a heap file is.

use vstd::prelude::*;
use crate::storage::heap::{fsm_name, fsm_path, last_index, name_of, name_start, names_file,
    without_trail};

verus! {

/// The last place of a character is where it is, with none behind it; there is none in a text
/// without it.
pub proof fn law_last_is_last(a: Seq<char>, c: char, b: Seq<char>)
    requires
        !b.contains(c),
    ensures
        last_index(a + seq![c] + b, c) == a.len(),
        last_index(b, c) == -1,
    decreases b.len(),
{
    let s = a + seq![c] + b;
    if b.len() > 0 {
        let front = b.drop_last();
        assert forall|x: char| front.contains(x) implies b.contains(x) by {
            let i = choose|i: int| 0 <= i < front.len() && front[i] == x;
            assert(b[i] == x);
        }
        law_last_is_last(a, c, front);
        assert(b.last() == b[b.len() - 1]);
        assert(s.drop_last() =~= a + seq![c] + front);
    } else {
        assert(s.last() == c);
    }
}

/// The map of the rows of a table is named by its schema and its name. A file of another name has
/// its map under its name with another extension.
pub proof fn law_map_is_named_by_its_table(
    schema: Seq<char>,
    table: Seq<char>,
    file: Seq<char>,
    extension: Seq<char>,
)
    requires
        !schema.contains('.'),
        !table.contains('.'),
        !file.contains('.'),
        !extension.contains('.'),
        table.len() > 0,
    ensures
        fsm_name(schema + seq!['.'] + table + seq!['.'] + file + ".DAT"@) == schema + seq!['.']
            + table + ".FSM"@,
        fsm_name(table + seq!['.'] + extension) == table + ".FSM"@,
        fsm_name(table) == table + ".FSM"@,
{
    reveal_strlit(".DAT");
    reveal_strlit("DAT");
    let dat = seq!['D', 'A', 'T'];
    assert(!dat.contains('.'));
    let a = schema;
    let b = a + seq!['.'] + table;
    let c = b + seq!['.'] + file;
    let name = schema + seq!['.'] + table + seq!['.'] + file + ".DAT"@;
    assert(name =~= c + seq!['.'] + dat);
    law_last_is_last(c, '.', dat);
    law_last_is_last(b, '.', file);
    law_last_is_last(a, '.', table);
    assert(name.subrange(0, c.len() as int) =~= c);
    assert(c.subrange(0, b.len() as int) =~= b);
    assert(name.subrange(0, b.len() as int) =~= b);
    assert(name.subrange(c.len() as int + 1, name.len() as int) =~= "DAT"@);
    let other = table + seq!['.'] + extension;
    law_last_is_last(table, '.', extension);
    law_last_is_last(table, '.', table);
    assert(other.subrange(0, table.len() as int) =~= table);
}

/// The map of a file is beside it, in the same directory.
pub proof fn law_map_is_beside_its_file(dir: Seq<char>, name: Seq<char>)
    requires
        name.len() > 0,
        !name.contains('/'),
        name.last() != '.',
    ensures
        fsm_path(dir + seq!['/'] + name) == dir + seq!['/'] + fsm_name(name),
        fsm_path(name) == fsm_name(name),
{
    let path = dir + seq!['/'] + name;
    assert(name.last() == name[name.len() - 1]);
    assert(path[path.len() - 1] == name.last());
    assert(without_trail(path) == path && without_trail(name) == name);
    law_last_is_last(dir, '/', name);
    assert(name_of(path) =~= name);
    assert(name_of(name) =~= name);
    assert(path.subrange(0, name_start(path)) =~= dir + seq!['/']);
    assert(seq!['.'].last() == '.' && seq!['.', '.'].last() == '.');
    assert(names_file(path) && names_file(name));
    assert(name.subrange(0, 0) + fsm_name(name) =~= fsm_name(name));
}

} // verus!
