//! What is written of a new catalog is read back.

use vstd::prelude::*;
use vstd::utf8::{encode_utf8, is_ascii_chars, is_ascii_chars_encode_utf8};
use crate::catalog::row::law_signed_round_trip;
use crate::bytes::{lemma_le_bytes_len, lemma_pow256};
use crate::catalog::bootstrap::{bufferpool_entry, column_entry, holds_rows, is_dat_file,
    is_new_database, law_stored_row_is_read, row_bytes, stored_rows, sysbufferpools_rows,
    syscolumns_rows, sysschemas_rows, systables_rows, systablespaces_header, systablespaces_rows,
    tabbed, tabbed_lines, table_entry, tablespace_entry, value_bytes, values_bytes, DatFile,
    NewDatabase};
use crate::catalog::cache::{column_row, table_row};
use crate::catalog::config::{ended_lines, law_lines_round_trip, ConfigModel};
use crate::catalog::loader::{bufferpool_def, bufferpool_kinds, catalog_in, column_def, column_kinds,
    data_lines, field_values, file_values, has_kinds, is_kind, lines_values, rows_values,
    schema_kinds, table_def, table_kinds, tablespace_def, tablespace_kinds, text_value, text_values,
    FieldKind, FileContent};
use crate::catalog::SYSTEM_SCHEMA;
use crate::catalog::types::{BufferPoolDef, CatalogDef, ColumnDef, TableDef, TablespaceDef};
use crate::error::ErrorModel;
use crate::sql::types::ValueModel;
use crate::storage::heap_order::{fits_one_page, on_first_page, rows_len};
use crate::storage::heap::{all_rows, law_scan_is_the_file, law_scan_reads_every_page, page_sound,
    readable, HeapModel, Rid};
use crate::storage::page::is_live;
use crate::text::{digits10, int_text, is_digit, lemma_digits10, lemma_parse_int_text,
    lemma_split_tail, split_parts};

verus! {

/// Whether two lists have the same items, in whatever order, and as many.
pub open spec fn same_items<T>(a: Seq<T>, b: Seq<T>) -> bool {
    &&& a.len() == b.len()
    &&& forall|x: T| #[trigger] a.contains(x) <==> b.contains(x)
}

/// What is in the file of a table of a new catalog.
pub open spec fn content(f: DatFile) -> FileContent {
    match f {
        DatFile::Rows(h) => FileContent::Rows(h@),
        DatFile::Text(s) => FileContent::Text(s@),
    }
}

proof fn lemma_value_len(row: Seq<ValueModel>, n: int, i: int)
    requires
        0 <= i < n <= row.len(),
        row[i] is Str,
    ensures
        encode_utf8(row[i]->Str_0).len() <= values_bytes(row, n).len(),
    decreases n,
{
    if i < n - 1 {
        lemma_value_len(row, n - 1, i);
    } else {
        lemma_le_bytes_len(encode_utf8(row[i]->Str_0).len(), 8);
    }
}

proof fn lemma_rows_values(raw: Seq<(Rid, Seq<u8>)>, kinds: Seq<FieldKind>, n: int)
    requires
        0 <= n <= raw.len(),
        forall|k: int|
            0 <= k < n ==> field_values((#[trigger] raw[k]).1, kinds, kinds.len() as int).0 is Ok,
    ensures
        rows_values(raw, kinds, n) == Ok::<Seq<Seq<ValueModel>>, ErrorModel>(
            Seq::new(
                n as nat,
                |k: int| field_values(raw[k].1, kinds, kinds.len() as int).0->Ok_0,
            ),
        ),
    decreases n,
{
    let want = Seq::new(
        n as nat,
        |k: int| field_values(raw[k].1, kinds, kinds.len() as int).0->Ok_0,
    );
    if n > 0 {
        lemma_rows_values(raw, kinds, n - 1);
        let before = Seq::new(
            (n - 1) as nat,
            |k: int| field_values(raw[k].1, kinds, kinds.len() as int).0->Ok_0,
        );
        assert(field_values(raw[n - 1].1, kinds, kinds.len() as int).0 is Ok);
        assert(want =~= before.push(want[n - 1]));
    } else {
        assert(want =~= Seq::empty());
    }
}

/// Two lists that list no address twice and the same pairs have the same length.
proof fn lemma_same_len(a: Seq<(Rid, Seq<u8>)>, b: Seq<(Rid, Seq<u8>)>)
    requires
        a.no_duplicates(),
        b.no_duplicates(),
        forall|x: (Rid, Seq<u8>)| #[trigger] a.contains(x) <==> b.contains(x),
    ensures
        a.len() == b.len(),
{
    a.unique_seq_to_set();
    b.unique_seq_to_set();
    assert(a.to_set() =~= b.to_set()) by {
        assert forall|x: (Rid, Seq<u8>)| a.to_set().contains(x) <==> b.to_set().contains(x) by {
            assert(a.contains(x) <==> b.contains(x));
        }
    }
}

/// A scan of a file that holds exactly some rows lists them.
proof fn lemma_scan_of_rows(h: HeapModel, rids: Seq<Rid>, stored: Seq<Seq<u8>>)
    requires
        readable(h),
        h.pages.len() <= u64::MAX,
        forall|p: int| 0 <= p < h.pages.len() ==> (#[trigger] h.pages[p]).len() >= 17,
        holds_rows(h, rids, stored),
    ensures
        ({
            let raw = all_rows(h.pages, h.pages.len() as int);
            &&& raw.len() == stored.len()
            &&& forall|k: int| 0 <= k < raw.len() ==> stored.contains((#[trigger] raw[k]).1)
            &&& forall|i: int|
                0 <= i < stored.len() ==> raw.contains((rids[i], #[trigger] stored[i]))
        }),
{
    let raw = all_rows(h.pages, h.pages.len() as int);
    law_scan_is_the_file(h);
    let pairs = Seq::new(rids.len(), |i: int| (rids[i], stored[i]));
    assert forall|x: (Rid, Seq<u8>)| #[trigger] raw.contains(x) <==> pairs.contains(x) by {
        let (rid, row) = x;
        assert(raw.contains((rid, row)) <==> h.row(rid) == Some(row));
        if pairs.contains(x) {
            let i = choose|i: int| 0 <= i < pairs.len() && pairs[i] == x;
            assert(h.row(rids[i]) == Some(stored[i]));
        }
        if raw.contains(x) {
            assert(h.row(rid) is Some);
            let i = choose|i: int| 0 <= i < rids.len() && rids[i] == rid;
            assert(h.row(rids[i]) == Some(stored[i]));
            assert(pairs[i] == x);
        }
    }
    assert(raw.no_duplicates()) by {
        assert forall|i: int, j: int| 0 <= i < raw.len() && 0 <= j < raw.len() && i != j implies
            raw[i] != raw[j] by {
            if i < j {
                assert(raw[i].0 != raw[j].0);
            } else {
                assert(raw[j].0 != raw[i].0);
            }
        }
    }
    assert(pairs.no_duplicates()) by {
        assert forall|i: int, j: int|
            0 <= i < pairs.len() && 0 <= j < pairs.len() && i != j implies pairs[i]
            != pairs[j] by {
            assert(rids[i] != rids[j]);
        }
    }
    lemma_same_len(raw, pairs);
    assert forall|k: int| 0 <= k < raw.len() implies stored.contains((#[trigger] raw[k]).1) by {
        assert(raw.contains(raw[k]));
        let i = choose|i: int| 0 <= i < pairs.len() && pairs[i] == raw[k];
        assert(stored[i] == raw[k].1);
    }
    assert forall|i: int| 0 <= i < stored.len() implies raw.contains(
        (rids[i], #[trigger] stored[i]),
    ) by {
        assert(pairs[i] == (rids[i], stored[i]));
        assert(pairs.contains(pairs[i]));
    }
}

/// The rows of a table of a new catalog are read back from the heap file that holds them.
pub proof fn law_written_rows_are_read(
    f: DatFile,
    header: Seq<char>,
    rows: Seq<Seq<ValueModel>>,
    page_size: nat,
    kinds: Seq<FieldKind>,
    table: Seq<char>,
)
    requires
        is_dat_file(f, header, rows, false, page_size),
        page_size >= 24,
        forall|i: int| 0 <= i < rows.len() ==> has_kinds(#[trigger] rows[i], kinds),
    ensures
        file_values(content(f), kinds, table) is Ok,
        same_items(file_values(content(f), kinds, table)->Ok_0, rows),
        fits_one_page(page_size, stored_rows(rows)) ==> file_values(
            content(f),
            kinds,
            table,
        )->Ok_0 == rows,
{
    let heap = f->Rows_0;
    let h = heap@;
    heap.lemma_wf();
    let stored = stored_rows(rows);
    let rids = choose|rids: Seq<Rid>| holds_rows(h, rids, stored);
    lemma_scan_of_rows(h, rids, stored);
    law_scan_reads_every_page(h);
    let raw = all_rows(h.pages, h.pages.len() as int);
    let width = kinds.len() as int;
    assert forall|i: int| 0 <= i < rows.len() implies field_values(
        #[trigger] stored[i],
        kinds,
        width,
    ).0 == Ok::<Seq<ValueModel>, ErrorModel>(rows[i]) by {
        let row = rows[i];
        assert(has_kinds(row, kinds));
        let p = rids[i].page_id as int;
        assert(h.row(rids[i]) == Some(stored[i]));
        assert(page_sound(h.pages[p], p));
        assert(is_live(h.pages[p], rids[i].slot as int));
        assert(row_bytes(row).len() <= 0xffff);
        assert forall|k: int| 0 <= k < row.len() && (#[trigger] row[k]) is Str implies encode_utf8(
            row[k]->Str_0,
        ).len() < 0x1_0000_0000_0000_0000 by {
            lemma_value_len(row, row.len() as int, k);
        }
        law_stored_row_is_read(row, kinds, width);
        assert(row.subrange(0, width) =~= row);
    }
    assert forall|k: int| 0 <= k < raw.len() implies field_values(
        (#[trigger] raw[k]).1,
        kinds,
        width,
    ).0 is Ok by {
        assert(stored.contains(raw[k].1));
        let i = choose|i: int| 0 <= i < stored.len() && stored[i] == raw[k].1;
        assert(field_values(stored[i], kinds, width).0 is Ok);
    }
    lemma_rows_values(raw, kinds, raw.len() as int);
    let vals = file_values(content(f), kinds, table)->Ok_0;
    if fits_one_page(page_size, stored) {
        assert(raw == on_first_page(stored));
        assert forall|k: int| 0 <= k < vals.len() implies vals[k] == rows[k] by {
            assert(raw[k].1 == stored[k]);
            assert(field_values(stored[k], kinds, width).0 == Ok::<Seq<ValueModel>, ErrorModel>(
                rows[k],
            ));
        }
        assert(vals =~= rows);
    }
    assert forall|x: Seq<ValueModel>| #[trigger] vals.contains(x) <==> rows.contains(x) by {
        if vals.contains(x) {
            let k = choose|k: int| 0 <= k < vals.len() && vals[k] == x;
            assert(stored.contains(raw[k].1));
            let i = choose|i: int| 0 <= i < stored.len() && stored[i] == raw[k].1;
            assert(field_values(stored[i], kinds, width).0 == Ok::<
                Seq<ValueModel>,
                ErrorModel,
            >(rows[i]));
            assert(rows[i] == x);
        }
        if rows.contains(x) {
            let i = choose|i: int| 0 <= i < rows.len() && rows[i] == x;
            assert(raw.contains((rids[i], stored[i])));
            let k = choose|k: int| 0 <= k < raw.len() && raw[k] == (rids[i], stored[i]);
            assert(vals[k] == x);
        }
    }
}

// ── Text mode ──

/// Whether a text can be a column of a line: it has no tabs and no ends of lines.
pub open spec fn clean(s: Seq<char>) -> bool {
    forall|k: int| 0 <= k < s.len() ==> (#[trigger] s[k]) != '\t' && s[k] != '\n' && s[k] != '\r'
}

/// Whether each value of a row can be a column of a line, and the first is not empty.
pub open spec fn clean_row(row: Seq<ValueModel>) -> bool {
    &&& row.len() > 0
    &&& row[0].text().len() > 0
    &&& forall|i: int| 0 <= i < row.len() ==> clean((#[trigger] row[i]).text())
}

/// The notation of a number can be a column of a line.
proof fn lemma_number_clean(i: int)
    ensures
        clean(int_text(i)),
        int_text(i).len() > 0,
{
    let n = if i < 0 {
        (-i) as nat
    } else {
        i as nat
    };
    lemma_digits10(n);
    let s = int_text(i);
    assert forall|k: int| 0 <= k < s.len() implies (#[trigger] s[k]) != '\t' && s[k] != '\n' && s[k]
        != '\r' by {
        if i < 0 && k > 0 {
            assert(s[k] == digits10(n)[k - 1]);
            assert(is_digit(digits10(n)[k - 1]));
        } else if i >= 0 {
            assert(is_digit(digits10(n)[k]));
        }
    }
}

proof fn lemma_tabbed_parts(row: Seq<ValueModel>, n: int)
    requires
        0 < n <= row.len(),
        forall|i: int| 0 <= i < row.len() ==> clean((#[trigger] row[i]).text()),
    ensures
        split_parts(tabbed(row, n), '\t') == Seq::new(n as nat, |i: int| row[i].text()),
        forall|k: int|
            0 <= k < tabbed(row, n).len() ==> (#[trigger] tabbed(row, n)[k]) != '\n' && tabbed(
                row,
                n,
            )[k] != '\r',
        tabbed(row, n).len() >= row[0].text().len(),
    decreases n,
{
    let want = Seq::new(n as nat, |i: int| row[i].text());
    let none = Seq::<char>::empty();
    if n == 1 {
        let s = row[0].text();
        assert(clean(s));
        lemma_split_tail(none, s, '\t');
        assert(none + s =~= s);
        assert(split_parts(none, '\t') =~= seq![none]);
        assert(split_parts(s, '\t') =~= want);
    } else {
        lemma_tabbed_parts(row, n - 1);
        let front = tabbed(row, n - 1);
        let s = row[n - 1].text();
        assert(clean(s));
        let open = front.push('\t');
        assert(open.drop_last() =~= front);
        let before = Seq::new((n - 1) as nat, |i: int| row[i].text());
        assert(split_parts(open, '\t') == before.push(none));
        lemma_split_tail(open, s, '\t');
        assert(none + s =~= s);
        assert(split_parts(open + s, '\t') =~= want);
        let all = tabbed(row, n);
        assert forall|k: int| 0 <= k < all.len() implies (#[trigger] all[k]) != '\n' && all[k]
            != '\r' by {
            if k < front.len() {
                assert(all[k] == front[k]);
            } else if k > front.len() {
                assert(all[k] == s[k - front.len() - 1]);
            }
        }
    }
}

proof fn lemma_text_values(
    row: Seq<ValueModel>,
    kinds: Seq<FieldKind>,
    table: Seq<char>,
    n: int,
)
    requires
        has_kinds(row, kinds),
        0 <= n <= row.len(),
    ensures
        text_values(Seq::new(row.len(), |i: int| row[i].text()), kinds, table, n) == Ok::<
            Seq<ValueModel>,
            ErrorModel,
        >(row.subrange(0, n)),
    decreases n,
{
    let parts = Seq::new(row.len(), |i: int| row[i].text());
    if n == 0 {
        assert(row.subrange(0, 0) =~= Seq::empty());
    } else {
        lemma_text_values(row, kinds, table, n - 1);
        let v = row[n - 1];
        assert(is_kind(v, kinds[n - 1]));
        reveal_strlit("Y");
        reveal_strlit("N");
        match v {
            ValueModel::SmallInt(k) => {
                lemma_parse_int_text(k as int, i16::MIN as int, i16::MAX as int);
            },
            ValueModel::Integer(k) => {
                lemma_parse_int_text(k as int, i32::MIN as int, i32::MAX as int);
            },
            ValueModel::Bool(b) => {
                assert("Y"@[0] != "N"@[0]);
            },
            _ => {},
        }
        assert(text_value(parts[n - 1], kinds[n - 1]) == Ok::<ValueModel, ErrorModel>(v));
        assert(row.subrange(0, n) =~= row.subrange(0, n - 1).push(v));
    }
}

proof fn lemma_lines_values(
    rows: Seq<Seq<ValueModel>>,
    kinds: Seq<FieldKind>,
    table: Seq<char>,
    n: int,
)
    requires
        0 <= n <= rows.len(),
        forall|i: int| 0 <= i < rows.len() ==> has_kinds(#[trigger] rows[i], kinds),
        forall|i: int| 0 <= i < rows.len() ==> clean_row(#[trigger] rows[i]),
    ensures
        lines_values(
            Seq::new(rows.len(), |i: int| tabbed(rows[i], rows[i].len() as int)),
            kinds,
            table,
            n,
        ) == Ok::<Seq<Seq<ValueModel>>, ErrorModel>(rows.subrange(0, n)),
    decreases n,
{
    let ls = Seq::new(rows.len(), |i: int| tabbed(rows[i], rows[i].len() as int));
    if n == 0 {
        assert(rows.subrange(0, 0) =~= Seq::empty());
    } else {
        lemma_lines_values(rows, kinds, table, n - 1);
        let row = rows[n - 1];
        assert(has_kinds(row, kinds));
        assert(clean_row(row));
        lemma_tabbed_parts(row, row.len() as int);
        lemma_text_values(row, kinds, table, row.len() as int);
        assert(row.subrange(0, row.len() as int) =~= row);
        assert(rows.subrange(0, n) =~= rows.subrange(0, n - 1).push(row));
        assert(ls[n - 1] == tabbed(row, row.len() as int));
    }
}

proof fn lemma_data_lines(ls: Seq<Seq<char>>, n: int)
    requires
        1 <= n <= ls.len(),
        forall|i: int| 1 <= i < ls.len() ==> (#[trigger] ls[i]).len() > 0,
    ensures
        data_lines(ls, n) == ls.subrange(1, n),
    decreases n,
{
    if n == 1 {
        assert(ls.subrange(1, 1) =~= Seq::empty());
    } else {
        lemma_data_lines(ls, n - 1);
        assert(ls.subrange(1, n) =~= ls.subrange(1, n - 1).push(ls[n - 1]));
    }
}

proof fn lemma_tabbed_lines(header: Seq<char>, rows: Seq<Seq<ValueModel>>, n: int)
    requires
        0 <= n <= rows.len(),
    ensures
        header.push('\n') + tabbed_lines(rows, n) == ended_lines(
            text_lines(header, rows),
            n + 1,
        ),
    decreases n,
{
    let ls = text_lines(header, rows);
    if n == 0 {
        reveal_with_fuel(ended_lines, 2);
        assert(header.push('\n') + tabbed_lines(rows, 0) =~= ended_lines(ls, 1));
    } else {
        lemma_tabbed_lines(header, rows, n - 1);
        let line = tabbed(rows[n - 1], rows[n - 1].len() as int);
        assert(ls[n] == line);
        assert(header.push('\n') + tabbed_lines(rows, n) =~= (header.push('\n') + tabbed_lines(
            rows,
            n - 1,
        )) + line.push('\n'));
    }
}

/// The lines of the file of a table in text mode.
pub open spec fn text_lines(header: Seq<char>, rows: Seq<Seq<ValueModel>>) -> Seq<Seq<char>> {
    seq![header] + Seq::new(rows.len(), |i: int| tabbed(rows[i], rows[i].len() as int))
}

/// The rows of a table of a new catalog are read back from the text that shows them, in their
/// order.
pub proof fn law_written_text_is_read(
    f: DatFile,
    header: Seq<char>,
    rows: Seq<Seq<ValueModel>>,
    page_size: nat,
    kinds: Seq<FieldKind>,
    table: Seq<char>,
)
    requires
        is_dat_file(f, header, rows, true, page_size),
        unbroken(header),
        forall|i: int| 0 <= i < rows.len() ==> has_kinds(#[trigger] rows[i], kinds),
        forall|i: int| 0 <= i < rows.len() ==> clean_row(#[trigger] rows[i]),
    ensures
        file_values(content(f), kinds, table) == Ok::<Seq<Seq<ValueModel>>, ErrorModel>(rows),
{
    let n = rows.len() as int;
    let ls = text_lines(header, rows);
    lemma_tabbed_lines(header, rows, n);
    assert forall|i: int| 0 <= i < n implies (#[trigger] ls[i + 1]).len() > 0 && ls[i + 1]
        == tabbed(rows[i], rows[i].len() as int) by {
        assert(clean_row(rows[i]));
        lemma_tabbed_parts(rows[i], rows[i].len() as int);
    }
    assert forall|j: int, i: int| 0 <= j < ls.len() && 0 <= i < ls[j].len() implies
        #[trigger] ls[j][i] != '\n' && ls[j][i] != '\r' by {
        if j > 0 {
            let row = rows[j - 1];
            assert(clean_row(row));
            lemma_tabbed_parts(row, row.len() as int);
            assert(ls[j - 1 + 1] == tabbed(row, row.len() as int));
        }
    }
    assert forall|j: int| 0 <= j < ls.len() && (#[trigger] ls[j]).len() > 0 implies ls[j].last()
        != '\r' by {
        assert(ls[j][ls[j].len() - 1] != '\r');
    }
    law_lines_round_trip(ls);
    assert forall|i: int| 1 <= i < ls.len() implies (#[trigger] ls[i]).len() > 0 by {
        assert(ls[(i - 1) + 1].len() > 0);
    }
    lemma_data_lines(ls, n + 1);
    let lines = Seq::new(rows.len(), |i: int| tabbed(rows[i], rows[i].len() as int));
    assert(ls.subrange(1, n + 1) =~= lines);
    lemma_lines_values(rows, kinds, table, n);
    assert(rows.subrange(0, n) =~= rows);
}

// ── The catalog of a new database ──

/// Whether the first `n` characters of a text are ASCII and can stand in a column of a line.
spec fn clean_to(s: Seq<char>, n: int) -> bool
    decreases n,
{
    n <= 0 || (s[n - 1] != '\t' && s[n - 1] != '\n' && s[n - 1] != '\r' && '\0' <= s[n - 1]
        <= '\u{7f}' && clean_to(s, n - 1))
}

/// Whether the first `n` characters of a text end no line.
spec fn unbroken_to(s: Seq<char>, n: int) -> bool
    decreases n,
{
    n <= 0 || (s[n - 1] != '\n' && s[n - 1] != '\r' && unbroken_to(s, n - 1))
}

proof fn lemma_clean_to(s: Seq<char>, n: int)
    requires
        n == s.len(),
        clean_to(s, n),
    ensures
        clean(s),
        is_ascii_chars(s),
{
    assert forall|k: int| 0 <= k < s.len() implies (#[trigger] s[k]) != '\t' && s[k] != '\n' && s[k]
        != '\r' && '\0' <= s[k] <= '\u{7f}' by {
        lemma_clean_at(s, n, k);
    }
}

proof fn lemma_clean_at(s: Seq<char>, n: int, k: int)
    requires
        0 <= k < n,
        clean_to(s, n),
    ensures
        s[k] != '\t' && s[k] != '\n' && s[k] != '\r' && '\0' <= s[k] <= '\u{7f}',
    decreases n,
{
    if k < n - 1 {
        lemma_clean_at(s, n - 1, k);
    }
}

proof fn lemma_unbroken_at(s: Seq<char>, n: int, k: int)
    requires
        0 <= k < n,
        unbroken_to(s, n),
    ensures
        s[k] != '\n' && s[k] != '\r',
    decreases n,
{
    if k < n - 1 {
        lemma_unbroken_at(s, n - 1, k);
    }
}

/// Whether a text can be a column of a line, is not empty, and is a short one in ASCII.
spec fn good(s: Seq<char>) -> bool {
    clean(s) && is_ascii_chars(s) && 0 < s.len() <= 14
}

/// Whether no line ends in a text.
pub open spec fn unbroken(s: Seq<char>) -> bool {
    forall|k: int| 0 <= k < s.len() ==> (#[trigger] s[k]) != '\n' && s[k] != '\r'
}

/// The names of tablespaces, schemas and buffer pools.
proof fn lemma_names()
    ensures
        good("SYSTBSP"@),
        good("USERTBSP"@),
        good("TEMPTBSP"@),
        good("S"@),
        good("D"@),
        good("A"@),
        good("T"@),
        good("N"@),
        good("RQSYS"@),
        good("PUBLIC"@),
        good("RQDEFAULTBP"@),
        good("INDEXBP"@),
        good("LOBBP"@),
        good("TEMPBP"@),
{
    assert(good("SYSTBSP"@)) by {
        reveal_strlit("SYSTBSP");
        reveal_with_fuel(clean_to, 8);
        lemma_clean_to("SYSTBSP"@, 7);
    }
    assert(good("USERTBSP"@)) by {
        reveal_strlit("USERTBSP");
        reveal_with_fuel(clean_to, 9);
        lemma_clean_to("USERTBSP"@, 8);
    }
    assert(good("TEMPTBSP"@)) by {
        reveal_strlit("TEMPTBSP");
        reveal_with_fuel(clean_to, 9);
        lemma_clean_to("TEMPTBSP"@, 8);
    }
    assert(good("S"@)) by {
        reveal_strlit("S");
        reveal_with_fuel(clean_to, 2);
        lemma_clean_to("S"@, 1);
    }
    assert(good("D"@)) by {
        reveal_strlit("D");
        reveal_with_fuel(clean_to, 2);
        lemma_clean_to("D"@, 1);
    }
    assert(good("A"@)) by {
        reveal_strlit("A");
        reveal_with_fuel(clean_to, 2);
        lemma_clean_to("A"@, 1);
    }
    assert(good("T"@)) by {
        reveal_strlit("T");
        reveal_with_fuel(clean_to, 2);
        lemma_clean_to("T"@, 1);
    }
    assert(good("N"@)) by {
        reveal_strlit("N");
        reveal_with_fuel(clean_to, 2);
        lemma_clean_to("N"@, 1);
    }
    assert(good("RQSYS"@)) by {
        reveal_strlit("RQSYS");
        reveal_with_fuel(clean_to, 6);
        lemma_clean_to("RQSYS"@, 5);
    }
    assert(good("PUBLIC"@)) by {
        reveal_strlit("PUBLIC");
        reveal_with_fuel(clean_to, 7);
        lemma_clean_to("PUBLIC"@, 6);
    }
    assert(good("RQDEFAULTBP"@)) by {
        reveal_strlit("RQDEFAULTBP");
        reveal_with_fuel(clean_to, 12);
        lemma_clean_to("RQDEFAULTBP"@, 11);
    }
    assert(good("INDEXBP"@)) by {
        reveal_strlit("INDEXBP");
        reveal_with_fuel(clean_to, 8);
        lemma_clean_to("INDEXBP"@, 7);
    }
    assert(good("LOBBP"@)) by {
        reveal_strlit("LOBBP");
        reveal_with_fuel(clean_to, 6);
        lemma_clean_to("LOBBP"@, 5);
    }
    assert(good("TEMPBP"@)) by {
        reveal_strlit("TEMPBP");
        reveal_with_fuel(clean_to, 7);
        lemma_clean_to("TEMPBP"@, 6);
    }
}

/// The names of the tables.
proof fn lemma_tables()
    ensures
        good("SYSTABLESPACES"@),
        good("SYSSCHEMAS"@),
        good("SYSTABLES"@),
        good("SYSCOLUMNS"@),
        good("SYSBUFFERPOOLS"@),
{
    assert(good("SYSTABLESPACES"@)) by {
        reveal_strlit("SYSTABLESPACES");
        reveal_with_fuel(clean_to, 15);
        lemma_clean_to("SYSTABLESPACES"@, 14);
    }
    assert(good("SYSSCHEMAS"@)) by {
        reveal_strlit("SYSSCHEMAS");
        reveal_with_fuel(clean_to, 11);
        lemma_clean_to("SYSSCHEMAS"@, 10);
    }
    assert(good("SYSTABLES"@)) by {
        reveal_strlit("SYSTABLES");
        reveal_with_fuel(clean_to, 10);
        lemma_clean_to("SYSTABLES"@, 9);
    }
    assert(good("SYSCOLUMNS"@)) by {
        reveal_strlit("SYSCOLUMNS");
        reveal_with_fuel(clean_to, 11);
        lemma_clean_to("SYSCOLUMNS"@, 10);
    }
    assert(good("SYSBUFFERPOOLS"@)) by {
        reveal_strlit("SYSBUFFERPOOLS");
        reveal_with_fuel(clean_to, 15);
        lemma_clean_to("SYSBUFFERPOOLS"@, 14);
    }
}

/// The names of the columns.
proof fn lemma_columns()
    ensures
        good("TBSPACEID"@),
        good("TBSPACE"@),
        good("TBSPACETYPE"@),
        good("DATATYPE"@),
        good("PAGESIZE"@),
        good("STATE"@),
        good("BUFFERPOOLID"@),
        good("NAME"@),
        good("TABLEID"@),
        good("SCHEMANAME"@),
        good("COLCOUNT"@),
        good("TABNAME"@),
        good("ORDINAL"@),
        good("TYPENAME"@),
        good("NULLABLE"@),
        good("BPID"@),
        good("BPNAME"@),
        good("NPAGES"@),
{
    assert(good("TBSPACEID"@)) by {
        reveal_strlit("TBSPACEID");
        reveal_with_fuel(clean_to, 10);
        lemma_clean_to("TBSPACEID"@, 9);
    }
    assert(good("TBSPACE"@)) by {
        reveal_strlit("TBSPACE");
        reveal_with_fuel(clean_to, 8);
        lemma_clean_to("TBSPACE"@, 7);
    }
    assert(good("TBSPACETYPE"@)) by {
        reveal_strlit("TBSPACETYPE");
        reveal_with_fuel(clean_to, 12);
        lemma_clean_to("TBSPACETYPE"@, 11);
    }
    assert(good("DATATYPE"@)) by {
        reveal_strlit("DATATYPE");
        reveal_with_fuel(clean_to, 9);
        lemma_clean_to("DATATYPE"@, 8);
    }
    assert(good("PAGESIZE"@)) by {
        reveal_strlit("PAGESIZE");
        reveal_with_fuel(clean_to, 9);
        lemma_clean_to("PAGESIZE"@, 8);
    }
    assert(good("STATE"@)) by {
        reveal_strlit("STATE");
        reveal_with_fuel(clean_to, 6);
        lemma_clean_to("STATE"@, 5);
    }
    assert(good("BUFFERPOOLID"@)) by {
        reveal_strlit("BUFFERPOOLID");
        reveal_with_fuel(clean_to, 13);
        lemma_clean_to("BUFFERPOOLID"@, 12);
    }
    assert(good("NAME"@)) by {
        reveal_strlit("NAME");
        reveal_with_fuel(clean_to, 5);
        lemma_clean_to("NAME"@, 4);
    }
    assert(good("TABLEID"@)) by {
        reveal_strlit("TABLEID");
        reveal_with_fuel(clean_to, 8);
        lemma_clean_to("TABLEID"@, 7);
    }
    assert(good("SCHEMANAME"@)) by {
        reveal_strlit("SCHEMANAME");
        reveal_with_fuel(clean_to, 11);
        lemma_clean_to("SCHEMANAME"@, 10);
    }
    assert(good("COLCOUNT"@)) by {
        reveal_strlit("COLCOUNT");
        reveal_with_fuel(clean_to, 9);
        lemma_clean_to("COLCOUNT"@, 8);
    }
    assert(good("TABNAME"@)) by {
        reveal_strlit("TABNAME");
        reveal_with_fuel(clean_to, 8);
        lemma_clean_to("TABNAME"@, 7);
    }
    assert(good("ORDINAL"@)) by {
        reveal_strlit("ORDINAL");
        reveal_with_fuel(clean_to, 8);
        lemma_clean_to("ORDINAL"@, 7);
    }
    assert(good("TYPENAME"@)) by {
        reveal_strlit("TYPENAME");
        reveal_with_fuel(clean_to, 9);
        lemma_clean_to("TYPENAME"@, 8);
    }
    assert(good("NULLABLE"@)) by {
        reveal_strlit("NULLABLE");
        reveal_with_fuel(clean_to, 9);
        lemma_clean_to("NULLABLE"@, 8);
    }
    assert(good("BPID"@)) by {
        reveal_strlit("BPID");
        reveal_with_fuel(clean_to, 5);
        lemma_clean_to("BPID"@, 4);
    }
    assert(good("BPNAME"@)) by {
        reveal_strlit("BPNAME");
        reveal_with_fuel(clean_to, 7);
        lemma_clean_to("BPNAME"@, 6);
    }
    assert(good("NPAGES"@)) by {
        reveal_strlit("NPAGES");
        reveal_with_fuel(clean_to, 7);
        lemma_clean_to("NPAGES"@, 6);
    }
}

/// The names of the types.
proof fn lemma_types()
    ensures
        good("INTEGER"@),
        good("VARCHAR(128)"@),
        good("CHAR(1)"@),
        good("SMALLINT"@),
        good("VARCHAR(20)"@),
{
    assert(good("INTEGER"@)) by {
        reveal_strlit("INTEGER");
        reveal_with_fuel(clean_to, 8);
        lemma_clean_to("INTEGER"@, 7);
    }
    assert(good("VARCHAR(128)"@)) by {
        reveal_strlit("VARCHAR(128)");
        reveal_with_fuel(clean_to, 13);
        lemma_clean_to("VARCHAR(128)"@, 12);
    }
    assert(good("CHAR(1)"@)) by {
        reveal_strlit("CHAR(1)");
        reveal_with_fuel(clean_to, 8);
        lemma_clean_to("CHAR(1)"@, 7);
    }
    assert(good("SMALLINT"@)) by {
        reveal_strlit("SMALLINT");
        reveal_with_fuel(clean_to, 9);
        lemma_clean_to("SMALLINT"@, 8);
    }
    assert(good("VARCHAR(20)"@)) by {
        reveal_strlit("VARCHAR(20)");
        reveal_with_fuel(clean_to, 12);
        lemma_clean_to("VARCHAR(20)"@, 11);
    }
}

/// The first lines of the files.
proof fn lemma_headers()
    ensures
        unbroken("TBSPACEID\tTBSPACE\tTBSPACETYPE\tDATATYPE\tPAGESIZE\tSTATE\tBUFFERPOOLID"@),
        unbroken("NAME"@),
        unbroken("TABLEID\tNAME\tSCHEMANAME\tTBSPACEID\tCOLCOUNT"@),
        unbroken("NAME\tTABNAME\tSCHEMANAME\tORDINAL\tTYPENAME\tNULLABLE"@),
        unbroken("BPID\tBPNAME\tPAGESIZE\tNPAGES"@),
{
    assert(unbroken(systablespaces_header())) by {
        reveal_strlit("TBSPACEID\tTBSPACE\tTBSPACETYPE\tDATATYPE\tPAGESIZE\tSTATE\tBUFFERPOOLID");
        reveal_with_fuel(unbroken_to, 67);
        let s = "TBSPACEID\tTBSPACE\tTBSPACETYPE\tDATATYPE\tPAGESIZE\tSTATE\tBUFFERPOOLID"@;
        assert(unbroken_to(s, 66));
        assert forall|k: int| 0 <= k < s.len() implies (#[trigger] s[k]) != '\n' && s[k]
            != '\r' by {
            lemma_unbroken_at(s, 66, k);
        }
    }
    assert(unbroken("NAME"@)) by {
        reveal_strlit("NAME");
        reveal_with_fuel(unbroken_to, 5);
        let s = "NAME"@;
        assert(unbroken_to(s, 4));
        assert forall|k: int| 0 <= k < s.len() implies (#[trigger] s[k]) != '\n' && s[k]
            != '\r' by {
            lemma_unbroken_at(s, 4, k);
        }
    }
    assert(unbroken("TABLEID\tNAME\tSCHEMANAME\tTBSPACEID\tCOLCOUNT"@)) by {
        reveal_strlit("TABLEID\tNAME\tSCHEMANAME\tTBSPACEID\tCOLCOUNT");
        reveal_with_fuel(unbroken_to, 43);
        let s = "TABLEID\tNAME\tSCHEMANAME\tTBSPACEID\tCOLCOUNT"@;
        assert(unbroken_to(s, 42));
        assert forall|k: int| 0 <= k < s.len() implies (#[trigger] s[k]) != '\n' && s[k]
            != '\r' by {
            lemma_unbroken_at(s, 42, k);
        }
    }
    assert(unbroken("NAME\tTABNAME\tSCHEMANAME\tORDINAL\tTYPENAME\tNULLABLE"@)) by {
        reveal_strlit("NAME\tTABNAME\tSCHEMANAME\tORDINAL\tTYPENAME\tNULLABLE");
        reveal_with_fuel(unbroken_to, 50);
        let s = "NAME\tTABNAME\tSCHEMANAME\tORDINAL\tTYPENAME\tNULLABLE"@;
        assert(unbroken_to(s, 49));
        assert forall|k: int| 0 <= k < s.len() implies (#[trigger] s[k]) != '\n' && s[k]
            != '\r' by {
            lemma_unbroken_at(s, 49, k);
        }
    }
    assert(unbroken("BPID\tBPNAME\tPAGESIZE\tNPAGES"@)) by {
        reveal_strlit("BPID\tBPNAME\tPAGESIZE\tNPAGES");
        reveal_with_fuel(unbroken_to, 28);
        let s = "BPID\tBPNAME\tPAGESIZE\tNPAGES"@;
        assert(unbroken_to(s, 27));
        assert forall|k: int| 0 <= k < s.len() implies (#[trigger] s[k]) != '\n' && s[k]
            != '\r' by {
            lemma_unbroken_at(s, 27, k);
        }
    }
}

/// Whether the texts of a row are short ones in ASCII.
spec fn short_row(row: Seq<ValueModel>) -> bool {
    forall|i: int|
        0 <= i < row.len() && (#[trigger] row[i]) is Str ==> is_ascii_chars(row[i]->Str_0)
            && row[i]->Str_0.len() <= 14
}

/// Whether a row has values of some kinds, each of which can be a column of a line, and its texts
/// are short.
spec fn row_good(row: Seq<ValueModel>, kinds: Seq<FieldKind>) -> bool {
    has_kinds(row, kinds) && clean_row(row) && short_row(row)
}

/// A row of short texts takes few bytes.
proof fn lemma_short_row(row: Seq<ValueModel>, n: int)
    requires
        short_row(row),
        0 <= n <= row.len(),
    ensures
        values_bytes(row, n).len() <= 22 * n,
    decreases n,
{
    if n > 0 {
        lemma_short_row(row, n - 1);
        let v = row[n - 1];
        if v is Str {
            is_ascii_chars_encode_utf8(v->Str_0);
            lemma_le_bytes_len(encode_utf8(v->Str_0).len(), 8);
        }
        lemma_pow256();
        if v is SmallInt {
            law_signed_round_trip(v->SmallInt_0 as int, 2);
            lemma_le_bytes_len(2, 8);
        }
        if v is Integer {
            law_signed_round_trip(v->Integer_0 as int, 4);
            lemma_le_bytes_len(4, 8);
        }
        if v is Bool {
            lemma_le_bytes_len(1, 8);
        }
        assert(value_bytes(v).len() <= 22);
    }
}

/// Whether so many rows of so many short values fit a page of the default size.
spec fn few(width: nat, rows: nat) -> bool {
    22 * width * rows + 4 * rows <= 3500
}

/// Some rows of short texts take few bytes.
proof fn lemma_short_rows(rows: Seq<Seq<ValueModel>>, kinds: Seq<FieldKind>, width: int, n: int)
    requires
        rows_good(rows, kinds),
        kinds.len() == width,
        0 <= n <= rows.len(),
    ensures
        rows_len(stored_rows(rows), n) <= 22 * width * n,
    decreases n,
{
    if n > 0 {
        lemma_short_rows(rows, kinds, width, n - 1);
        let row = rows[n - 1];
        assert(row_good(row, kinds));
        lemma_short_row(row, row.len() as int);
        assert(22 * width * n == 22 * width * (n - 1) + 22 * width) by (nonlinear_arith);
    } else {
        assert(22 * width * 0 == 0) by (nonlinear_arith);
    }
}

/// Whether all of some rows have values of some kinds, each of which can be a column of a line.
spec fn rows_good(rows: Seq<Seq<ValueModel>>, kinds: Seq<FieldKind>) -> bool {
    forall|i: int| 0 <= i < rows.len() ==> row_good(#[trigger] rows[i], kinds)
}

proof fn lemma_flag_clean()
    ensures
        clean(ValueModel::Bool(false).text()),
{
    lemma_names();
}

proof fn lemma_tablespace_good(
    id: i32,
    name: Seq<char>,
    kind: Seq<char>,
    data: Seq<char>,
    page_size: i32,
    pool: i32,
)
    requires
        good(name),
        good(kind),
        good(data),
    ensures
        row_good(tablespace_entry(id, name, kind, data, page_size, pool), tablespace_kinds()),
{
    lemma_names();
    lemma_number_clean(id as int);
    lemma_number_clean(page_size as int);
    lemma_number_clean(pool as int);
}

proof fn lemma_table_good(id: i32, name: Seq<char>, columns: i16)
    requires
        good(name),
    ensures
        row_good(table_entry(id, name, columns), table_kinds()),
{
    lemma_names();
    lemma_number_clean(id as int);
    lemma_number_clean(1);
    lemma_number_clean(columns as int);
}

proof fn lemma_column_good(
    name: Seq<char>,
    table: Seq<char>,
    ordinal: i16,
    sql_type: Seq<char>,
)
    requires
        good(name),
        good(table),
        good(sql_type),
    ensures
        row_good(column_entry(name, table, ordinal, sql_type), column_kinds()),
{
    lemma_names();
    lemma_flag_clean();
    lemma_number_clean(ordinal as int);
}

proof fn lemma_pool_good(id: i32, name: Seq<char>, page_size: int, pages: i32)
    requires
        good(name),
    ensures
        row_good(bufferpool_entry(id, name, page_size, pages), bufferpool_kinds()),
{
    lemma_number_clean(id as int);
    lemma_number_clean((page_size as i32) as int);
    lemma_number_clean(pages as int);
}

proof fn lemma_tablespaces_good(ps: i32)
    ensures
        rows_good(systablespaces_rows(ps), tablespace_kinds()),
{
    lemma_names();
    lemma_tablespace_good(1, "SYSTBSP"@, "S"@, "A"@, ps, 1);
    lemma_tablespace_good(2, "USERTBSP"@, "D"@, "A"@, ps, 1);
    lemma_tablespace_good(3, "TEMPTBSP"@, "D"@, "T"@, ps, 4);
}

proof fn lemma_schemas_good()
    ensures
        rows_good(sysschemas_rows(), schema_kinds()),
{
    lemma_names();
}

proof fn lemma_tables_good()
    ensures
        rows_good(systables_rows(), table_kinds()),
{
    lemma_tables();
    lemma_table_good(1, "SYSTABLESPACES"@, 7);
    lemma_table_good(2, "SYSSCHEMAS"@, 1);
    lemma_table_good(3, "SYSTABLES"@, 5);
    lemma_table_good(4, "SYSCOLUMNS"@, 6);
    lemma_table_good(5, "SYSBUFFERPOOLS"@, 4);
}

proof fn lemma_pools_good(ps: i32)
    ensures
        rows_good(sysbufferpools_rows(ps), bufferpool_kinds()),
{
    lemma_names();
    lemma_pool_good(1, "RQDEFAULTBP"@, ps as int, 128);
    lemma_pool_good(2, "INDEXBP"@, ps as int, 64);
    lemma_pool_good(3, "LOBBP"@, ps * 8, 32);
    lemma_pool_good(4, "TEMPBP"@, ps as int, 64);
}

proof fn lemma_columns_good()
    ensures
        rows_good(syscolumns_rows(), column_kinds()),
{
    lemma_columns();
    lemma_tables();
    lemma_types();
    let rows = syscolumns_rows();
    assert forall|name: Seq<char>, table: Seq<char>, ordinal: i16, sql_type: Seq<char>|
        #![trigger column_entry(name, table, ordinal, sql_type)]
        good(name) && good(table) && good(sql_type) implies row_good(
        column_entry(name, table, ordinal, sql_type),
        column_kinds(),
    ) by {
        lemma_column_good(name, table, ordinal, sql_type);
    }
    assert(rows_good(rows, column_kinds()));
}

/// The rows of a table of a new catalog are read back from its file, in either mode.
proof fn lemma_file_is_read(
    f: DatFile,
    header: Seq<char>,
    rows: Seq<Seq<ValueModel>>,
    text_mode: bool,
    page_size: nat,
    kinds: Seq<FieldKind>,
    table: Seq<char>,
)
    requires
        is_dat_file(f, header, rows, text_mode, page_size),
        page_size >= 24,
        unbroken(header),
        rows_good(rows, kinds),
    ensures
        file_values(content(f), kinds, table) is Ok,
        same_items(file_values(content(f), kinds, table)->Ok_0, rows),
        text_mode || 4096 <= page_size < 0x10000 && few(kinds.len(), rows.len()) ==> file_values(
            content(f),
            kinds,
            table,
        )->Ok_0 == rows,
{
    lemma_short_rows(rows, kinds, kinds.len() as int, rows.len() as int);
    assert forall|i: int| 0 <= i < rows.len() implies has_kinds(#[trigger] rows[i], kinds)
        && clean_row(rows[i]) by {
        assert(row_good(rows[i], kinds));
    }
    if text_mode {
        law_written_text_is_read(f, header, rows, page_size, kinds, table);
    } else {
        law_written_rows_are_read(f, header, rows, page_size, kinds, table);
    }
}

proof fn lemma_same_mapped<A, B>(a: Seq<A>, b: Seq<A>, f: spec_fn(A) -> B)
    requires
        same_items(a, b),
    ensures
        same_items(a.map_values(f), b.map_values(f)),
{
    let fa = a.map_values(f);
    let fb = b.map_values(f);
    assert forall|x: B| #[trigger] fa.contains(x) <==> fb.contains(x) by {
        if fa.contains(x) {
            let i = choose|i: int| 0 <= i < fa.len() && fa[i] == x;
            assert(a.contains(a[i]));
            let j = choose|j: int| 0 <= j < b.len() && b[j] == a[i];
            assert(fb[j] == x);
        }
        if fb.contains(x) {
            let i = choose|i: int| 0 <= i < fb.len() && fb[i] == x;
            assert(b.contains(b[i]));
            assert(a.contains(b[i]));
            let j = choose|j: int| 0 <= j < a.len() && a[j] == b[i];
            assert(fa[j] == x);
        }
    }
}

/// The tablespaces of a new database.
pub open spec fn new_tablespaces(page_size: i32) -> Seq<TablespaceDef> {
    systablespaces_rows(page_size).map_values(|row: Seq<ValueModel>| tablespace_def(row))
}

/// The schemas of a new database.
pub open spec fn new_schemas() -> Seq<Seq<char>> {
    sysschemas_rows().map_values(|row: Seq<ValueModel>| row[0]->Str_0)
}

/// The tables of a new database.
pub open spec fn new_tables() -> Seq<TableDef> {
    systables_rows().map_values(|row: Seq<ValueModel>| table_def(row))
}

/// The columns of a new database.
pub open spec fn new_columns() -> Seq<ColumnDef> {
    syscolumns_rows().map_values(|row: Seq<ValueModel>| column_def(row))
}

/// The buffer pools of a new database.
pub open spec fn new_bufferpools(page_size: i32) -> Seq<BufferPoolDef> {
    sysbufferpools_rows(page_size).map_values(|row: Seq<ValueModel>| bufferpool_def(row))
}

/// Whether a catalog is that of a new database, in whatever order.
pub open spec fn is_new_catalog(cat: CatalogDef, page_size: i32) -> bool {
    &&& same_items(cat.tablespaces, new_tablespaces(page_size))
    &&& same_items(cat.schemas, new_schemas())
    &&& same_items(cat.tables, new_tables())
    &&& same_items(cat.columns, new_columns())
    &&& same_items(cat.bufferpools, new_bufferpools(page_size))
}

/// The catalog in the files of a new database.
pub open spec fn written_catalog(db: NewDatabase) -> Result<CatalogDef, ErrorModel> {
    catalog_in(
        content(db.systablespaces),
        content(db.sysschemas),
        content(db.systables),
        content(db.syscolumns),
        content(db.sysbufferpools),
    )
}

/// The catalog of a new database, in the order in which it is written.
pub open spec fn new_catalog(page_size: i32) -> CatalogDef {
    CatalogDef {
        tablespaces: new_tablespaces(page_size),
        schemas: new_schemas(),
        tables: new_tables(),
        columns: new_columns(),
        bufferpools: new_bufferpools(page_size),
    }
}

/// The catalog that is read from the files of a new database is the one that was written: its
/// tablespaces, schemas, tables, columns and buffer pools.
pub proof fn law_new_catalog_is_read(config: ConfigModel, db: NewDatabase)
    requires
        is_new_database(config, db),
        24 <= config.page_size,
        config.page_size * 8 <= i32::MAX,
    ensures
        written_catalog(db) is Ok,
        is_new_catalog(written_catalog(db)->Ok_0, config.page_size as i32),
{
    let ps = config.page_size as nat;
    let text = config.text_mode;
    lemma_headers();
    lemma_tablespaces_good(ps as i32);
    lemma_schemas_good();
    lemma_tables_good();
    lemma_columns_good();
    lemma_pools_good(ps as i32);
    lemma_file_is_read(
        db.systablespaces,
        systablespaces_header(),
        systablespaces_rows(ps as i32),
        text,
        ps,
        tablespace_kinds(),
        "SYSTABLESPACES"@,
    );
    lemma_file_is_read(
        db.sysschemas,
        "NAME"@,
        sysschemas_rows(),
        text,
        ps,
        schema_kinds(),
        "SYSSCHEMAS"@,
    );
    lemma_file_is_read(
        db.systables,
        "TABLEID\tNAME\tSCHEMANAME\tTBSPACEID\tCOLCOUNT"@,
        systables_rows(),
        text,
        ps,
        table_kinds(),
        "SYSTABLES"@,
    );
    lemma_file_is_read(
        db.syscolumns,
        "NAME\tTABNAME\tSCHEMANAME\tORDINAL\tTYPENAME\tNULLABLE"@,
        syscolumns_rows(),
        text,
        ps,
        column_kinds(),
        "SYSCOLUMNS"@,
    );
    lemma_file_is_read(
        db.sysbufferpools,
        "BPID\tBPNAME\tPAGESIZE\tNPAGES"@,
        sysbufferpools_rows(ps as i32),
        text,
        ps,
        bufferpool_kinds(),
        "SYSBUFFERPOOLS"@,
    );
    let cat = written_catalog(db)->Ok_0;
    let f1 = |row: Seq<ValueModel>| tablespace_def(row);
    let v1 = file_values(
        content(db.systablespaces),
        tablespace_kinds(),
        "SYSTABLESPACES"@,
    )->Ok_0;
    lemma_same_mapped(v1, systablespaces_rows(ps as i32), f1);
    assert(cat.tablespaces =~= v1.map_values(f1));
    let f2 = |row: Seq<ValueModel>| row[0]->Str_0;
    let v2 = file_values(content(db.sysschemas), schema_kinds(), "SYSSCHEMAS"@)->Ok_0;
    lemma_same_mapped(v2, sysschemas_rows(), f2);
    assert(cat.schemas =~= v2.map_values(f2));
    let f3 = |row: Seq<ValueModel>| table_def(row);
    let v3 = file_values(content(db.systables), table_kinds(), "SYSTABLES"@)->Ok_0;
    lemma_same_mapped(v3, systables_rows(), f3);
    assert(cat.tables =~= v3.map_values(f3));
    let f4 = |row: Seq<ValueModel>| column_def(row);
    let v4 = file_values(content(db.syscolumns), column_kinds(), "SYSCOLUMNS"@)->Ok_0;
    lemma_same_mapped(v4, syscolumns_rows(), f4);
    assert(cat.columns =~= v4.map_values(f4));
    let f5 = |row: Seq<ValueModel>| bufferpool_def(row);
    let v5 = file_values(
        content(db.sysbufferpools),
        bufferpool_kinds(),
        "SYSBUFFERPOOLS"@,
    )->Ok_0;
    lemma_same_mapped(v5, sysbufferpools_rows(ps as i32), f5);
    assert(cat.bufferpools =~= v5.map_values(f5));
    assert(new_tablespaces(ps as i32) =~= systablespaces_rows(ps as i32).map_values(f1));
    assert(new_schemas() =~= sysschemas_rows().map_values(f2));
    assert(new_tables() =~= systables_rows().map_values(f3));
    assert(new_columns() =~= syscolumns_rows().map_values(f4));
    assert(new_bufferpools(ps as i32) =~= sysbufferpools_rows(ps as i32).map_values(f5));
}

/// From texts, or from pages of the default size and above, the catalog of a new database is read
/// in the order in which it was written.
pub proof fn law_new_catalog_is_read_in_order(config: ConfigModel, db: NewDatabase)
    requires
        is_new_database(config, db),
        24 <= config.page_size,
        config.page_size * 8 <= i32::MAX,
        config.text_mode || 4096 <= config.page_size < 0x10000,
    ensures
        written_catalog(db) == Ok::<CatalogDef, ErrorModel>(new_catalog(config.page_size as i32)),
{
    let ps = config.page_size as nat;
    let size = ps as i32;
    let text = config.text_mode;
    law_new_catalog_is_read(config, db);
    lemma_headers();
    lemma_few(size);
    let cat = written_catalog(db)->Ok_0;
    assert(cat.tablespaces =~= new_tablespaces(size)) by {
        lemma_tablespaces_good(size);
        lemma_file_is_read(
            db.systablespaces,
            systablespaces_header(),
            systablespaces_rows(size),
            text,
            ps,
            tablespace_kinds(),
            "SYSTABLESPACES"@,
        );
    }
    assert(cat.schemas =~= new_schemas()) by {
        lemma_schemas_good();
        lemma_file_is_read(
            db.sysschemas,
            "NAME"@,
            sysschemas_rows(),
            text,
            ps,
            schema_kinds(),
            "SYSSCHEMAS"@,
        );
    }
    assert(cat.tables =~= new_tables()) by {
        lemma_tables_good();
        lemma_file_is_read(
            db.systables,
            "TABLEID\tNAME\tSCHEMANAME\tTBSPACEID\tCOLCOUNT"@,
            systables_rows(),
            text,
            ps,
            table_kinds(),
            "SYSTABLES"@,
        );
    }
    assert(cat.columns =~= new_columns()) by {
        lemma_columns_good();
        lemma_file_is_read(
            db.syscolumns,
            "NAME\tTABNAME\tSCHEMANAME\tORDINAL\tTYPENAME\tNULLABLE"@,
            syscolumns_rows(),
            text,
            ps,
            column_kinds(),
            "SYSCOLUMNS"@,
        );
    }
    assert(cat.bufferpools =~= new_bufferpools(size)) by {
        lemma_pools_good(size);
        lemma_file_is_read(
            db.sysbufferpools,
            "BPID\tBPNAME\tPAGESIZE\tNPAGES"@,
            sysbufferpools_rows(size),
            text,
            ps,
            bufferpool_kinds(),
            "SYSBUFFERPOOLS"@,
        );
    }
}

/// The rows of a new catalog are few.
proof fn lemma_few(size: i32)
    ensures
        few(tablespace_kinds().len(), systablespaces_rows(size).len()),
        few(schema_kinds().len(), sysschemas_rows().len()),
        few(table_kinds().len(), systables_rows().len()),
        few(column_kinds().len(), syscolumns_rows().len()),
        few(bufferpool_kinds().len(), sysbufferpools_rows(size).len()),
{
    assert(tablespace_kinds().len() == 7 && systablespaces_rows(size).len() == 3);
    assert(schema_kinds().len() == 1 && sysschemas_rows().len() == 2);
    assert(table_kinds().len() == 5 && systables_rows().len() == 5);
    assert(column_kinds().len() == 6 && syscolumns_rows().len() == 23);
    assert(bufferpool_kinds().len() == 4 && sysbufferpools_rows(size).len() == 4);
}

/// The name of the table of a row of `SYSTABLES`.
pub open spec fn listed_table(row: Seq<ValueModel>) -> Seq<char> {
    row[1]->Str_0
}

/// How many columns a row of `SYSTABLES` gives its table.
pub open spec fn listed_width(row: Seq<ValueModel>) -> int {
    row[4]->SmallInt_0 as int
}

/// The name of the column of a row of `SYSCOLUMNS`.
pub open spec fn column_name(row: Seq<ValueModel>) -> Seq<char> {
    row[0]->Str_0
}

/// The name of the table of a row of `SYSCOLUMNS`.
pub open spec fn column_table(row: Seq<ValueModel>) -> Seq<char> {
    row[1]->Str_0
}

/// The place of the column of a row of `SYSCOLUMNS` in its table.
pub open spec fn column_place(row: Seq<ValueModel>) -> int {
    row[3]->SmallInt_0 as int
}

/// Which row of `SYSTABLES` row `c` of `SYSCOLUMNS` belongs to.
spec fn table_at(c: int) -> int {
    if c < 7 {
        0
    } else if c < 8 {
        1
    } else if c < 13 {
        2
    } else if c < 19 {
        3
    } else {
        4
    }
}

/// Where the columns of the table in row `t` of `SYSTABLES` start in `SYSCOLUMNS`.
spec fn columns_at(t: int) -> int {
    if t <= 0 {
        0
    } else if t == 1 {
        7
    } else if t == 2 {
        8
    } else if t == 3 {
        13
    } else {
        19
    }
}

proof fn lemma_rows_in_place()
    ensures
        systables_rows().len() == 5,
        syscolumns_rows().len() == 23,
        forall|t: int|
            0 <= t < 5 ==> columns_at(t) + listed_width(#[trigger] systables_rows()[t]) == if t
                == 4 {
                23
            } else {
                columns_at(t + 1)
            },
        forall|c: int|
            0 <= c < 23 ==> {
                let row = #[trigger] syscolumns_rows()[c];
                let t = table_at(c);
                &&& column_table(row) == listed_table(systables_rows()[t])
                &&& column_place(row) == c - columns_at(t)
                &&& row[2] == ValueModel::Str(SYSTEM_SCHEMA@)
                &&& row[5] == ValueModel::Bool(false)
            },
{
}

proof fn lemma_table_names_differ(t: int, u: int)
    requires
        0 <= t < u < 5,
    ensures
        listed_table(systables_rows()[t]) != listed_table(systables_rows()[u]),
{
    reveal_strlit("SYSTABLESPACES");
    reveal_strlit("SYSSCHEMAS");
    reveal_strlit("SYSTABLES");
    reveal_strlit("SYSCOLUMNS");
    reveal_strlit("SYSBUFFERPOOLS");
    let a = listed_table(systables_rows()[t]);
    let b = listed_table(systables_rows()[u]);
    assert(a.len() != b.len() || a[3] != b[3]);
}

proof fn lemma_column_names_differ(c: int, d: int)
    requires
        0 <= c < d < 23,
        table_at(c) == table_at(d),
    ensures
        column_name(syscolumns_rows()[c]) != column_name(syscolumns_rows()[d]),
{
    reveal_strlit("TBSPACEID");
    reveal_strlit("TBSPACE");
    reveal_strlit("TBSPACETYPE");
    reveal_strlit("DATATYPE");
    reveal_strlit("PAGESIZE");
    reveal_strlit("STATE");
    reveal_strlit("BUFFERPOOLID");
    reveal_strlit("NAME");
    reveal_strlit("TABLEID");
    reveal_strlit("SCHEMANAME");
    reveal_strlit("COLCOUNT");
    reveal_strlit("TABNAME");
    reveal_strlit("ORDINAL");
    reveal_strlit("TYPENAME");
    reveal_strlit("NULLABLE");
    reveal_strlit("BPID");
    reveal_strlit("BPNAME");
    reveal_strlit("NPAGES");
    let a = column_name(syscolumns_rows()[c]);
    let b = column_name(syscolumns_rows()[d]);
    assert(a.len() != b.len() || a[0] != b[0]);
}

/// The rows of `SYSTABLES` and `SYSCOLUMNS` of a new catalog agree: each column belongs to a listed
/// table, at a place below the number of columns of the table; each such place of each table has a
/// column, and only one; the columns of a table have different names; and all of them are in the
/// system's schema and cannot be null.
pub proof fn law_catalog_describes_itself()
    ensures
        forall|c: int|
            0 <= c < syscolumns_rows().len() ==> {
                let row = #[trigger] syscolumns_rows()[c];
                &&& row[2] == ValueModel::Str(SYSTEM_SCHEMA@)
                &&& row[5] == ValueModel::Bool(false)
                &&& exists|t: int|
                    0 <= t < systables_rows().len() && listed_table(
                        #[trigger] systables_rows()[t],
                    ) == column_table(row) && 0 <= column_place(row) < listed_width(
                        systables_rows()[t],
                    )
            },
        forall|t: int, place: int|
            0 <= t < systables_rows().len() && 0 <= place < listed_width(systables_rows()[t])
                ==> #[trigger] has_column(t, place),
        forall|c: int, d: int|
            0 <= c < syscolumns_rows().len() && 0 <= d < syscolumns_rows().len() && c != d
                && column_table(#[trigger] syscolumns_rows()[c]) == column_table(
                #[trigger] syscolumns_rows()[d],
            ) ==> {
                &&& column_place(syscolumns_rows()[c]) != column_place(syscolumns_rows()[d])
                &&& column_name(syscolumns_rows()[c]) != column_name(syscolumns_rows()[d])
            },
{
    lemma_rows_in_place();
    let tables = systables_rows();
    let cols = syscolumns_rows();
    assert forall|c: int| 0 <= c < cols.len() implies {
        let row = #[trigger] cols[c];
        &&& row[2] == ValueModel::Str(SYSTEM_SCHEMA@)
        &&& row[5] == ValueModel::Bool(false)
        &&& exists|t: int|
            0 <= t < tables.len() && listed_table(#[trigger] tables[t]) == column_table(row) && 0
                <= column_place(row) < listed_width(tables[t])
    } by {
        let t = table_at(c);
        assert(listed_table(tables[t]) == column_table(cols[c]));
        assert(0 <= column_place(cols[c]) < listed_width(tables[t]));
    }
    assert forall|t: int, place: int|
        0 <= t < tables.len() && 0 <= place < listed_width(tables[t]) implies #[trigger] has_column(
        t,
        place,
    ) by {
        let c = columns_at(t) + place;
        assert(table_at(c) == t);
        assert(cols[c] == syscolumns_rows()[c]);
        assert(is_column(c, t, place));
    }
    assert forall|c: int, d: int|
        0 <= c < cols.len() && 0 <= d < cols.len() && c != d && column_table(#[trigger] cols[c])
            == column_table(#[trigger] cols[d]) implies column_place(cols[c]) != column_place(
        cols[d],
    ) && column_name(cols[c]) != column_name(cols[d]) by {
        let t = table_at(c);
        let u = table_at(d);
        if t < u {
            lemma_table_names_differ(t, u);
        } else if u < t {
            lemma_table_names_differ(u, t);
        }
        if c < d {
            lemma_column_names_differ(c, d);
        } else {
            lemma_column_names_differ(d, c);
        }
    }
}

/// Whether row `c` of `SYSCOLUMNS` is the column at a place of the table in row `t` of `SYSTABLES`.
pub open spec fn is_column(c: int, t: int, place: int) -> bool {
    &&& column_table(syscolumns_rows()[c]) == listed_table(systables_rows()[t])
    &&& column_place(syscolumns_rows()[c]) == place
}

/// Whether `SYSCOLUMNS` has a column at a place of the table in row `t` of `SYSTABLES`.
pub open spec fn has_column(t: int, place: int) -> bool {
    exists|c: int| 0 <= c < syscolumns_rows().len() && #[trigger] is_column(c, t, place)
}

/// Whether the UTF-8 encoding of a text fits a field.
pub open spec fn fits_field(s: Seq<char>) -> bool {
    encode_utf8(s).len() < 0x1_0000_0000_0000_0000
}

/// The row that is stored for a table in the catalog is read as that table, and the row that is
/// stored for a column as that column.
pub proof fn law_catalog_rows_are_read(t: TableDef, c: ColumnDef)
    requires
        fits_field(t.name),
        fits_field(t.schemaname),
        fits_field(c.name),
        fits_field(c.tabname),
        fits_field(c.schemaname),
        fits_field(c.typename),
    ensures
        field_values(row_bytes(table_row(t)), table_kinds(), 5).0 == Ok::<
            Seq<ValueModel>,
            ErrorModel,
        >(table_row(t)),
        table_def(table_row(t)) == t,
        field_values(row_bytes(column_row(c)), column_kinds(), 6).0 == Ok::<
            Seq<ValueModel>,
            ErrorModel,
        >(column_row(c)),
        column_def(column_row(c)) == c,
{
    law_stored_row_is_read(table_row(t), table_kinds(), 5);
    assert(table_row(t).subrange(0, 5) =~= table_row(t));
    law_stored_row_is_read(column_row(c), column_kinds(), 6);
    assert(column_row(c).subrange(0, 6) =~= column_row(c));
}

} // verus!
