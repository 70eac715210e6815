//! What the files of the catalog mean.

use vstd::prelude::*;
use vstd::utf8::{encode_utf8, encode_utf8_decode_utf8, encode_utf8_valid_utf8, valid_utf8};
use crate::bytes::{le_bytes, le_value, lemma_le_bytes_len, lemma_le_value_bound,
    lemma_le_value_of_bytes, lemma_pow256, pow256};
use crate::catalog::bootstrap::{row_bytes, tabbed, value_bytes, values_bytes};
use crate::catalog::loader::{data_lines, field_value, field_values, file_values, lines_values,
    rows_values, text_value, text_values, FieldKind, FileContent};
use crate::catalog::row::{bool_field, field_at, field_bytes, flag_bytes, i16_field, i32_field,
    law_signed_round_trip, signed_bytes, signed_value, string_field};
use crate::error::ErrorModel;
use crate::sql::types::ValueModel;
use crate::storage::heap::{all_rows, Rid};
use crate::text::{int_text, lemma_parse_int_text, line_seq, parsed_signed, split_parts};

verus! {

// ── Fields ──

/// A field is its length in eight bytes and then its bytes.
pub proof fn law_field_has_its_length_before_it(b: Seq<u8>)
    requires
        b.len() < 0x1_0000_0000_0000_0000,
    ensures
        field_bytes(b).len() == b.len() + 8,
        le_value(field_bytes(b).subrange(0, 8)) == b.len(),
        field_bytes(b).subrange(8, b.len() as int + 8) == b,
{
    lemma_pow256();
    lemma_le_bytes_len(b.len(), 8);
    lemma_le_value_of_bytes(b.len(), 8);
    let all = field_bytes(b);
    assert(all.subrange(0, 8) =~= le_bytes(b.len(), 8));
    assert(all.subrange(8, b.len() as int + 8) =~= b);
}

/// A number of `n` bytes differs from what its bytes hold by 256 to the power of `n`, or not at
/// all: it is negative where the highest bit is set.
pub proof fn law_numbers_are_in_twos_complement(v: int, n: nat, b: Seq<u8>)
    ensures
        -(pow256(n) as int) <= 2 * v < pow256(n) ==> le_value(signed_bytes(v, n)) as int == if v
            < 0 {
            v + pow256(n)
        } else {
            v
        },
        signed_value(b) == le_value(b) || signed_value(b) == le_value(b) - pow256(b.len()),
        -(pow256(b.len()) as int) <= 2 * signed_value(b) < pow256(b.len()),
{
    if -(pow256(n) as int) <= 2 * v < pow256(n) {
        lemma_le_value_of_bytes(
            if v < 0 {
                (v + pow256(n)) as nat
            } else {
                v as nat
            },
            n,
        );
    }
    lemma_le_value_bound(b);
}

/// Numbers have two and four bytes, texts are UTF-8, and a flag is the letter `Y` or `N`; any other
/// field is refused.
pub proof fn law_fields_of_another_form_are_refused(b: Seq<u8>)
    ensures
        i16_field(b) is Ok <==> b.len() == 2,
        b.len() == 2 ==> i16_field(b)->Ok_0 == signed_value(b),
        i32_field(b) is Ok <==> b.len() == 4,
        b.len() == 4 ==> i32_field(b)->Ok_0 == signed_value(b),
        string_field(b) is Ok <==> valid_utf8(b),
        bool_field(b) == Ok::<bool, ErrorModel>(true) <==> b == seq!['Y' as u8],
        bool_field(b) == Ok::<bool, ErrorModel>(false) <==> b == seq!['N' as u8],
        flag_bytes(true) == seq!['Y' as u8],
        flag_bytes(false) == seq!['N' as u8],
{
    lemma_pow256();
    lemma_le_value_bound(b);
    if b.len() == 1 {
        assert(b =~= seq![b[0]]);
    }
    assert(seq!['Y' as u8][0] == 0x59u8);
    assert(seq!['N' as u8][0] == 0x4eu8);
}

/// A field that does not end within the row is refused, and any other is what stands behind its
/// length.
pub proof fn law_field_ends_within_its_row(data: Seq<u8>, pos: int)
    requires
        0 <= pos,
    ensures
        data.len() < pos + 8 ==> field_at(data, pos).0 is Err,
        pos + 8 <= data.len() ==> {
            let n = le_value(data.subrange(pos, pos + 8)) as int;
            &&& data.len() < pos + 8 + n ==> field_at(data, pos).0 is Err
            &&& pos + 8 + n <= data.len() ==> field_at(data, pos) == (
                Ok::<Seq<u8>, ErrorModel>(data.subrange(pos + 8, pos + 8 + n)),
                pos + 8 + n,
            )
        },
{
}

/// The values of a row are written one behind the other, and each is read by its kind.
pub proof fn law_values_are_written_in_their_order(row: Seq<ValueModel>, v: ValueModel)
    ensures
        row_bytes(row.push(v)) == row_bytes(row) + value_bytes(v),
        v matches ValueModel::SmallInt(n) ==> value_bytes(v) == field_bytes(
            signed_bytes(n as int, 2),
        ) && field_value(signed_bytes(n as int, 2), FieldKind::Small) == Ok::<
            ValueModel,
            ErrorModel,
        >(v),
        v matches ValueModel::Integer(n) ==> value_bytes(v) == field_bytes(
            signed_bytes(n as int, 4),
        ) && field_value(signed_bytes(n as int, 4), FieldKind::Int) == Ok::<ValueModel, ErrorModel>(
            v,
        ),
        v matches ValueModel::Str(s) ==> value_bytes(v) == field_bytes(encode_utf8(s))
            && field_value(encode_utf8(s), FieldKind::Text) == Ok::<ValueModel, ErrorModel>(v),
        v matches ValueModel::Bool(b) ==> value_bytes(v) == field_bytes(flag_bytes(b))
            && field_value(flag_bytes(b), FieldKind::Flag) == Ok::<ValueModel, ErrorModel>(v),
{
    lemma_values_alike(row, v, row.len() as int);
    lemma_pow256();
    match v {
        ValueModel::SmallInt(n) => {
            law_signed_round_trip(n as int, 2);
        },
        ValueModel::Integer(n) => {
            law_signed_round_trip(n as int, 4);
        },
        ValueModel::Str(s) => {
            encode_utf8_valid_utf8(s);
            encode_utf8_decode_utf8(s);
        },
        _ => {},
    }
}

proof fn lemma_values_alike(row: Seq<ValueModel>, v: ValueModel, n: int)
    requires
        0 <= n <= row.len(),
    ensures
        values_bytes(row.push(v), n) == values_bytes(row, n),
    decreases n,
{
    if n > 0 {
        lemma_values_alike(row, v, n - 1);
        assert(row.push(v)[n - 1] == row[n - 1]);
    }
}

// ── Texts ──

/// A number in a text is read by its decimal notation, where it is in range, and else refused; a
/// text is itself; and a flag is set by a `Y` and by nothing else.
pub proof fn law_text_is_read_by_its_kind(s: Seq<char>, n: int)
    ensures
        -0x8000 <= n <= 0x7fff ==> text_value(int_text(n), FieldKind::Small) == Ok::<
            ValueModel,
            ErrorModel,
        >(ValueModel::SmallInt(n as i16)),
        -0x8000_0000 <= n <= 0x7fff_ffff ==> text_value(int_text(n), FieldKind::Int) == Ok::<
            ValueModel,
            ErrorModel,
        >(ValueModel::Integer(n as i32)),
        text_value(s, FieldKind::Small) matches Ok(v) ==> v is SmallInt && parsed_signed(
            s,
            -0x8000,
            0x7fff,
        ) == Some(v->SmallInt_0 as int),
        text_value(s, FieldKind::Int) matches Ok(v) ==> v is Integer && parsed_signed(
            s,
            -0x8000_0000,
            0x7fff_ffff,
        ) == Some(v->Integer_0 as int),
        parsed_signed(s, -0x8000, 0x7fff) is None ==> text_value(s, FieldKind::Small) is Err,
        parsed_signed(s, -0x8000_0000, 0x7fff_ffff) is None ==> text_value(
            s,
            FieldKind::Int,
        ) is Err,
        text_value(s, FieldKind::Text) == Ok::<ValueModel, ErrorModel>(ValueModel::Str(s)),
        text_value(s, FieldKind::Flag) == Ok::<ValueModel, ErrorModel>(
            ValueModel::Bool(s == seq!['Y']),
        ),
{
    reveal_strlit("Y");
    assert("Y"@ =~= seq!['Y']);
    if -0x8000 <= n <= 0x7fff {
        lemma_parse_int_text(n, -0x8000, 0x7fff);
    }
    if -0x8000_0000 <= n <= 0x7fff_ffff {
        lemma_parse_int_text(n, -0x8000_0000, 0x7fff_ffff);
    }
}

/// The first line of a text is a heading, and empty lines are no rows; every other line is one, in
/// their order.
pub proof fn law_lines_but_the_heading_are_rows(ls: Seq<Seq<char>>, n: int)
    requires
        0 <= n <= ls.len(),
    ensures
        data_lines(ls, n) == if n == 0 {
            Seq::empty()
        } else {
            ls.subrange(1, n).filter(|l: Seq<char>| l.len() > 0)
        },
    decreases n,
{
    let f = |l: Seq<char>| l.len() > 0;
    reveal(Seq::filter);
    if n > 1 {
        law_lines_but_the_heading_are_rows(ls, n - 1);
        assert(ls.subrange(1, n).drop_last() =~= ls.subrange(1, n - 1));
    } else if n == 1 {
        assert(ls.subrange(1, 1).filter(f) =~= Seq::empty());
    }
}

/// The values of a row stand with one tab between each two of them, as they are shown.
pub proof fn law_values_stand_a_tab_apart(row: Seq<ValueModel>, n: int)
    requires
        1 <= n < row.len(),
    ensures
        tabbed(row, 1) == row[0].text(),
        tabbed(row, n + 1) == tabbed(row, n) + seq!['\t'] + row[n].text(),
{
    assert(tabbed(row, n + 1) =~= tabbed(row, n) + seq!['\t'] + row[n].text());
}

// ── Files ──

proof fn lemma_text_values(row: Seq<Seq<char>>, kinds: Seq<FieldKind>, table: Seq<char>, n: int)
    requires
        0 <= n <= kinds.len(),
    ensures
        text_values(row, kinds, table, n) matches Ok(vals) ==> {
            &&& vals.len() == n
            &&& n <= row.len()
            &&& forall|i: int|
                0 <= i < n ==> text_value(row[i], kinds[i]) == Ok::<ValueModel, ErrorModel>(
                    #[trigger] vals[i],
                )
        },
        text_values(row, kinds, table, n) is Err ==> n > row.len() || exists|i: int|
            0 <= i < n && text_value(#[trigger] row[i], kinds[i]) is Err,
    decreases n,
{
    if n > 0 {
        lemma_text_values(row, kinds, table, n - 1);
        if text_values(row, kinds, table, n) is Err && text_values(row, kinds, table, n - 1) is Ok
            && n <= row.len() {
            assert(text_value(row[n - 1], kinds[n - 1]) is Err);
        }
    }
}

/// A line of a text is read as a row where it has a text for each kind that can be read by it: the
/// values are those of the texts between the tabs, in their order. Any other line is refused.
pub proof fn law_line_is_read_by_its_kinds(
    line: Seq<char>,
    kinds: Seq<FieldKind>,
    table: Seq<char>,
)
    ensures
        ({
            let parts = split_parts(line, '\t');
            let n = kinds.len() as int;
            &&& text_values(parts, kinds, table, n) matches Ok(vals) ==> {
                &&& vals.len() == n <= parts.len()
                &&& forall|i: int|
                    0 <= i < n ==> text_value(parts[i], kinds[i]) == Ok::<ValueModel, ErrorModel>(
                        #[trigger] vals[i],
                    )
            }
            &&& text_values(parts, kinds, table, n) is Err ==> n > parts.len() || exists|i: int|
                0 <= i < n && text_value(#[trigger] parts[i], kinds[i]) is Err
        }),
{
    lemma_text_values(split_parts(line, '\t'), kinds, table, kinds.len() as int);
}

proof fn lemma_lines(ls: Seq<Seq<char>>, kinds: Seq<FieldKind>, table: Seq<char>, n: int)
    requires
        0 <= n <= ls.len(),
    ensures
        lines_values(ls, kinds, table, n) matches Ok(rows) ==> rows.len() == n && forall|i: int|
            0 <= i < n ==> text_values(
                split_parts(ls[i], '\t'),
                kinds,
                table,
                kinds.len() as int,
            ) == Ok::<Seq<ValueModel>, ErrorModel>(#[trigger] rows[i]),
        lines_values(ls, kinds, table, n) is Err ==> exists|i: int|
            0 <= i < n && text_values(
                split_parts(#[trigger] ls[i], '\t'),
                kinds,
                table,
                kinds.len() as int,
            ) is Err,
    decreases n,
{
    if n > 0 {
        lemma_lines(ls, kinds, table, n - 1);
        if lines_values(ls, kinds, table, n) is Err && lines_values(ls, kinds, table, n - 1) is Ok {
            assert(text_values(
                split_parts(ls[n - 1], '\t'),
                kinds,
                table,
                kinds.len() as int,
            ) is Err);
        }
    }
}

/// A text is read row by row: there is a row for each of its lines but the heading and the empty
/// ones, in their order. It is refused only where one of them is.
pub proof fn law_text_is_read_line_by_line(t: Seq<char>, kinds: Seq<FieldKind>, table: Seq<char>)
    requires
        line_seq(t).len() > 0,
    ensures
        ({
            let all = line_seq(t);
            let lines = all.subrange(1, all.len() as int).filter(|l: Seq<char>| l.len() > 0);
            let r = file_values(FileContent::Text(t), kinds, table);
            let n = kinds.len() as int;
            &&& r matches Ok(rows) ==> rows.len() == lines.len() && forall|i: int|
                0 <= i < lines.len() ==> text_values(split_parts(lines[i], '\t'), kinds, table, n)
                    == Ok::<Seq<ValueModel>, ErrorModel>(#[trigger] rows[i])
            &&& r is Err ==> exists|i: int|
                0 <= i < lines.len() && text_values(
                    split_parts(#[trigger] lines[i], '\t'),
                    kinds,
                    table,
                    n,
                ) is Err
        }),
{
    let all = line_seq(t);
    law_lines_but_the_heading_are_rows(all, all.len() as int);
    let lines = all.subrange(1, all.len() as int).filter(|l: Seq<char>| l.len() > 0);
    assert(data_lines(all, all.len() as int) == lines);
    lemma_lines(lines, kinds, table, lines.len() as int);
}

proof fn lemma_rows(rows: Seq<(Rid, Seq<u8>)>, kinds: Seq<FieldKind>, n: int)
    requires
        0 <= n <= rows.len(),
    ensures
        rows_values(rows, kinds, n) matches Ok(vals) ==> vals.len() == n && forall|i: int|
            0 <= i < n ==> field_values(rows[i].1, kinds, kinds.len() as int).0 == Ok::<
                Seq<ValueModel>,
                ErrorModel,
            >(#[trigger] vals[i]),
        rows_values(rows, kinds, n) is Err ==> exists|i: int|
            0 <= i < n && field_values((#[trigger] rows[i]).1, kinds, kinds.len() as int).0 is Err,
    decreases n,
{
    if n > 0 {
        lemma_rows(rows, kinds, n - 1);
        if rows_values(rows, kinds, n) is Err && rows_values(rows, kinds, n - 1) is Ok {
            assert(field_values(rows[n - 1].1, kinds, kinds.len() as int).0 is Err);
        }
    }
}

/// A heap file whose pages are in order is read row by row: there is a row for each row of its
/// pages, in their order. It is refused only where one of them is.
pub proof fn law_heap_file_is_read_row_by_row(
    file: FileContent,
    kinds: Seq<FieldKind>,
    table: Seq<char>,
)
    requires
        file is Rows,
        file->Rows_0.scan_error(0) is None,
    ensures
        ({
            let h = file->Rows_0;
            let raw = all_rows(h.pages, h.pages.len() as int);
            let r = file_values(file, kinds, table);
            let n = kinds.len() as int;
            &&& r matches Ok(rows) ==> rows.len() == raw.len() && forall|i: int|
                0 <= i < raw.len() ==> field_values(raw[i].1, kinds, n).0 == Ok::<
                    Seq<ValueModel>,
                    ErrorModel,
                >(#[trigger] rows[i])
            &&& r is Err ==> exists|i: int|
                0 <= i < raw.len() && field_values((#[trigger] raw[i]).1, kinds, n).0 is Err
        }),
{
    let h = file->Rows_0;
    let raw = all_rows(h.pages, h.pages.len() as int);
    lemma_rows(raw, kinds, raw.len() as int);
}

} // verus!
