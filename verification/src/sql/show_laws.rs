//! What a result set shows.

use vstd::prelude::*;
use vstd::utf8::encode_utf8;
use crate::sql::types::{header_parts, row_lines, row_parts, rule_parts, shown, spaced, width,
    ResultModel, ValueModel};
use crate::text::{digits10, int_text, is_digit, law_lines_end_at_line_feeds, lemma_digits10,
    lemma_parse_int_text, line_seq, parsed_signed};

verus! {

// ── Values ──

/// A number is shown by its decimal notation, which is read as the number again; a text as it is; a
/// flag as `Y` or `N`; and no value as `NULL`.
pub proof fn law_value_shows_what_it_is(v: ValueModel)
    ensures
        v.number() matches Some(n) ==> v.text() == int_text(n) && parsed_signed(
            v.text(),
            i64::MIN as int,
            i64::MAX as int,
        ) == Some(n),
        v matches ValueModel::Str(s) ==> v.text() == s,
        v matches ValueModel::Bool(b) ==> v.text() == if b {
            "Y"@
        } else {
            "N"@
        },
        v is Null ==> v.text() == "NULL"@,
{
    if let Some(n) = v.number() {
        lemma_parse_int_text(n, i64::MIN as int, i64::MAX as int);
    }
}

// ── Widths ──

/// A column is as wide, in bytes, as the longest of its name and its values: none is longer, and
/// one is as long.
pub proof fn law_column_is_as_wide_as_its_longest(m: ResultModel, i: int, n: int)
    requires
        0 <= i < m.columns.len(),
        0 <= n <= m.rows.len(),
    ensures
        encode_utf8(m.columns[i]).len() <= width(m, i, n),
        forall|k: int|
            0 <= k < n && i < (#[trigger] m.rows[k]).len() ==> encode_utf8(
                m.rows[k][i].text(),
            ).len() <= width(m, i, n),
        width(m, i, n) == encode_utf8(m.columns[i]).len() || exists|k: int|
            0 <= k < n && i < (#[trigger] m.rows[k]).len() && encode_utf8(m.rows[k][i].text()).len()
                == width(m, i, n),
    decreases n,
{
    if n > 0 {
        law_column_is_as_wide_as_its_longest(m, i, n - 1);
        let before = width(m, i, n - 1);
        let now = width(m, i, n);
        if now == before && now != encode_utf8(m.columns[i]).len() {
            let k = choose|k: int|
                0 <= k < n - 1 && i < (#[trigger] m.rows[k]).len() && encode_utf8(
                    m.rows[k][i].text(),
                ).len() == before;
            assert(i < m.rows[k].len());
        } else if now != before {
            assert(i < m.rows[n - 1].len());
        }
    }
}

/// The first line has the name of each column, filled up with blanks to the width of the column,
/// and the second as many hyphens as the column is wide.
pub proof fn law_heads_and_rules_are_as_wide_as_their_columns(m: ResultModel, i: int)
    requires
        0 <= i < m.columns.len(),
    ensures
        header_parts(m).len() == m.columns.len(),
        rule_parts(m).len() == m.columns.len(),
        ({
            let w = width(m, i, m.rows.len() as int);
            let head = header_parts(m)[i];
            let rule = rule_parts(m)[i];
            &&& head.len() == if m.columns[i].len() < w {
                w
            } else {
                m.columns[i].len()
            }
            &&& head.subrange(0, m.columns[i].len() as int) == m.columns[i]
            &&& forall|k: int| m.columns[i].len() <= k < head.len() ==> #[trigger] head[k] == ' '
            &&& rule.len() == w
            &&& forall|k: int| 0 <= k < rule.len() ==> #[trigger] rule[k] == '-'
        }),
{
    assert(header_parts(m)[i].subrange(0, m.columns[i].len() as int) =~= m.columns[i]);
}

/// The parts of the line of a row are its values in their order, filled up with nothing.
pub proof fn law_row_shows_its_values(row: Seq<ValueModel>, i: int)
    requires
        0 <= i < row.len(),
    ensures
        row_parts(row).len() == row.len(),
        row_parts(row)[i] == row[i].text(),
{
}

/// The parts of a line stand in their order, with two blanks between them.
pub proof fn law_parts_stand_two_blanks_apart(parts: Seq<Seq<char>>, n: int)
    requires
        1 <= n < parts.len(),
    ensures
        spaced(parts, 1) == parts[0],
        spaced(parts, n + 1) == spaced(parts, n) + "  "@ + parts[n],
{
}

// ── Lines ──

/// Whether a text is on one line.
pub open spec fn on_one_line(s: Seq<char>) -> bool {
    forall|i: int| 0 <= i < s.len() ==> #[trigger] s[i] != '\n' && s[i] != '\r'
}

proof fn lemma_spaced(parts: Seq<Seq<char>>, n: int)
    requires
        0 <= n <= parts.len(),
        forall|i: int| 0 <= i < n ==> on_one_line(#[trigger] parts[i]),
    ensures
        on_one_line(spaced(parts, n)),
    decreases n,
{
    reveal_strlit("  ");
    if n > 0 {
        assert(on_one_line(parts[n - 1]));
        assert(on_one_line(parts[0]));
    }
    if n > 1 {
        lemma_spaced(parts, n - 1);
        let a = spaced(parts, n - 1);
        let all = spaced(parts, n);
        assert forall|i: int| 0 <= i < all.len() implies #[trigger] all[i] != '\n' && all[i]
            != '\r' by {
            if i < a.len() {
                assert(all[i] == a[i]);
            } else if i < a.len() + 2 {
                assert(all[i] == "  "@[i - a.len()]);
            } else {
                assert(all[i] == parts[n - 1][i - a.len() - 2]);
            }
        }
    }
}

/// Whether nothing that a result set shows has a line break.
pub open spec fn shows_one_line_each(m: ResultModel) -> bool {
    &&& forall|i: int| 0 <= i < m.columns.len() ==> on_one_line(#[trigger] m.columns[i])
    &&& forall|k: int, i: int|
        0 <= k < m.rows.len() && 0 <= i < m.rows[k].len() ==> on_one_line(
            #[trigger] m.rows[k][i].text(),
        )
}

/// The line of a row: its values, as they are shown.
pub open spec fn row_line(row: Seq<ValueModel>) -> Seq<char> {
    spaced(row_parts(row), row.len() as int)
}

proof fn lemma_row_lines(m: ResultModel, top: Seq<char>, n: int)
    requires
        0 <= n <= m.rows.len(),
        shows_one_line_each(m),
        top.len() > 0,
        top.last() == '\n',
    ensures
        (top + row_lines(m, n)).last() == '\n',
        line_seq(top + row_lines(m, n)) == line_seq(top) + Seq::new(
            n as nat,
            |k: int| row_line(m.rows[k]),
        ),
    decreases n,
{
    let all = Seq::new(n as nat, |k: int| row_line(m.rows[k]));
    if n == 0 {
        assert(top + row_lines(m, 0) =~= top);
        assert(line_seq(top) + all =~= line_seq(top));
    } else {
        lemma_row_lines(m, top, n - 1);
        let before = top + row_lines(m, n - 1);
        let row = m.rows[n - 1];
        let line = row_line(row);
        assert forall|i: int| 0 <= i < row.len() implies on_one_line(
            #[trigger] row_parts(row)[i],
        ) by {
            assert(on_one_line(m.rows[n - 1][i].text()));
        }
        lemma_spaced(row_parts(row), row.len() as int);
        law_lines_end_at_line_feeds(before, line);
        assert(top + row_lines(m, n) =~= (before + line).push('\n'));
        let first = Seq::new((n - 1) as nat, |k: int| row_line(m.rows[k]));
        assert(line_seq(top) + all =~= (line_seq(top) + first).push(line));
    }
}

/// What a result set shows, line by line: the names of its columns, a rule under them, its rows in
/// their order, an empty line, and how many rows there are. One without columns shows that it is
/// empty.
pub proof fn law_result_is_shown_line_by_line(m: ResultModel)
    ensures
        m.columns.len() == 0 ==> shown(m) == "(empty result set)"@,
        m.columns.len() > 0 && shows_one_line_each(m) ==> {
            let n = m.columns.len() as int;
            let lines = line_seq(shown(m));
            &&& lines.len() == m.rows.len() + 4
            &&& lines[0] == spaced(header_parts(m), n)
            &&& lines[1] == spaced(rule_parts(m), n)
            &&& forall|k: int|
                0 <= k < m.rows.len() ==> #[trigger] lines[k + 2] == row_line(m.rows[k])
            &&& lines[m.rows.len() as int + 2].len() == 0
            &&& lines[m.rows.len() as int + 3] == "("@ + digits10(m.rows.len()) + (if m.rows.len()
                == 1 {
                " row)"@
            } else {
                " rows)"@
            })
        },
{
    if m.columns.len() > 0 && shows_one_line_each(m) {
        let n = m.columns.len() as int;
        let none = Seq::<char>::empty();
        let head = spaced(header_parts(m), n);
        let rule = spaced(rule_parts(m), n);
        assert forall|i: int| 0 <= i < n implies on_one_line(#[trigger] header_parts(m)[i]) by {
            law_heads_and_rules_are_as_wide_as_their_columns(m, i);
            let part = header_parts(m)[i];
            assert(on_one_line(m.columns[i]));
            assert forall|k: int| 0 <= k < part.len() implies #[trigger] part[k] != '\n' && part[k]
                != '\r' by {
                if k < m.columns[i].len() {
                    assert(part.subrange(0, m.columns[i].len() as int)[k] == m.columns[i][k]);
                }
            }
        }
        assert forall|i: int| 0 <= i < n implies on_one_line(#[trigger] rule_parts(m)[i]) by {
            law_heads_and_rules_are_as_wide_as_their_columns(m, i);
        }
        lemma_spaced(header_parts(m), n);
        lemma_spaced(rule_parts(m), n);
        law_lines_end_at_line_feeds(none, head);
        assert(none + head =~= head);
        let one = head.push('\n');
        law_lines_end_at_line_feeds(one, rule);
        let top = (one + rule).push('\n');
        lemma_row_lines(m, top, m.rows.len() as int);
        let body = top + row_lines(m, m.rows.len() as int);
        law_lines_end_at_line_feeds(body, none);
        assert(body + none =~= body);
        let gap = body.push('\n');
        reveal_strlit("(");
        reveal_strlit("\n(");
        reveal_strlit(" row");
        reveal_strlit("s");
        reveal_strlit("");
        reveal_strlit(")");
        reveal_strlit(" row)");
        reveal_strlit(" rows)");
        let last = "("@ + digits10(m.rows.len()) + (if m.rows.len() == 1 {
            " row)"@
        } else {
            " rows)"@
        });
        lemma_digits10(m.rows.len());
        assert forall|i: int| 0 <= i < last.len() implies #[trigger] last[i] != '\n' by {
            let d = digits10(m.rows.len());
            if 1 <= i < 1 + d.len() {
                assert(last[i] == d[i - 1]);
                assert(is_digit(d[i - 1]));
            }
        }
        law_lines_end_at_line_feeds(gap, last);
        assert(shown(m) =~= gap + last);
    }
}

} // verus!
