//! SQL text.

use vstd::prelude::*;
use sqlparser::dialect::GenericDialect;
use sqlparser::parser::Parser;
use crate::error::{sql_error, DbResult, Error, ErrorModel, SqlState};
use crate::text::{chars_of, string_of, to_uppercase, uppercase};

verus! {

/// A statement as `sqlparser` gives it.
#[verifier::external_type_specification]
#[verifier::external_body]
pub struct ExStatement(sqlparser::ast::Statement);

/// Whether `word` stands in `text` at position `i`.
pub open spec fn stands_at(text: Seq<char>, word: Seq<char>, i: int) -> bool {
    &&& 0 <= i
    &&& i + word.len() <= text.len()
    &&& text.subrange(i, i + word.len()) == word
}

/// Whether `words`, from the `k`-th on, stand in `text` one behind the other at or after `from`,
/// with anything between them.
pub open spec fn in_order(text: Seq<char>, from: int, words: Seq<Seq<char>>, k: int) -> bool
    decreases words.len() - k,
{
    k >= words.len() || exists|i: int|
        from <= i && #[trigger] stands_at(text, words[k], i) && in_order(
            text,
            i + words[k].len(),
            words,
            k + 1,
        )
}

/// The keywords of a `GRANT` that names who granted it.
pub open spec fn grant_words() -> Seq<Seq<char>> {
    seq!["GRANT"@, "GRANTED"@, "BY"@]
}

/// The keywords of a `REVOKE` that names who granted.
pub open spec fn revoke_words() -> Seq<Seq<char>> {
    seq!["REVOKE"@, "GRANTED"@, "BY"@]
}

/// The keywords of a `FLUSH` of one channel's relay logs.
pub open spec fn flush_words() -> Seq<Seq<char>> {
    seq!["FLUSH"@, "RELAY"@, "LOGS"@, "FOR"@, "CHANNEL"@]
}

/// Whether a character is white space between words.
pub open spec fn is_blank(c: char) -> bool {
    c == ' ' || c == '\t' || c == '\n' || c == '\r'
}

/// Whether a character can stand in a plain name in upper case.
pub open spec fn is_name_char(c: char) -> bool {
    'A' <= c <= 'Z' || '0' <= c <= '9' || c == '_'
}

/// The first position from `i` on that has no white space.
pub open spec fn after_blanks(text: Seq<char>, i: int) -> int
    decreases text.len() - i,
{
    if 0 <= i < text.len() && is_blank(text[i]) {
        after_blanks(text, i + 1)
    } else {
        i
    }
}

/// The first position from `i` on that is not part of a plain name.
pub open spec fn after_name(text: Seq<char>, i: int) -> int
    decreases text.len() - i,
{
    if 0 <= i < text.len() && is_name_char(text[i]) {
        after_name(text, i + 1)
    } else {
        i
    }
}

/// Whether white space and a plain name stand at position `i`, and the statement ends behind them.
pub open spec fn name_stands(text: Seq<char>, i: int) -> bool {
    let start = after_blanks(text, i);
    let end = after_name(text, start);
    let rest = after_blanks(text, end);
    &&& i < start < end
    &&& !('0' <= text[start] <= '9')
    &&& rest >= text.len() || text[rest] == ';'
}

/// Whether a word stands somewhere in a text without a plain name behind it.
pub open spec fn stands_unnamed(text: Seq<char>, word: Seq<char>) -> bool {
    exists|i: int| #[trigger] stands_at(text, word, i) && !name_stands(text, i + word.len())
}

/// What a position of a text is part of.
pub enum Region {
    /// The words and signs of statements.
    Code,
    /// A literal or a name in quotes, by its quotation mark.
    Quoted(char),
    /// A comment up to the end of the line.
    Line,
    /// A comment in brackets, by how deep it is nested.
    Block(u64),
}

/// Whether a character quotes a literal or a name.
pub open spec fn is_quote(c: char) -> bool {
    c == '\'' || c == '"' || c == '`'
}

/// Whether two characters stand at position `i`.
pub open spec fn pair_at(text: Seq<char>, i: int, a: char, b: char) -> bool {
    i + 1 < text.len() && text[i] == a && text[i + 1] == b
}

/// The code of a text from position `i` on, which is in some region: what is in quotes is left out,
/// and a comment is a blank.
pub open spec fn code_from(text: Seq<char>, i: int, region: Region) -> Seq<char>
    decreases text.len() - i,
{
    if i >= text.len() {
        Seq::empty()
    } else {
        match region {
            Region::Code => if is_quote(text[i]) {
                seq![text[i]] + code_from(text, i + 1, Region::Quoted(text[i]))
            } else if pair_at(text, i, '-', '-') {
                seq![' '] + code_from(text, i + 2, Region::Line)
            } else if pair_at(text, i, '/', '/') {
                seq!['/'] + code_from(text, i + 2, Region::Code)
            } else if pair_at(text, i, '/', '*') {
                seq![' '] + code_from(text, i + 2, Region::Block(1))
            } else {
                seq![text[i]] + code_from(text, i + 1, Region::Code)
            },
            Region::Quoted(q) => if text[i] == q {
                seq![q] + code_from(text, i + 1, Region::Code)
            } else {
                code_from(text, i + 1, Region::Quoted(q))
            },
            Region::Line => if text[i] == '\n' {
                code_from(text, i + 1, Region::Code)
            } else {
                code_from(text, i + 1, Region::Line)
            },
            Region::Block(depth) => if pair_at(text, i, '/', '*') {
                code_from(text, i + 2, Region::Block((depth + 1) as u64))
            } else if pair_at(text, i, '*', '/') {
                if depth <= 1 {
                    code_from(text, i + 2, Region::Code)
                } else {
                    code_from(text, i + 2, Region::Block((depth - 1) as u64))
                }
            } else {
                code_from(text, i + 1, Region::Block(depth))
            },
        }
    }
}

/// Whether a character makes it hard to tell where a literal or a comment is: it escapes a
/// quotation mark, quotes by itself, or takes a sign behind it for its own.
pub open spec fn is_tricky(c: char) -> bool {
    c == '\\' || c == '$' || c == '@' || c == '#' || c == '|'
}

/// Whether three quotation marks of a kind stand at position `i`, which may open a literal of their
/// own.
pub open spec fn tripled_at(text: Seq<char>, i: int) -> bool {
    &&& i + 2 < text.len()
    &&& text[i] == '\'' || text[i] == '"'
    &&& text[i] == text[i + 1] == text[i + 2]
}

/// Whether it is plain where the literals and comments of a text are.
pub open spec fn is_plain(text: Seq<char>) -> bool {
    forall|i: int|
        0 <= i < text.len() ==> !is_tricky(#[trigger] text[i]) && !tripled_at(text, i)
}

/// The code of a text, without what is in quotes or in a comment; all of the text where it is not
/// plain where those are.
pub open spec fn code_of(text: Seq<char>) -> Seq<char> {
    if is_plain(text) {
        code_from(text, 0, Region::Code)
    } else {
        text
    }
}

/// Whether a text can be handed to the parser. `sqlparser` takes the name behind `GRANTED BY` and
/// behind `FOR CHANNEL` for granted and panics where none stands there. So a text whose code holds
/// the keywords of such a statement, in their order and in any case, is handed to it only where a
/// plain name follows wherever the last keyword stands.
pub open spec fn parseable(sql: Seq<char>) -> bool {
    let text = uppercase(code_of(sql));
    &&& in_order(text, 0, grant_words(), 0) ==> !stands_unnamed(text, "BY"@)
    &&& in_order(text, 0, revoke_words(), 0) ==> !stands_unnamed(text, "BY"@)
    &&& in_order(text, 0, flush_words(), 0) ==> !stands_unnamed(text, "CHANNEL"@)
}

/// The name of what `Parser::parse_sql` makes of a text in the generic dialect: its statements,
/// or the message with which it refuses the text.
pub uninterp spec fn sql_outcome(sql: Seq<char>) -> Result<
    Seq<sqlparser::ast::Statement>,
    Seq<char>,
>;

/// Calls `Parser::parse_sql` with `GenericDialect`. What comes back depends on the text alone.
/// The function panics where a `GRANTED BY` of a `GRANT` or a `REVOKE`, or a `FOR CHANNEL` of a
/// `FLUSH RELAY LOGS`, has no name behind it: [`parseable`] leaves such texts out. A keyword is
/// recognised by the upper-case form of a word; what is in quotes or in a comment is none.
#[verifier::external_body]
fn parse_sql(sql: &str) -> (r: Result<Vec<sqlparser::ast::Statement>, String>)
    requires
        parseable(sql@),
    ensures
        match r {
            Ok(v) => sql_outcome(sql@) == Ok::<Seq<sqlparser::ast::Statement>, Seq<char>>(v@),
            Err(m) => sql_outcome(sql@) == Err::<Seq<sqlparser::ast::Statement>, Seq<char>>(m@),
        },
{
    Parser::parse_sql(&GenericDialect {}, sql).map_err(|e| format!("{e}"))
}

/// What stands in order behind a position stands in order behind an earlier one.
proof fn lemma_in_order_earlier(text: Seq<char>, a: int, b: int, words: Seq<Seq<char>>, k: int)
    requires
        a <= b,
        in_order(text, b, words, k),
    ensures
        in_order(text, a, words, k),
{
    if k < words.len() {
        let i = choose|i: int|
            b <= i && #[trigger] stands_at(text, words[k], i) && in_order(
                text,
                i + words[k].len(),
                words,
                k + 1,
            );
        assert(a <= i && stands_at(text, words[k], i) && in_order(
            text,
            i + words[k].len(),
            words,
            k + 1,
        ));
    }
}

/// Whether `word` stands in `text` at position `i`.
fn is_at(text: &Vec<char>, word: &str, i: usize) -> (r: bool)
    requires
        i <= text@.len(),
    ensures
        r == stands_at(text@, word@, i as int),
{
    let cs: Vec<char> = chars_of(word);
    let n: usize = text.len();
    if cs.len() > n - i {
        return false;
    }
    let mut j: usize = 0;
    while j < cs.len()
        invariant
            j <= cs@.len(),
            cs@ == word@,
            i + cs@.len() <= n,
            n == text@.len(),
            forall|x: int| 0 <= x < j ==> text@[i + x] == word@[x],
        decreases cs@.len() - j,
    {
        if text[i + j] != cs[j] {
            assert(text@.subrange(i as int, i + word@.len())[j as int] != word@[j as int]);
            return false;
        }
        j += 1;
    }
    assert(text@.subrange(i as int, i + word@.len()) =~= word@);
    true
}

/// Whether `words` stand in `text` one behind the other.
fn holds_in_order(text: &Vec<char>, words: &Vec<&str>) -> (r: bool)
    ensures
        r == in_order(text@, 0, words@.map_values(|w: &str| w@), 0),
{
    let ghost ws = words@.map_values(|w: &str| w@);
    let mut k: usize = 0;
    let mut from: usize = 0;
    while k < words.len()
        invariant
            k <= words@.len(),
            from <= text@.len(),
            ws == words@.map_values(|w: &str| w@),
            in_order(text@, 0, ws, 0) == in_order(text@, from as int, ws, k as int),
        decreases words@.len() - k,
    {
        let word: &str = words[k];
        let mut i: usize = from;
        assert(ws[k as int] == word@);
        while i < text.len() && !is_at(text, word, i)
            invariant
                from <= i <= text@.len(),
                forall|x: int| from <= x < i ==> !#[trigger] stands_at(text@, word@, x),
            decreases text@.len() - i,
        {
            i += 1;
        }
        if !is_at(text, word, i) {
            assert forall|x: int| from <= x implies !#[trigger] stands_at(text@, word@, x) by {}
            return false;
        }
        let ghost after = i + word@.len();
        proof {
            if in_order(text@, from as int, ws, k as int) {
                let x = choose|x: int|
                    from <= x && #[trigger] stands_at(text@, ws[k as int], x) && in_order(
                        text@,
                        x + ws[k as int].len(),
                        ws,
                        k + 1,
                    );
                lemma_in_order_earlier(text@, after, x + word@.len(), ws, k + 1);
            }
            if in_order(text@, after, ws, k + 1) {
                assert(from <= i && stands_at(text@, ws[k as int], i as int));
            }
        }
        from = i + chars_of(word).len();
        k += 1;
    }
    true
}

fn skip_blanks(text: &Vec<char>, from: usize) -> (r: usize)
    requires
        from <= text@.len(),
    ensures
        r == after_blanks(text@, from as int),
        from <= r <= text@.len(),
{
    let mut i: usize = from;
    while i < text.len() && (text[i] == ' ' || text[i] == '\t' || text[i] == '\n' || text[i]
        == '\r')
        invariant
            from <= i <= text@.len(),
            after_blanks(text@, from as int) == after_blanks(text@, i as int),
        decreases text@.len() - i,
    {
        i += 1;
    }
    i
}

fn skip_name(text: &Vec<char>, from: usize) -> (r: usize)
    requires
        from <= text@.len(),
    ensures
        r == after_name(text@, from as int),
        from <= r <= text@.len(),
{
    let mut i: usize = from;
    while i < text.len() && ('A' <= text[i] && text[i] <= 'Z' || '0' <= text[i] && text[i] <= '9'
        || text[i] == '_')
        invariant
            from <= i <= text@.len(),
            after_name(text@, from as int) == after_name(text@, i as int),
        decreases text@.len() - i,
    {
        i += 1;
    }
    i
}

/// Whether white space and a plain name stand at position `i`, and the statement ends behind them.
fn has_name(text: &Vec<char>, i: usize) -> (r: bool)
    requires
        i <= text@.len(),
    ensures
        r == name_stands(text@, i as int),
{
    let start: usize = skip_blanks(text, i);
    let end: usize = skip_name(text, start);
    let rest: usize = skip_blanks(text, end);
    i < start && start < end && !('0' <= text[start] && text[start] <= '9') && (rest >= text.len()
        || text[rest] == ';')
}

/// Whether a word stands somewhere in a text without a plain name behind it.
fn is_unnamed(text: &Vec<char>, word: &str) -> (r: bool)
    ensures
        r == stands_unnamed(text@, word@),
{
    let len: usize = chars_of(word).len();
    let n: usize = text.len();
    let mut i: usize = 0;
    loop
        invariant
            i <= n,
            n == text@.len(),
            len == word@.len(),
            forall|x: int| 0 <= x < i && #[trigger] stands_at(text@, word@, x) ==> name_stands(
                text@,
                x + word@.len(),
            ),
        decreases n - i,
    {
        if is_at(text, word, i) && !has_name(text, i + len) {
            assert(stands_at(text@, word@, i as int));
            return true;
        }
        if i == n {
            return false;
        }
        i += 1;
    }
}

/// Tells whether it is plain where the literals and comments of a text are.
fn has_plain_quotes(text: &Vec<char>) -> (r: bool)
    ensures
        r == is_plain(text@),
{
    let n: usize = text.len();
    let mut i: usize = 0;
    while i < n
        invariant
            i <= n,
            n == text@.len(),
            forall|k: int|
                0 <= k < i ==> !is_tricky(#[trigger] text@[k]) && !tripled_at(text@, k),
        decreases n - i,
    {
        let c: char = text[i];
        let tricky: bool = c == '\\' || c == '$' || c == '@' || c == '#' || c == '|';
        let tripled: bool = n - i > 2 && (c == '\'' || c == '"') && text[i + 1] == c && text[i + 2]
            == c;
        if tricky || tripled {
            assert(is_tricky(text@[i as int]) || tripled_at(text@, i as int));
            return false;
        }
        i += 1;
    }
    true
}

/// The code of a text, without what is in quotes or in a comment.
fn plain_code(text: &Vec<char>) -> (r: Vec<char>)
    ensures
        r@ == code_from(text@, 0, Region::Code),
{
    let n: usize = text.len();
    let mut out: Vec<char> = Vec::new();
    let mut region: Region = Region::Code;
    let mut i: usize = 0;
    while i < n
        invariant
            i <= n,
            n == text@.len(),
            region is Block ==> region->Block_0 <= i,
            out@ + code_from(text@, i as int, region) =~= code_from(text@, 0, Region::Code),
        decreases n - i,
    {
        let c: char = text[i];
        let paired: bool = n - i > 1;
        let next: char = if paired { text[i + 1] } else { c };
        match region {
            Region::Code => {
                if c == '\'' || c == '"' || c == '`' {
                    out.push(c);
                    region = Region::Quoted(c);
                    i += 1;
                } else if paired && c == '-' && next == '-' {
                    out.push(' ');
                    region = Region::Line;
                    i += 2;
                } else if paired && c == '/' && next == '/' {
                    out.push('/');
                    i += 2;
                } else if paired && c == '/' && next == '*' {
                    out.push(' ');
                    region = Region::Block(1);
                    i += 2;
                } else {
                    out.push(c);
                    i += 1;
                }
            }
            Region::Quoted(q) => {
                if c == q {
                    out.push(q);
                    region = Region::Code;
                }
                i += 1;
            }
            Region::Line => {
                if c == '\n' {
                    region = Region::Code;
                }
                i += 1;
            }
            Region::Block(depth) => {
                if paired && c == '/' && next == '*' {
                    region = Region::Block(depth + 1);
                    i += 2;
                } else if paired && c == '*' && next == '/' {
                    region = if depth <= 1 { Region::Code } else { Region::Block(depth - 1) };
                    i += 2;
                } else {
                    i += 1;
                }
            }
        }
    }
    assert(out@ + Seq::<char>::empty() =~= out@);
    out
}

/// Whether a text can be handed to the parser.
pub fn is_parseable(sql: &str) -> (r: bool)
    ensures
        r == parseable(sql@),
{
    let all: Vec<char> = chars_of(sql);
    let code: Vec<char> = if has_plain_quotes(&all) { plain_code(&all) } else { all };
    let text: Vec<char> = chars_of(to_uppercase(string_of(code.as_slice()).as_str()).as_str());
    let grant: Vec<&str> = vec!["GRANT", "GRANTED", "BY"];
    let revoke: Vec<&str> = vec!["REVOKE", "GRANTED", "BY"];
    let flush: Vec<&str> = vec!["FLUSH", "RELAY", "LOGS", "FOR", "CHANNEL"];
    assert(grant@.map_values(|w: &str| w@) =~= grant_words());
    assert(revoke@.map_values(|w: &str| w@) =~= revoke_words());
    assert(flush@.map_values(|w: &str| w@) =~= flush_words());
    if (holds_in_order(&text, &grant) || holds_in_order(&text, &revoke)) && is_unnamed(
        &text,
        "BY",
    ) {
        return false;
    }
    !(holds_in_order(&text, &flush) && is_unnamed(&text, "CHANNEL"))
}

/// The statements of a text, or the error for a text that is no SQL.
pub fn parsed<T>(outcome: Result<T, String>) -> (r: DbResult<T>)
    ensures
        match outcome {
            Ok(v) => r == Ok::<T, Error>(v),
            Err(m) => r is Err && r->Err_0@ == ErrorModel::Sql(SqlState::ParseError, m@),
        },
{
    match outcome {
        Ok(v) => Ok(v),
        Err(m) => Err(sql_error(SqlState::ParseError, m)),
    }
}

/// Whether `r` is what comes of parsing a text: the parser's statements, or its message as an
/// error.
pub open spec fn is_parsed(sql: Seq<char>, r: DbResult<Vec<sqlparser::ast::Statement>>) -> bool {
    match sql_outcome(sql) {
        Ok(statements) => r is Ok && r->Ok_0@ == statements,
        Err(message) => r is Err && r->Err_0@ == ErrorModel::Sql(SqlState::ParseError, message),
    }
}

/// The statements of a text.
pub fn parse(sql: &str) -> (r: DbResult<Vec<sqlparser::ast::Statement>>)
    requires
        parseable(sql@),
    ensures
        is_parsed(sql@, r),
{
    parsed(parse_sql(sql))
}

/// The statements of a text, or nothing for a text that cannot be handed to the parser.
pub fn parse_checked(sql: &str) -> (r: Option<DbResult<Vec<sqlparser::ast::Statement>>>)
    ensures
        r is Some <==> parseable(sql@),
        r is Some ==> is_parsed(sql@, r->Some_0),
{
    if is_parseable(sql) {
        Some(parse(sql))
    } else {
        None
    }
}

} // verus!
