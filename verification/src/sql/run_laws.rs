//! Which texts are parsed, and what each kind of statement leaves as it is.

use vstd::prelude::*;
use crate::catalog::cache::CacheModel;
use crate::error::{DbResult, ErrorModel, SqlState};
use crate::sql::ast::Command;
use crate::sql::executor::outcome;
use crate::sql::parser::{code_from, code_of, flush_words, grant_words, in_order, is_plain, is_quote,
    parseable, revoke_words, stands_at, Region};
use crate::sql::types::ResultSet;
use crate::storage::tablespace::TsmModel;
use crate::text::uppercase;

verus! {

// ── Texts ──

/// Whether a text has no quotation mark and no sign that opens a comment.
pub open spec fn is_bare(text: Seq<char>) -> bool {
    forall|i: int|
        0 <= i < text.len() ==> !is_quote(#[trigger] text[i]) && text[i] != '-' && text[i] != '/'
}

proof fn lemma_bare(text: Seq<char>, i: int, end: int, rest: Seq<char>)
    requires
        0 <= i <= end <= text.len(),
        forall|k: int|
            i <= k < end ==> !is_quote(#[trigger] text[k]) && text[k] != '-' && text[k] != '/',
        code_from(text, end, Region::Code) == rest,
    ensures
        code_from(text, i, Region::Code) == text.subrange(i, end) + rest,
    decreases end - i,
{
    if i < end {
        lemma_bare(text, i + 1, end, rest);
        assert(text.subrange(i, end) =~= seq![text[i]] + text.subrange(i + 1, end));
        assert(seq![text[i]] + (text.subrange(i + 1, end) + rest) =~= text.subrange(i, end) + rest);
    } else {
        assert(text.subrange(i, end) + rest =~= rest);
    }
}

/// A text without quotes and comments is all code.
pub proof fn law_bare_text_is_all_code(text: Seq<char>)
    requires
        is_bare(text),
    ensures
        code_of(text) == text,
{
    if is_plain(text) {
        let n = text.len() as int;
        lemma_bare(text, 0, n, Seq::empty());
        assert(text.subrange(0, n) + Seq::<char>::empty() =~= text);
    }
}

proof fn lemma_quoted(text: Seq<char>, i: int, end: int, q: char)
    requires
        0 <= i <= end < text.len(),
        text[end] == q,
        forall|k: int| i <= k < end ==> #[trigger] text[k] != q,
    ensures
        code_from(text, i, Region::Quoted(q)) == seq![q] + code_from(text, end + 1, Region::Code),
    decreases end - i,
{
    if i < end {
        lemma_quoted(text, i + 1, end, q);
    }
}

/// What stands between quotation marks is no code, whatever it is.
pub proof fn law_quoted_text_is_no_code(a: Seq<char>, q: char, b: Seq<char>, c: Seq<char>)
    requires
        is_bare(a),
        is_bare(c),
        is_quote(q),
        forall|k: int| 0 <= k < b.len() ==> #[trigger] b[k] != q,
        is_plain(a + seq![q] + b + seq![q] + c),
    ensures
        code_of(a + seq![q] + b + seq![q] + c) == a + seq![q, q] + c,
{
    let text = a + seq![q] + b + seq![q] + c;
    let n = text.len() as int;
    let open = a.len() as int;
    let close = open + 1 + b.len();
    assert(text[open] == q && text[close] == q);
    assert forall|k: int| close < k < n implies !is_quote(#[trigger] text[k]) && text[k] != '-'
        && text[k] != '/' by {
        assert(text[k] == c[k - close - 1]);
    }
    lemma_bare(text, close + 1, n, Seq::empty());
    assert forall|k: int| open < k < close implies #[trigger] text[k] != q by {
        assert(text[k] == b[k - open - 1]);
    }
    lemma_quoted(text, open + 1, close, q);
    assert forall|k: int| 0 <= k < open implies !is_quote(#[trigger] text[k]) && text[k] != '-'
        && text[k] != '/' by {
        assert(text[k] == a[k]);
    }
    let rest = code_from(text, open, Region::Code);
    lemma_bare(text, 0, open, rest);
    assert(text.subrange(0, open) =~= a);
    assert(text.subrange(close + 1, n) =~= c);
    assert(a + rest =~= a + seq![q, q] + c);
}

/// Whether a word stands nowhere in a text.
pub open spec fn has_no(text: Seq<char>, word: Seq<char>) -> bool {
    forall|i: int| !#[trigger] stands_at(text, word, i)
}

/// A text whose code has none of the words `GRANT`, `REVOKE` and `FLUSH`, in any case, is handed to
/// the parser.
pub proof fn law_other_statements_are_parsed(sql: Seq<char>)
    requires
        has_no(uppercase(code_of(sql)), "GRANT"@),
        has_no(uppercase(code_of(sql)), "REVOKE"@),
        has_no(uppercase(code_of(sql)), "FLUSH"@),
    ensures
        parseable(sql),
{
    let text = uppercase(code_of(sql));
    assert(grant_words()[0] == "GRANT"@);
    assert(revoke_words()[0] == "REVOKE"@);
    assert(flush_words()[0] == "FLUSH"@);
    assert(!in_order(text, 0, grant_words(), 0));
    assert(!in_order(text, 0, revoke_words(), 0));
    assert(!in_order(text, 0, flush_words(), 0));
}

// ── Statements ──

/// A query changes nothing; what changes rows leaves the catalog as it is; and a statement of
/// another kind is refused by its text and changes nothing.
pub proof fn law_statements_change_what_they_are_for(
    s: Command,
    c: CacheModel,
    t: TsmModel,
    c2: CacheModel,
    t2: TsmModel,
    disk: Seq<nat>,
    r: DbResult<ResultSet>,
)
    requires
        outcome(s, c, t, c2, t2, disk, r),
    ensures
        s is Query ==> c2 == c && t2 == t,
        s is Insert || s is Delete || s is Update ==> c2 == c,
        s matches Command::Other(text) ==> {
            &&& c2 == c
            &&& t2 == t
            &&& r matches Err(e) && e@ == ErrorModel::Sql(
                SqlState::FeatureNotSupported,
                "unsupported statement: "@ + text@,
            )
        },
{
}

} // verus!
