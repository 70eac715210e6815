//! What the types of columns mean: their names, what they hold, and how much.

use vstd::prelude::*;
use crate::catalog::types::ColumnDef;
use crate::error::{ErrorModel, SqlState};
use crate::sql::ast::{CharLength, SqlType};
use crate::sql::eval::{base_type, data_size, is_row_type, law_declared_length_counts,
    law_value_round_trip, read_value, row_size, sized_type, stored_value, type_text};
use crate::sql::types::ValueModel;
use crate::text::{digits10, lemma_split_tail, split_parts};

verus! {

// ── Names ──

/// The catalog lists each type under a name of its own, which is written here: the declared one,
/// with `INT` for `INTEGER`, `DOUBLE PRECISION` for `DOUBLE`, `CHARACTER` for `CHAR` and `CHAR(1)`
/// for `BOOLEAN`.
pub proof fn law_type_is_listed_by_its_name(t: SqlType)
    ensures
        t is SmallInt ==> type_text(t) == Ok::<Seq<char>, ErrorModel>("SMALLINT"@),
        t is Int || t is Integer ==> type_text(t) == Ok::<Seq<char>, ErrorModel>("INTEGER"@),
        t is BigInt ==> type_text(t) == Ok::<Seq<char>, ErrorModel>("BIGINT"@),
        t is Double || t is DoublePrecision ==> type_text(t) == Ok::<Seq<char>, ErrorModel>(
            "DOUBLE"@,
        ),
        t is Timestamp ==> type_text(t) == Ok::<Seq<char>, ErrorModel>("TIMESTAMP"@),
        t is Boolean ==> type_text(t) == Ok::<Seq<char>, ErrorModel>("CHAR(1)"@),
        t is Other ==> type_text(t) is Err && type_text(t)->Err_0 is Sql
            && type_text(t)->Err_0->Sql_0 == SqlState::FeatureNotSupported,
{
}

/// The length that a type of texts is declared with, if it is.
pub open spec fn written_length(t: SqlType) -> Option<CharLength> {
    match t {
        SqlType::Varchar(n) => n,
        SqlType::Char(n) => n,
        SqlType::Character(n) => n,
        _ => None,
    }
}

/// A type of texts is listed with its declared length, from 1 to 32672; without one a `VARCHAR` has
/// 255 and a `CHAR` has 1. Any other length is refused.
pub proof fn law_type_of_texts_keeps_its_length(t: SqlType, n: u64)
    requires
        t is Varchar || t is Char || t is Character,
    ensures
        written_length(t) == Some(CharLength::Integer(n)) ==> {
            &&& type_text(t) is Ok <==> 1 <= n <= 32672
            &&& type_text(t) is Ok && t is Varchar ==> type_text(t)->Ok_0 == "VARCHAR("@ + digits10(
                n as nat,
            ) + ")"@
            &&& type_text(t) is Ok && !(t is Varchar) ==> type_text(t)->Ok_0 == "CHAR("@ + digits10(
                n as nat,
            ) + ")"@
            &&& type_text(t) is Err ==> type_text(t)->Err_0 is Sql && type_text(t)->Err_0->Sql_0
                == SqlState::InvalidColumnLength
        },
        !(written_length(t) matches Some(CharLength::Integer(_))) ==> {
            &&& t is Varchar ==> type_text(t) == Ok::<Seq<char>, ErrorModel>("VARCHAR(255)"@)
            &&& !(t is Varchar) ==> type_text(t) == Ok::<Seq<char>, ErrorModel>("CHAR(1)"@)
        },
{
    reveal_strlit("VARCHAR");
    reveal_strlit("VARCHAR(");
    reveal_strlit("CHAR");
    reveal_strlit("CHAR(");
    reveal_strlit("(");
    reveal_strlit(")");
    reveal_strlit("VARCHAR(255)");
    reveal_strlit("CHAR(1)");
    assert("VARCHAR"@ + "("@ =~= "VARCHAR("@);
    assert("CHAR"@ + "("@ =~= "CHAR("@);
    reveal_with_fuel(digits10, 4);
    assert(digits10(255) =~= seq!['2', '5', '5']);
    assert(digits10(1) =~= seq!['1']);
    assert(sized_type("VARCHAR"@, 255) =~= "VARCHAR(255)"@);
    assert(sized_type("CHAR"@, 1) =~= "CHAR(1)"@);
}

/// What tells types apart: the first letter of the name and, for texts, the length.
pub open spec fn sort_of(t: SqlType) -> (char, nat) {
    match t {
        SqlType::SmallInt => ('S', 0),
        SqlType::Int | SqlType::Integer => ('I', 0),
        SqlType::BigInt => ('B', 0),
        SqlType::Double | SqlType::DoublePrecision => ('D', 0),
        SqlType::Timestamp => ('T', 0),
        SqlType::Boolean => ('C', 1),
        SqlType::Varchar(Some(CharLength::Integer(n))) => ('V', n as nat),
        SqlType::Varchar(_) => ('V', 255),
        SqlType::Char(Some(CharLength::Integer(n))) => ('C', n as nat),
        SqlType::Char(_) => ('C', 1),
        SqlType::Character(Some(CharLength::Integer(n))) => ('C', n as nat),
        SqlType::Character(_) => ('C', 1),
        SqlType::Other(_) => ('?', 0),
    }
}

/// What a type is listed as, without its length, and what it holds.
proof fn lemma_listed(t: SqlType)
    requires
        type_text(t) is Ok,
    ensures
        type_text(t)->Ok_0.len() > 0,
        type_text(t)->Ok_0[0] == sort_of(t).0,
        sort_of(t).0 == 'S' ==> type_text(t)->Ok_0 == "SMALLINT"@ && base_type(type_text(t)->Ok_0)
            == "SMALLINT"@,
        sort_of(t).0 == 'I' ==> type_text(t)->Ok_0 == "INTEGER"@ && base_type(type_text(t)->Ok_0)
            == "INTEGER"@,
        sort_of(t).0 == 'B' ==> type_text(t)->Ok_0 == "BIGINT"@ && base_type(type_text(t)->Ok_0)
            == "BIGINT"@,
        sort_of(t).0 == 'D' ==> type_text(t)->Ok_0 == "DOUBLE"@ && base_type(type_text(t)->Ok_0)
            == "DOUBLE"@,
        sort_of(t).0 == 'T' ==> type_text(t)->Ok_0 == "TIMESTAMP"@ && base_type(
            type_text(t)->Ok_0,
        ) == "TIMESTAMP"@,
        sort_of(t).0 == 'C' ==> type_text(t)->Ok_0 == sized_type("CHAR"@, sort_of(t).1)
            && base_type(type_text(t)->Ok_0) == "CHAR"@ && data_size(type_text(t)->Ok_0)
            == sort_of(t).1,
        sort_of(t).0 == 'V' ==> type_text(t)->Ok_0 == sized_type("VARCHAR"@, sort_of(t).1)
            && base_type(type_text(t)->Ok_0) == "VARCHAR"@ && data_size(type_text(t)->Ok_0)
            == sort_of(t).1,
{
    reveal_strlit("SMALLINT");
    reveal_strlit("INTEGER");
    reveal_strlit("BIGINT");
    reveal_strlit("DOUBLE");
    reveal_strlit("TIMESTAMP");
    reveal_strlit("CHAR");
    reveal_strlit("VARCHAR");
    law_type_is_listed_by_its_name(t);
    if t is Varchar || t is Char || t is Character || t is Boolean {
        if !(t is Boolean) {
            law_type_of_texts_keeps_its_length(t, sort_of(t).1 as u64);
        }
        law_type_of_texts_keeps_its_length(SqlType::Char(None), 1);
        let kind = if t is Varchar {
            "VARCHAR"@
        } else {
            "CHAR"@
        };
        assert(type_text(t)->Ok_0 == sized_type(kind, sort_of(t).1));
        law_declared_length_counts(kind, sort_of(t).1);
        assert(type_text(t)->Ok_0[0] == kind[0]);
    } else {
        lemma_no_brackets(type_text(t)->Ok_0);
    }
}

/// A name without a bracket is that of the type.
proof fn lemma_no_brackets(s: Seq<char>)
    requires
        forall|i: int| 0 <= i < s.len() ==> s[i] != '(',
    ensures
        base_type(s) == s,
{
    let none = Seq::<char>::empty();
    lemma_split_tail(none, s, '(');
    assert(none + s =~= s);
    assert(split_parts(none, '(') =~= seq![none]);
    assert(split_parts(s, '(') =~= seq![s]);
}

/// Types that are not the same get different names: two types are listed under one name if and only
/// if they are synonyms of the same length.
pub proof fn law_types_are_told_apart(a: SqlType, b: SqlType)
    requires
        type_text(a) is Ok,
        type_text(b) is Ok,
    ensures
        type_text(a) == type_text(b) <==> sort_of(a) == sort_of(b),
{
    lemma_listed(a);
    lemma_listed(b);
}

// ── What a column holds ──

/// What a column holds and gives back, for each declared type. A `SMALLINT` holds the numbers of 16
/// bits and an `INTEGER` those of 32 bits, whatever type they come in, and no text; a `CHAR` or
/// `VARCHAR` holds texts alone. What is read back is the same amount, in the type of the column, or
/// the same text. `NULL` is held by none, and nothing by a column of any other type.
pub proof fn law_column_holds_its_type(t: SqlType, col: ColumnDef, v: ValueModel)
    requires
        type_text(t) is Ok,
        col.typename == type_text(t)->Ok_0,
    ensures
        v is Null ==> fails_with(stored_value(v, col), SqlState::NotNullViolation),
        t is SmallInt ==> (v.number() matches Some(n) ==> {
            &&& stored_value(v, col) is Ok <==> -0x8000 <= n <= 0x7fff
            &&& stored_value(v, col) is Err ==> fails_with(
                stored_value(v, col),
                SqlState::NumericValueOutOfRange,
            )
            &&& stored_value(v, col) is Ok ==> read_value(
                stored_value(v, col)->Ok_0,
                base_type(col.typename),
            ) == Ok::<ValueModel, ErrorModel>(ValueModel::SmallInt(n as i16))
        }),
        t is Int || t is Integer ==> (v.number() matches Some(n) ==> {
            &&& stored_value(v, col) is Ok <==> -0x8000_0000 <= n <= 0x7fff_ffff
            &&& stored_value(v, col) is Err ==> fails_with(
                stored_value(v, col),
                SqlState::NumericValueOutOfRange,
            )
            &&& stored_value(v, col) is Ok ==> read_value(
                stored_value(v, col)->Ok_0,
                base_type(col.typename),
            ) == Ok::<ValueModel, ErrorModel>(ValueModel::Integer(n as i32))
        }),
        (t is SmallInt || t is Int || t is Integer) && (v is Str || v is Bool) ==> fails_with(
            stored_value(v, col),
            SqlState::AssignmentError,
        ),
        (t is Varchar || t is Char || t is Character || t is Boolean) && !(v is Null) ==> {
            &&& stored_value(v, col) is Ok <==> v is Str
            &&& stored_value(v, col) is Err ==> fails_with(
                stored_value(v, col),
                SqlState::AssignmentError,
            )
            &&& stored_value(v, col) is Ok ==> read_value(
                stored_value(v, col)->Ok_0,
                base_type(col.typename),
            ) == Ok::<ValueModel, ErrorModel>(v)
        },
        (t is BigInt || t is Double || t is DoublePrecision || t is Timestamp) && !(v is Null)
            ==> fails_with(stored_value(v, col), SqlState::AssignmentError) && !is_row_type(
            base_type(col.typename),
        ),
{
    lemma_listed(t);
    reveal_strlit("SMALLINT");
    reveal_strlit("INTEGER");
    reveal_strlit("BIGINT");
    reveal_strlit("DOUBLE");
    reveal_strlit("TIMESTAMP");
    reveal_strlit("CHAR");
    reveal_strlit("VARCHAR");
    assert("SMALLINT"@[0] == 'S' && "INTEGER"@[0] == 'I' && "BIGINT"@[0] == 'B' && "DOUBLE"@[0]
        == 'D' && "TIMESTAMP"@[0] == 'T' && "CHAR"@[0] == 'C' && "VARCHAR"@[0] == 'V');
    if stored_value(v, col) is Ok {
        law_value_round_trip(v, col);
    }
}

/// Whether something failed with an error of a state.
pub open spec fn fails_with<T>(r: Result<T, ErrorModel>, state: SqlState) -> bool {
    r is Err && r->Err_0 is Sql && r->Err_0->Sql_0 == state
}

// ── Sizes ──

/// How many bytes a value of each declared type is reckoned with.
pub proof fn law_type_has_its_size(t: SqlType)
    requires
        type_text(t) is Ok,
    ensures
        t is SmallInt ==> data_size(type_text(t)->Ok_0) == 2,
        t is Int || t is Integer ==> data_size(type_text(t)->Ok_0) == 4,
        t is BigInt || t is Double || t is DoublePrecision ==> data_size(type_text(t)->Ok_0) == 8,
        t is Timestamp ==> data_size(type_text(t)->Ok_0) == 33,
        t is Boolean ==> data_size(type_text(t)->Ok_0) == 1,
        written_length(t) matches Some(CharLength::Integer(n)) ==> data_size(type_text(t)->Ok_0)
            == n,
        t is Varchar && !(written_length(t) matches Some(CharLength::Integer(_))) ==> data_size(
            type_text(t)->Ok_0,
        ) == 255,
        (t is Char || t is Character) && !(written_length(t) matches Some(CharLength::Integer(_)))
            ==> data_size(type_text(t)->Ok_0) == 1,
{
    lemma_listed(t);
    reveal_strlit("SMALLINT");
    reveal_strlit("INTEGER");
    reveal_strlit("BIGINT");
    reveal_strlit("DOUBLE");
    reveal_strlit("TIMESTAMP");
    assert("SMALLINT"@[0] == 'S' && "INTEGER"@[0] == 'I' && "BIGINT"@[0] == 'B' && "DOUBLE"@[0]
        == 'D' && "TIMESTAMP"@[0] == 'T');
}

/// A value of a type of any other name is reckoned with 255 bytes.
pub proof fn law_other_types_count_255(t: Seq<char>)
    requires
        base_type(t) != "SMALLINT"@,
        base_type(t) != "INTEGER"@,
        base_type(t) != "BIGINT"@,
        base_type(t) != "DOUBLE"@,
        base_type(t) != "TIMESTAMP"@,
        base_type(t) != "CHAR"@,
        base_type(t) != "VARCHAR"@,
    ensures
        data_size(t) == 255,
{
}

/// One column more makes a row larger by the bytes of its type and eight for their number.
pub proof fn law_column_adds_its_size(cols: Seq<ColumnDef>, col: ColumnDef)
    ensures
        row_size(Seq::empty(), 0) == 0,
        row_size(cols.push(col), cols.push(col).len() as int) == row_size(cols, cols.len() as int)
            + 8 + data_size(col.typename),
{
    lemma_front_size(cols, col, cols.len() as int);
}

proof fn lemma_front_size(cols: Seq<ColumnDef>, col: ColumnDef, n: int)
    requires
        n <= cols.len(),
    ensures
        row_size(cols.push(col), n) == row_size(cols, n),
    decreases n,
{
    if n > 0 {
        lemma_front_size(cols, col, n - 1);
        assert(cols.push(col)[n - 1] == cols[n - 1]);
    }
}

} // verus!
