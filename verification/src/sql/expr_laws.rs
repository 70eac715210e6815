//! What literals, expressions and conditions mean.

use vstd::prelude::*;
use crate::catalog::cache::{index_of, lemma_index_of};
use crate::error::{ErrorModel, SqlState};
use crate::sql::ast::{BinaryOp, Expr, ExprKind, Literal};
use crate::sql::eval::{column_at, equal_values, expr_value, literal_value, negatable, negated,
    no_column, where_value};
use crate::sql::types::ValueModel;
use crate::text::{digits10, digits_value, is_digit, law_digits_are_read,
    law_other_texts_are_no_numbers, lemma_digits10, uppercase};

verus! {

// ── Values ──

/// The amount of a number is the number, whatever its type; nothing else has an amount.
pub proof fn law_numbers_have_their_amount(a: i16, b: i32, c: i64, s: Seq<char>, f: bool)
    ensures
        ValueModel::SmallInt(a).number() == Some(a as int),
        ValueModel::Integer(b).number() == Some(b as int),
        ValueModel::BigInt(c).number() == Some(c as int),
        ValueModel::Str(s).number() is None,
        ValueModel::Bool(f).number() is None,
        ValueModel::Null.number() is None,
{
}

/// Two numbers are equal if and only if their amounts are, whatever their types; two texts or two
/// flags if and only if they are the same; values of different sorts never are.
pub proof fn law_equality_compares_amounts(a: ValueModel, b: ValueModel)
    ensures
        a.number() is Some && b.number() is Some ==> (equal_values(a, b) <==> a.number()->0
            == b.number()->0),
        a is Str && b is Str ==> (equal_values(a, b) <==> a->Str_0 == b->Str_0),
        a is Bool && b is Bool ==> (equal_values(a, b) <==> a->Bool_0 == b->Bool_0),
        a.number() is Some != b.number() is Some ==> !equal_values(a, b),
        a is Str != b is Str ==> !equal_values(a, b),
        a is Bool != b is Bool ==> !equal_values(a, b),
        a is Null || b is Null ==> !equal_values(a, b),
{
}

// ── Literals ──

/// Whether an expression is the number that some characters spell.
pub open spec fn is_number(e: Expr, digits: Seq<char>) -> bool {
    match e.kind {
        ExprKind::Value(Literal::Number(s)) => s@ == digits,
        _ => false,
    }
}

/// A number that stands in an expression or in `VALUES` has the amount that its digits denote, up
/// to 64 bits, and the narrowest type that holds it: 16 bits, 32 bits or 64 bits. One that is
/// larger, or holds anything but digits, is refused.
pub proof fn law_number_literal_denotes_its_digits(
    e: Expr,
    digits: Seq<char>,
    names: Seq<Seq<char>>,
    row: Seq<ValueModel>,
)
    requires
        is_number(e, digits),
        digits.len() > 0,
        forall|i: int| 0 <= i < digits.len() ==> '0' <= #[trigger] digits[i] <= '9',
    ensures
        literal_value(e) == expr_value(e, names, row),
        digits_value(digits) <= 0x7fff_ffff_ffff_ffff <==> expr_value(e, names, row) is Ok,
        expr_value(e, names, row) matches Ok(v) ==> {
            &&& v.number() == Some(digits_value(digits) as int)
            &&& v is SmallInt <==> digits_value(digits) <= 0x7fff
            &&& v is Integer <==> 0x7fff < digits_value(digits) <= 0x7fff_ffff
            &&& v is BigInt <==> 0x7fff_ffff < digits_value(digits)
        },
{
    law_digits_are_read(digits, i64::MIN as int, i64::MAX as int);
}

/// The number with the decimal digits of `n` has the amount `n`.
pub proof fn law_number_literal_has_its_amount(
    e: Expr,
    n: nat,
    names: Seq<Seq<char>>,
    row: Seq<ValueModel>,
)
    requires
        is_number(e, digits10(n)),
        n <= 0x7fff_ffff_ffff_ffff,
    ensures
        literal_value(e) is Ok,
        literal_value(e)->Ok_0.number() == Some(n as int),
        expr_value(e, names, row) is Ok,
        expr_value(e, names, row)->Ok_0.number() == Some(n as int),
{
    lemma_digits10(n);
    assert forall|i: int| 0 <= i < digits10(n).len() implies '0' <= #[trigger] digits10(n)[i]
        <= '9' by {
        assert(is_digit(digits10(n)[i]));
    }
    law_number_literal_denotes_its_digits(e, digits10(n), names, row);
}

/// What is no run of digits is no number: it is refused, in `VALUES` and in expressions.
pub proof fn law_other_number_is_refused(
    e: Expr,
    s: Seq<char>,
    i: int,
    names: Seq<Seq<char>>,
    row: Seq<ValueModel>,
)
    requires
        is_number(e, s),
        s.len() == 0 || (0 <= i < s.len() && !('0' <= s[i] <= '9') && (i > 0 || (s[0] != '-'
            && s[0] != '+'))),
    ensures
        literal_value(e) is Err,
        literal_value(e)->Err_0 is Sql,
        literal_value(e)->Err_0->Sql_0 == SqlState::DataException,
        expr_value(e, names, row) == literal_value(e),
{
    law_other_texts_are_no_numbers(s, i, i64::MIN as int, i64::MAX as int);
}

/// A text in `VALUES` or in an expression is the text between its quotes. `NULL` in `VALUES` is no
/// value, and is refused in an expression.
pub proof fn law_text_literal_is_its_text(
    e: Expr,
    s: String,
    names: Seq<Seq<char>>,
    row: Seq<ValueModel>,
)
    ensures
        e.kind == ExprKind::Value(Literal::Text(s)) ==> {
            &&& literal_value(e) == Ok::<ValueModel, ErrorModel>(ValueModel::Str(s@))
            &&& expr_value(e, names, row) == Ok::<ValueModel, ErrorModel>(ValueModel::Str(s@))
        },
        e.kind == ExprKind::Value(Literal::Null) ==> {
            &&& literal_value(e) == Ok::<ValueModel, ErrorModel>(ValueModel::Null)
            &&& expr_value(e, names, row) is Err
        },
        e.kind == ExprKind::Value(Literal::Other) ==> literal_value(e) is Err && expr_value(
            e,
            names,
            row,
        ) is Err,
{
}

/// A minus sign before a literal makes it the number with minus its amount, in the same type. What
/// is no number cannot have one, and what is refused is refused with it.
pub proof fn law_minus_negates(e: Expr, inner: Expr)
    requires
        e.kind == ExprKind::Minus(Box::new(inner)),
        literal_value(inner) is Ok ==> negatable(literal_value(inner)->Ok_0),
    ensures
        literal_value(inner) is Err ==> literal_value(e) == literal_value(inner),
        literal_value(inner) matches Ok(v) ==> (literal_value(e) is Ok <==> v.number() is Some),
        literal_value(inner) matches Ok(v) ==> (literal_value(e) matches Ok(w) ==> {
            &&& w.number() == Some(-v.number()->0)
            &&& w is SmallInt == v is SmallInt
            &&& w is Integer == v is Integer
            &&& w is BigInt == v is BigInt
        }),
{
    let v = literal_value(inner)->Ok_0;
    assert(literal_value(e) == match literal_value(inner) {
        Ok(v) => negated(v),
        Err(x) => Err(x),
    });
}

/// A number has a negative of its type if and only if minus its amount fits the type.
pub proof fn law_least_numbers_have_no_negative(v: ValueModel)
    ensures
        v is SmallInt ==> (negatable(v) <==> -(v.number()->0) <= 0x7fff),
        v is Integer ==> (negatable(v) <==> -(v.number()->0) <= 0x7fff_ffff),
        v is BigInt ==> (negatable(v) <==> -(v.number()->0) <= 0x7fff_ffff_ffff_ffff),
        v.number() is None ==> negatable(v),
{
}

/// Only literals can stand in `VALUES`.
pub proof fn law_values_are_literals(e: Expr)
    ensures
        literal_value(e) is Ok ==> e.kind is Value || e.kind is Minus,
        !(e.kind is Value) && !(e.kind is Minus) ==> literal_value(e)->Err_0 is Sql
            && literal_value(e)->Err_0->Sql_0 == SqlState::FeatureNotSupported,
{
}

// ── Columns ──

/// A column is found by its name in upper case; the last one, where a name is there twice. A name
/// that no column has is refused.
pub proof fn law_column_is_found_by_name(name: Seq<char>, names: Seq<Seq<char>>)
    ensures
        column_at(name, names) matches Ok(i) ==> {
            &&& 0 <= i < names.len()
            &&& names[i] == uppercase(name)
            &&& forall|j: int| i < j < names.len() ==> #[trigger] names[j] != uppercase(name)
        },
        column_at(name, names) is Ok <==> names.contains(uppercase(name)),
        column_at(name, names) matches Err(e) ==> e == no_column(uppercase(name)) && e is Sql
            && e->Sql_0 == SqlState::ColumnNotFound,
{
    lemma_index_of(names, uppercase(name));
    lemma_last(names, uppercase(name));
    if column_at(name, names) is Ok {
        assert(names[column_at(name, names)->Ok_0] == uppercase(name));
    }
}

proof fn lemma_last(names: Seq<Seq<char>>, name: Seq<char>)
    ensures
        index_of(names, name) matches Some(i) ==> forall|j: int|
            i < j < names.len() ==> #[trigger] names[j] != name,
    decreases names.len(),
{
    if names.len() > 0 && names.last() != name {
        lemma_last(names.drop_last(), name);
        lemma_index_of(names.drop_last(), name);
        if let Some(i) = index_of(names, name) {
            assert forall|j: int| i < j < names.len() implies #[trigger] names[j] != name by {
                if j < names.len() - 1 {
                    assert(names.drop_last()[j] == names[j]);
                }
            }
        }
    }
}

/// A column in an expression has the value of the row in that column, whether or not the name of
/// the table stands before it.
pub proof fn law_column_has_the_value_of_the_row(
    e: Expr,
    name: Seq<char>,
    names: Seq<Seq<char>>,
    row: Seq<ValueModel>,
)
    requires
        names.len() == row.len(),
        names_column(e, name),
    ensures
        expr_value(e, names, row) is Ok <==> names.contains(uppercase(name)),
        expr_value(e, names, row) matches Ok(v) ==> exists|i: int|
            #![trigger names[i]]
            0 <= i < names.len() && names[i] == uppercase(name) && row[i] == v && forall|j: int|
                i < j < names.len() ==> #[trigger] names[j] != uppercase(name),
        expr_value(e, names, row) is Err ==> expr_value(e, names, row)->Err_0 == no_column(
            uppercase(name),
        ),
{
    law_column_is_found_by_name(name, names);
}

/// Whether an expression names a column.
pub open spec fn names_column(e: Expr, name: Seq<char>) -> bool {
    match e.kind {
        ExprKind::Identifier(s) => s@ == name,
        ExprKind::Compound(parts) => parts@.len() > 0 && parts@.last()@ == name,
        _ => false,
    }
}

/// Nothing but a column, a number or a text has a value over a row.
pub proof fn law_other_expressions_have_no_value(
    e: Expr,
    names: Seq<Seq<char>>,
    row: Seq<ValueModel>,
)
    requires
        expr_value(e, names, row) is Ok,
    ensures
        e.kind is Identifier || e.kind is Compound || (e.kind is Value && (e.kind->Value_0 is Text
            || e.kind->Value_0 is Number)),
{
}

// ── Conditions ──

/// Where both sides of `l AND r` can be evaluated, it holds of a row if and only if both hold of
/// it. Where `l` does not hold, `r` is not looked at; where a side that is looked at is refused,
/// so is the condition.
pub proof fn law_and_holds_where_both_do(
    e: Expr,
    l: Expr,
    r: Expr,
    names: Seq<Seq<char>>,
    row: Seq<ValueModel>,
)
    requires
        e.kind == ExprKind::Binary(Box::new(l), BinaryOp::And, Box::new(r)),
    ensures
        where_value(l, names, row) matches Ok(a) ==> (where_value(r, names, row) matches Ok(b)
            ==> where_value(e, names, row) == Ok::<bool, ErrorModel>(a && b)),
        where_value(l, names, row) == Ok::<bool, ErrorModel>(false) ==> where_value(e, names, row)
            == Ok::<bool, ErrorModel>(false),
        where_value(l, names, row) is Err ==> where_value(e, names, row) == where_value(
            l,
            names,
            row,
        ),
        where_value(l, names, row) == Ok::<bool, ErrorModel>(true) && where_value(
            r,
            names,
            row,
        ) is Err ==> where_value(e, names, row) == where_value(r, names, row),
{
}

/// Where both sides of `l OR r` can be evaluated, it holds of a row if and only if one of them
/// holds of it. Where `l` holds, `r` is not looked at; where a side that is looked at is refused,
/// so is the condition.
pub proof fn law_or_holds_where_one_does(
    e: Expr,
    l: Expr,
    r: Expr,
    names: Seq<Seq<char>>,
    row: Seq<ValueModel>,
)
    requires
        e.kind == ExprKind::Binary(Box::new(l), BinaryOp::Or, Box::new(r)),
    ensures
        where_value(l, names, row) matches Ok(a) ==> (where_value(r, names, row) matches Ok(b)
            ==> where_value(e, names, row) == Ok::<bool, ErrorModel>(a || b)),
        where_value(l, names, row) == Ok::<bool, ErrorModel>(true) ==> where_value(e, names, row)
            == Ok::<bool, ErrorModel>(true),
        where_value(l, names, row) is Err ==> where_value(e, names, row) == where_value(
            l,
            names,
            row,
        ),
        where_value(l, names, row) == Ok::<bool, ErrorModel>(false) && where_value(
            r,
            names,
            row,
        ) is Err ==> where_value(e, names, row) == where_value(r, names, row),
{
}

/// `AND` and `OR` do not depend on the order of their sides, where both can be evaluated.
pub proof fn law_sides_can_be_swapped(
    e: Expr,
    swapped: Expr,
    l: Expr,
    r: Expr,
    names: Seq<Seq<char>>,
    row: Seq<ValueModel>,
)
    requires
        e.kind == ExprKind::Binary(Box::new(l), BinaryOp::And, Box::new(r)) && swapped.kind
            == ExprKind::Binary(Box::new(r), BinaryOp::And, Box::new(l)) || e.kind
            == ExprKind::Binary(Box::new(l), BinaryOp::Or, Box::new(r)) && swapped.kind
            == ExprKind::Binary(Box::new(r), BinaryOp::Or, Box::new(l)),
        where_value(l, names, row) is Ok,
        where_value(r, names, row) is Ok,
    ensures
        where_value(e, names, row) == where_value(swapped, names, row),
{
}

/// `l = r` holds of a row if and only if the values of both sides are equal, and `l != r` if and
/// only if they are not. Both are refused exactly where a side has no value, the left one first.
pub proof fn law_comparison_compares_the_values(
    e: Expr,
    op: BinaryOp,
    l: Expr,
    r: Expr,
    names: Seq<Seq<char>>,
    row: Seq<ValueModel>,
)
    requires
        e.kind == ExprKind::Binary(Box::new(l), op, Box::new(r)),
        op is Eq || op is NotEq,
    ensures
        expr_value(l, names, row) matches Ok(a) ==> (expr_value(r, names, row) matches Ok(b) ==> {
            &&& where_value(e, names, row) is Ok
            &&& op is Eq ==> where_value(e, names, row)->Ok_0 == equal_values(a, b)
            &&& op is NotEq ==> where_value(e, names, row)->Ok_0 == !equal_values(a, b)
        }),
        expr_value(l, names, row) matches Err(x) ==> where_value(e, names, row) == Err::<
            bool,
            ErrorModel,
        >(x),
        expr_value(l, names, row) is Ok ==> (expr_value(r, names, row) matches Err(x)
            ==> where_value(e, names, row) == Err::<bool, ErrorModel>(x)),
{
}

/// A column that is compared with a number is chosen by its amount: `c = n` holds of exactly the
/// rows with the amount `n` in the column `c`.
pub proof fn law_column_equals_number(
    e: Expr,
    l: Expr,
    r: Expr,
    name: Seq<char>,
    n: nat,
    i: int,
    names: Seq<Seq<char>>,
    row: Seq<ValueModel>,
)
    requires
        e.kind == ExprKind::Binary(Box::new(l), BinaryOp::Eq, Box::new(r)),
        names_column(l, name),
        is_number(r, digits10(n)),
        n <= 0x7fff_ffff_ffff_ffff,
        names.len() == row.len(),
        0 <= i < names.len(),
        names[i] == uppercase(name),
        forall|j: int| 0 <= j < names.len() && j != i ==> #[trigger] names[j] != names[i],
    ensures
        where_value(e, names, row) == Ok::<bool, ErrorModel>(row[i].number() == Some(n as int)),
{
    law_column_has_the_value_of_the_row(l, name, names, row);
    law_column_is_found_by_name(name, names);
    assert(names.contains(uppercase(name)));
    law_number_literal_has_its_amount(r, n, names, row);
    let v = expr_value(r, names, row)->Ok_0;
    assert(column_at(name, names)->Ok_0 == i);
    law_equality_compares_amounts(row[i], v);
    law_comparison_compares_the_values(e, BinaryOp::Eq, l, r, names, row);
}

/// Nothing but comparisons, `AND` and `OR` is a condition.
pub proof fn law_other_conditions_are_refused(
    e: Expr,
    names: Seq<Seq<char>>,
    row: Seq<ValueModel>,
)
    requires
        !(e.kind is Binary) || e.kind->Binary_1 is Other,
    ensures
        where_value(e, names, row) is Err,
        where_value(e, names, row)->Err_0 is Sql,
        where_value(e, names, row)->Err_0->Sql_0 == SqlState::FeatureNotSupported,
{
}

} // verus!
