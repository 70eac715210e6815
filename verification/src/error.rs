//! The errors of the engine and the SQLSTATE codes that they carry.

use vstd::prelude::*;
use vstd::string::StringExecFns;

verus! {

/// ANSI SQLSTATE codes: a class of two characters and a subclass of three.
#[derive(Debug, Clone, Copy, PartialEq, Eq, Structural)]
pub enum SqlState {
    /// 42000: syntax error or access rule violation
    SyntaxError,
    /// 42S02: base table or view not found
    TableNotFound,
    /// 42S01: base table already exists
    TableAlreadyExists,
    /// 42S22: column not found
    ColumnNotFound,
    /// 42601: the text cannot be parsed
    ParseError,
    /// 42803: grouping error
    GroupingError,
    /// 42508: a statement would change the system schema
    SystemSchemaViolation,
    /// 42611: a column length out of range
    InvalidColumnLength,
    /// 42711: a column name occurs twice
    DuplicateColumnName,
    /// 54010: a row may outgrow a page
    RowTooLarge,
    /// 54011: more columns than a page can hold
    TooManyColumns,
    /// 0A000: feature not supported
    FeatureNotSupported,
    /// 22000: data exception
    DataException,
    /// 22003: numeric value out of range
    NumericValueOutOfRange,
    /// 22005: a value of the wrong type was assigned
    AssignmentError,
    /// 23502: NOT NULL violated
    NotNullViolation,
    /// 21S01: the inserted values do not match the columns
    InsertValueListMismatch,
    /// 26000: invalid SQL statement name
    InvalidSqlStatement,
    /// 3D000: no database of that name
    DatabaseNotFound,
    /// 42P04: a database of that name exists
    DatabaseAlreadyExists,
}

impl SqlState {
    /// The five characters of the code.
    pub open spec fn spec_code(self) -> Seq<char> {
        match self {
            SqlState::SyntaxError => "42000"@,
            SqlState::TableNotFound => "42S02"@,
            SqlState::TableAlreadyExists => "42S01"@,
            SqlState::ColumnNotFound => "42S22"@,
            SqlState::ParseError => "42601"@,
            SqlState::GroupingError => "42803"@,
            SqlState::SystemSchemaViolation => "42508"@,
            SqlState::InvalidColumnLength => "42611"@,
            SqlState::DuplicateColumnName => "42711"@,
            SqlState::RowTooLarge => "54010"@,
            SqlState::TooManyColumns => "54011"@,
            SqlState::FeatureNotSupported => "0A000"@,
            SqlState::DataException => "22000"@,
            SqlState::NumericValueOutOfRange => "22003"@,
            SqlState::AssignmentError => "22005"@,
            SqlState::NotNullViolation => "23502"@,
            SqlState::InsertValueListMismatch => "21S01"@,
            SqlState::InvalidSqlStatement => "26000"@,
            SqlState::DatabaseNotFound => "3D000"@,
            SqlState::DatabaseAlreadyExists => "42P04"@,
        }
    }

    /// The code as text.
    pub fn code(&self) -> (r: &'static str)
        ensures
            r@ == self.spec_code(),
    {
        match self {
            SqlState::SyntaxError => "42000",
            SqlState::TableNotFound => "42S02",
            SqlState::TableAlreadyExists => "42S01",
            SqlState::ColumnNotFound => "42S22",
            SqlState::ParseError => "42601",
            SqlState::GroupingError => "42803",
            SqlState::SystemSchemaViolation => "42508",
            SqlState::InvalidColumnLength => "42611",
            SqlState::DuplicateColumnName => "42711",
            SqlState::RowTooLarge => "54010",
            SqlState::TooManyColumns => "54011",
            SqlState::FeatureNotSupported => "0A000",
            SqlState::DataException => "22000",
            SqlState::NumericValueOutOfRange => "22003",
            SqlState::AssignmentError => "22005",
            SqlState::NotNullViolation => "23502",
            SqlState::InsertValueListMismatch => "21S01",
            SqlState::InvalidSqlStatement => "26000",
            SqlState::DatabaseNotFound => "3D000",
            SqlState::DatabaseAlreadyExists => "42P04",
        }
    }

    /// The code as an owned text.
    pub fn to_string(&self) -> (r: String)
        ensures
            r@ == self.spec_code(),
    {
        self.code().to_owned()
    }
}

/// What went wrong.
#[derive(Debug)]
pub enum Error {
    /// Reading or writing a file failed.
    Io(String),
    /// The catalog or a file outside the pages is not as it should be.
    Catalog(String),
    /// Stored bytes are damaged.
    Corruption(String),
    /// A statement cannot be carried out.
    Sql { state: SqlState, message: String },
}

/// The contents of an [`Error`].
pub enum ErrorModel {
    Io(Seq<char>),
    Catalog(Seq<char>),
    Corruption(Seq<char>),
    Sql(SqlState, Seq<char>),
}

impl View for Error {
    type V = ErrorModel;

    open spec fn view(&self) -> ErrorModel {
        match self {
            Error::Io(m) => ErrorModel::Io(m@),
            Error::Catalog(m) => ErrorModel::Catalog(m@),
            Error::Corruption(m) => ErrorModel::Corruption(m@),
            Error::Sql { state, message } => ErrorModel::Sql(*state, message@),
        }
    }
}

impl ErrorModel {
    /// The message that is shown for the error.
    pub open spec fn text(self) -> Seq<char> {
        match self {
            ErrorModel::Io(m) => "I/O error: "@ + m,
            ErrorModel::Catalog(m) => "catalog error: "@ + m,
            ErrorModel::Corruption(m) => "data corruption: "@ + m,
            ErrorModel::Sql(state, m) => "SQLSTATE "@ + state.spec_code() + ": "@ + m,
        }
    }
}

impl Error {
    /// The message that is shown for the error.
    pub fn to_string(&self) -> (r: String)
        ensures
            r@ == self@.text(),
    {
        match self {
            Error::Io(m) => "I/O error: ".to_owned().concat(m.as_str()),
            Error::Catalog(m) => "catalog error: ".to_owned().concat(m.as_str()),
            Error::Corruption(m) => "data corruption: ".to_owned().concat(m.as_str()),
            Error::Sql { state, message } => {
                "SQLSTATE ".to_owned().concat(state.code()).concat(": ").concat(message.as_str())
            }
        }
    }
}

/// What an operation gives that can fail.
pub type DbResult<T> = core::result::Result<T, Error>;

/// The error of a statement, with its code and message.
pub fn sql_error(state: SqlState, message: String) -> (e: Error)
    ensures
        e@ == ErrorModel::Sql(state, message@),
{
    Error::Sql { state, message }
}

/// A corruption error with a fixed message.
pub fn corruption(message: &str) -> (e: Error)
    ensures
        e@ == ErrorModel::Corruption(message@),
{
    Error::Corruption(message.to_owned())
}

/// A catalog error with a fixed message.
pub fn catalog_error(message: &str) -> (e: Error)
    ensures
        e@ == ErrorModel::Catalog(message@),
{
    Error::Catalog(message.to_owned())
}

// ── Laws of errors ──

/// Every code has five characters, and two states never have the same.
pub proof fn law_codes_tell_states_apart(a: SqlState, b: SqlState)
    ensures
        a.spec_code().len() == 5,
        a.spec_code() == b.spec_code() <==> a == b,
{
    reveal_strlit("42000");
    reveal_strlit("42S02");
    reveal_strlit("42S01");
    reveal_strlit("42S22");
    reveal_strlit("42601");
    reveal_strlit("42803");
    reveal_strlit("42508");
    reveal_strlit("42611");
    reveal_strlit("42711");
    reveal_strlit("54010");
    reveal_strlit("54011");
    reveal_strlit("0A000");
    reveal_strlit("22000");
    reveal_strlit("22003");
    reveal_strlit("22005");
    reveal_strlit("23502");
    reveal_strlit("21S01");
    reveal_strlit("26000");
    reveal_strlit("3D000");
    reveal_strlit("42P04");
    if a != b {
        let (x, y) = (a.spec_code(), b.spec_code());
        assert(x[0] != y[0] || x[1] != y[1] || x[2] != y[2] || x[3] != y[3] || x[4] != y[4]);
    }
}

/// The message of a statement that failed shows its code and then its own message, and that of any
/// other error says what sort it is and then what went wrong.
pub proof fn law_message_shows_the_error(e: ErrorModel)
    ensures
        e matches ErrorModel::Sql(state, m) ==> {
            &&& e.text().len() == 16 + m.len()
            &&& e.text().subrange(0, 9) == "SQLSTATE "@
            &&& e.text().subrange(9, 14) == state.spec_code()
            &&& e.text().subrange(14, 16) == ": "@
            &&& e.text().subrange(16, e.text().len() as int) == m
        },
        e matches ErrorModel::Io(m) ==> e.text() == "I/O error: "@ + m,
        e matches ErrorModel::Catalog(m) ==> e.text() == "catalog error: "@ + m,
        e matches ErrorModel::Corruption(m) ==> e.text() == "data corruption: "@ + m,
{
    reveal_strlit("SQLSTATE ");
    reveal_strlit(": ");
    if let ErrorModel::Sql(state, m) = e {
        law_codes_tell_states_apart(state, state);
        assert(e.text().subrange(0, 9) =~= "SQLSTATE "@);
        assert(e.text().subrange(9, 14) =~= state.spec_code());
        assert(e.text().subrange(14, 16) =~= ": "@);
        assert(e.text().subrange(16, e.text().len() as int) =~= m);
    }
}

} // verus!
