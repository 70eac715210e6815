//! The configuration of a database, in `admin/SQLDBCONF`: lines `KEY = VALUE`, and comments that
//! start with `--`.

use vstd::prelude::*;
use vstd::string::StringExecFns;
use vstd::utf8::is_ascii_chars;
use crate::error::{DbResult, Error, ErrorModel};
use crate::storage::fsm::is_pow2;
use crate::text::{ascii_upper, char_range, chars_of, decimal, digits10, is_digit, is_space,
    lemma_digits10, lemma_parse_decimal, line_seq, lines, parse_unsigned, parsed_unsigned, same_str,
    split_parts, string_of, to_uppercase, trim, trim_back, trim_front, trimmed, uppercase};

verus! {

/// The version of the format on disk. Databases of another version are refused.
pub const FORMAT_VERSION: u32 = 2;

/// The page size of a database whose configuration names none.
pub const DEFAULT_PAGE_SIZE: usize = 4096;

/// The configuration of a database.
#[derive(Debug, Clone)]
pub struct DbConfig {
    /// The version of the format on disk.
    pub format_version: u32,
    /// The size of pages, in bytes, for new tablespaces.
    pub page_size: usize,
    /// How much is logged: `OFF`, `ERROR`, `WARN`, `INFO`, `DEBUG` or `TRACE`.
    pub diag_level: String,
    /// Whether the catalog's files are tab-separated text.
    pub text_mode: bool,
    /// The schema of tables that are named without one.
    pub default_schema: String,
    /// The tablespace of new tables.
    pub default_tablespace: String,
    /// The schema of the catalog's tables.
    pub sys_schema: String,
    /// The number of the next transaction.
    pub next_txid: u64,
}

/// The contents of a [`DbConfig`].
pub struct ConfigModel {
    pub format_version: nat,
    pub page_size: nat,
    pub diag_level: Seq<char>,
    pub text_mode: bool,
    pub default_schema: Seq<char>,
    pub default_tablespace: Seq<char>,
    pub sys_schema: Seq<char>,
    pub next_txid: nat,
}

impl View for DbConfig {
    type V = ConfigModel;

    open spec fn view(&self) -> ConfigModel {
        ConfigModel {
            format_version: self.format_version as nat,
            page_size: self.page_size as nat,
            diag_level: self.diag_level@,
            text_mode: self.text_mode,
            default_schema: self.default_schema@,
            default_tablespace: self.default_tablespace@,
            sys_schema: self.sys_schema@,
            next_txid: self.next_txid as nat,
        }
    }
}

impl Default for DbConfig {
    fn default() -> (r: Self)
        ensures
            r@ == (ConfigModel {
                format_version: 2,
                page_size: 4096,
                diag_level: "INFO"@,
                text_mode: false,
                default_schema: "PUBLIC"@,
                default_tablespace: "USERTBSP"@,
                sys_schema: "RQSYS"@,
                next_txid: 1,
            }),
    {
        Self {
            format_version: FORMAT_VERSION,
            page_size: DEFAULT_PAGE_SIZE,
            diag_level: "INFO".to_owned(),
            text_mode: false,
            default_schema: "PUBLIC".to_owned(),
            default_tablespace: "USERTBSP".to_owned(),
            sys_schema: "RQSYS".to_owned(),
            next_txid: 1,
        }
    }
}

// ── Keys and values ──

/// The position of the first `c` in `s`, or its length.
pub open spec fn first_index(s: Seq<char>, c: char) -> int
    decreases s.len(),
{
    if s.len() == 0 {
        0
    } else if s[0] == c {
        0
    } else {
        1 + first_index(s.drop_first(), c)
    }
}

/// Whether a line, without the white space around it, is a comment or empty.
pub open spec fn is_skipped(t: Seq<char>) -> bool {
    t.len() == 0 || (t.len() >= 2 && t[0] == '-' && t[1] == '-')
}

/// What a line adds to the keys and values: nothing, a pair, or an error. `n` is the number of the
/// line.
pub open spec fn kv_line(line: Seq<char>, n: nat) -> Result<
    Option<(Seq<char>, Seq<char>)>,
    ErrorModel,
> {
    let t = trimmed(line);
    let at = first_index(t, '=');
    if is_skipped(t) {
        Ok(None)
    } else if at >= t.len() {
        Err(
            ErrorModel::Catalog(
                "SQLDBCONF line "@ + digits10(n) + ": expected KEY = VALUE, got: "@ + t,
            ),
        )
    } else {
        Ok(
            Some(
                (
                    uppercase(trimmed(t.subrange(0, at))),
                    trimmed(t.subrange(at + 1, t.len() as int)),
                ),
            ),
        )
    }
}

/// The keys and values of the first `n` lines, in order, or the error of the first line that has
/// one.
pub open spec fn kv_pairs(ls: Seq<Seq<char>>, n: nat) -> Result<
    Seq<(Seq<char>, Seq<char>)>,
    ErrorModel,
>
    decreases n,
{
    if n == 0 {
        Ok(Seq::empty())
    } else {
        match kv_pairs(ls, (n - 1) as nat) {
            Err(e) => Err(e),
            Ok(s) => match kv_line(ls[n - 1], n) {
                Err(e) => Err(e),
                Ok(None) => Ok(s),
                Ok(Some(pair)) => Ok(s.push(pair)),
            },
        }
    }
}

/// The last value of a key.
pub open spec fn lookup(kv: Seq<(Seq<char>, Seq<char>)>, key: Seq<char>) -> Option<Seq<char>>
    decreases kv.len(),
{
    if kv.len() == 0 {
        None
    } else if kv.last().0 == key {
        Some(kv.last().1)
    } else {
        lookup(kv.drop_last(), key)
    }
}

/// The keys and values of a configuration, in the order of the lines.
pub struct KeyValues {
    pairs: Vec<(String, String)>,
}

impl View for KeyValues {
    type V = Seq<(Seq<char>, Seq<char>)>;

    closed spec fn view(&self) -> Seq<(Seq<char>, Seq<char>)> {
        Seq::new(self.pairs@.len(), |i: int| (self.pairs@[i].0@, self.pairs@[i].1@))
    }
}

impl KeyValues {
    /// The last value of a key.
    pub fn get(&self, key: &str) -> (r: Option<&String>)
        ensures
            match r {
                Some(v) => lookup(self@, key@) == Some(v@),
                None => lookup(self@, key@) is None,
            },
    {
        let mut i: usize = self.pairs.len();
        assert(self@.subrange(0, self@.len() as int) =~= self@);
        while i > 0
            invariant
                i <= self.pairs@.len(),
                lookup(self@, key@) == lookup(self@.subrange(0, i as int), key@),
            decreases i,
        {
            assert(self@.subrange(0, i as int).drop_last() =~= self@.subrange(0, i - 1));
            let pair: &(String, String) = &self.pairs[i - 1];
            if same_str(pair.0.as_str(), key) {
                return Some(&pair.1);
            }
            i -= 1;
        }
        None
    }
}

/// The position of the first `c` among `cs`, or their number.
fn find_first(cs: &[char], c: char) -> (r: usize)
    ensures
        r == first_index(cs@, c),
        r <= cs@.len(),
{
    let n: usize = cs.len();
    let mut i: usize = 0;
    assert(cs@.subrange(0, n as int) =~= cs@);
    while i < n
        invariant
            i <= n,
            n == cs@.len(),
            first_index(cs@, c) == i + first_index(cs@.subrange(i as int, n as int), c),
        decreases n - i,
    {
        if cs[i] == c {
            return i;
        }
        assert(cs@.subrange(i as int, n as int).drop_first() =~= cs@.subrange(i + 1, n as int));
        i += 1;
    }
    n
}

/// Reads lines `KEY = VALUE`. Empty lines and comments are passed over.
pub fn parse_kv(content: &str) -> (r: DbResult<KeyValues>)
    ensures
        ({
            let ls = line_seq(content@);
            match r {
                Ok(kv) => kv_pairs(ls, ls.len()) == Ok::<
                    Seq<(Seq<char>, Seq<char>)>,
                    ErrorModel,
                >(kv@),
                Err(e) => kv_pairs(ls, ls.len()) == Err::<
                    Seq<(Seq<char>, Seq<char>)>,
                    ErrorModel,
                >(e@),
            }
        }),
{
    let cs: Vec<char> = chars_of(content);
    let all: Vec<Vec<char>> = lines(cs.as_slice());
    let ghost ls = line_seq(content@);
    let n: usize = all.len();
    proof {
        assert forall|k: int| 0 <= k < n implies ls[k] == (#[trigger] all@[k])@ by {
            assert(all@.map_values(|v: Vec<char>| v@)[k] == all@[k]@);
        }
    }
    let mut kv = KeyValues { pairs: Vec::new() };
    assert(kv@ =~= Seq::<(Seq<char>, Seq<char>)>::empty());
    let mut i: usize = 0;
    while i < n
        invariant
            i <= n,
            n == all@.len() == ls.len(),
            ls == line_seq(content@),
            forall|k: int| 0 <= k < n ==> ls[k] == (#[trigger] all@[k])@,
            kv_pairs(ls, i as nat) == Ok::<Seq<(Seq<char>, Seq<char>)>, ErrorModel>(kv@),
        decreases n - i,
    {
        let line: Vec<char> = trim(all[i].as_slice());
        let m: usize = line.len();
        assert(ls[i as int] == all@[i as int]@);
        if m == 0 || (m >= 2 && line[0] == '-' && line[1] == '-') {
            i += 1;
            continue;
        }
        let at: usize = find_first(line.as_slice(), '=');
        if at >= m {
            let message: String = "SQLDBCONF line ".to_owned().concat(
                decimal(i as u64 + 1).as_str(),
            ).concat(": expected KEY = VALUE, got: ").concat(string_of(line.as_slice()).as_str());
            proof {
                lemma_kv_error(ls, (i + 1) as nat, n as nat);
            }
            return Err(Error::Catalog(message));
        }
        let key: Vec<char> = trim(char_range(line.as_slice(), 0, at).as_slice());
        let value: Vec<char> = trim(char_range(line.as_slice(), at + 1, m).as_slice());
        let ghost before = kv@;
        let name: String = to_uppercase(string_of(key.as_slice()).as_str());
        let text: String = string_of(value.as_slice());
        let ghost pair = (name@, text@);
        kv.pairs.push((name, text));
        assert(kv@ =~= before.push(pair));
        i += 1;
    }
    Ok(kv)
}

/// An error stays.
proof fn lemma_kv_error(ls: Seq<Seq<char>>, i: nat, n: nat)
    requires
        i <= n,
        kv_pairs(ls, i) is Err,
    ensures
        kv_pairs(ls, n) == kv_pairs(ls, i),
    decreases n - i,
{
    if i < n {
        lemma_kv_error(ls, i, (n - 1) as nat);
    }
}

/// The number under a key, or `default` where there is none.
pub open spec fn number_of(
    kv: Seq<(Seq<char>, Seq<char>)>,
    key: Seq<char>,
    default: nat,
    max: nat,
) -> Result<nat, ErrorModel> {
    match lookup(kv, key) {
        Some(v) => match parsed_unsigned(v, max) {
            Some(n) => Ok(n),
            None => Err(
                ErrorModel::Catalog(
                    "SQLDBCONF: invalid numeric value for "@ + key + ": "@ + v,
                ),
            ),
        },
        None => Ok(default),
    }
}

/// The flag under a key, or `default` where there is none.
pub open spec fn flag_of(
    kv: Seq<(Seq<char>, Seq<char>)>,
    key: Seq<char>,
    default: bool,
) -> Result<bool, ErrorModel> {
    match lookup(kv, key) {
        Some(v) => if v == "TRUE"@ {
            Ok(true)
        } else if v == "FALSE"@ {
            Ok(false)
        } else {
            Err(
                ErrorModel::Catalog(
                    "SQLDBCONF: invalid boolean for "@ + key + ": "@ + v
                        + " (expected TRUE or FALSE)"@,
                ),
            )
        },
        None => Ok(default),
    }
}

/// The text under a key, or `default` where there is none.
pub open spec fn text_of(
    kv: Seq<(Seq<char>, Seq<char>)>,
    key: Seq<char>,
    default: Seq<char>,
) -> Seq<char> {
    match lookup(kv, key) {
        Some(v) => v,
        None => default,
    }
}

fn parse_number(map: &KeyValues, key: &str, default: u64, max: u64) -> (r: DbResult<u64>)
    ensures
        match r {
            Ok(n) => number_of(map@, key@, default as nat, max as nat) == Ok::<nat, ErrorModel>(
                n as nat,
            ),
            Err(e) => number_of(map@, key@, default as nat, max as nat) == Err::<nat, ErrorModel>(
                e@,
            ),
        },
{
    match map.get(key) {
        Some(v) => match parse_unsigned(v.as_str(), max) {
            Some(n) => Ok(n),
            None => Err(
                Error::Catalog(
                    "SQLDBCONF: invalid numeric value for ".to_owned().concat(key).concat(
                        ": ",
                    ).concat(v.as_str()),
                ),
            ),
        },
        None => Ok(default),
    }
}

/// The `u32` under a key, or `default` where there is none.
pub fn parse_u32(map: &KeyValues, key: &str, default: u32) -> (r: DbResult<u32>)
    ensures
        match r {
            Ok(n) => number_of(map@, key@, default as nat, u32::MAX as nat) == Ok::<
                nat,
                ErrorModel,
            >(n as nat),
            Err(e) => number_of(map@, key@, default as nat, u32::MAX as nat) == Err::<
                nat,
                ErrorModel,
            >(e@),
        },
{
    match parse_number(map, key, default as u64, u32::MAX as u64) {
        Ok(n) => Ok(n as u32),
        Err(e) => Err(e),
    }
}

/// The `u64` under a key, or `default` where there is none.
pub fn parse_u64(map: &KeyValues, key: &str, default: u64) -> (r: DbResult<u64>)
    ensures
        match r {
            Ok(n) => number_of(map@, key@, default as nat, u64::MAX as nat) == Ok::<
                nat,
                ErrorModel,
            >(n as nat),
            Err(e) => number_of(map@, key@, default as nat, u64::MAX as nat) == Err::<
                nat,
                ErrorModel,
            >(e@),
        },
{
    parse_number(map, key, default, u64::MAX)
}

/// The `usize` under a key, or `default` where there is none.
pub fn parse_usize(map: &KeyValues, key: &str, default: usize) -> (r: DbResult<usize>)
    ensures
        match r {
            Ok(n) => number_of(map@, key@, default as nat, usize::MAX as nat) == Ok::<
                nat,
                ErrorModel,
            >(n as nat),
            Err(e) => number_of(map@, key@, default as nat, usize::MAX as nat) == Err::<
                nat,
                ErrorModel,
            >(e@),
        },
{
    match parse_number(map, key, default as u64, usize::MAX as u64) {
        Ok(n) => Ok(n as usize),
        Err(e) => Err(e),
    }
}

/// The flag under a key, or `default` where there is none.
pub fn parse_bool(map: &KeyValues, key: &str, default: bool) -> (r: DbResult<bool>)
    ensures
        match r {
            Ok(b) => flag_of(map@, key@, default) == Ok::<bool, ErrorModel>(b),
            Err(e) => flag_of(map@, key@, default) == Err::<bool, ErrorModel>(e@),
        },
{
    match map.get(key) {
        Some(v) => {
            if same_str(v.as_str(), "TRUE") {
                Ok(true)
            } else if same_str(v.as_str(), "FALSE") {
                Ok(false)
            } else {
                Err(
                    Error::Catalog(
                        "SQLDBCONF: invalid boolean for ".to_owned().concat(key).concat(
                            ": ",
                        ).concat(v.as_str()).concat(" (expected TRUE or FALSE)"),
                    ),
                )
            }
        }
        None => Ok(default),
    }
}

fn parse_text(map: &KeyValues, key: &str, default: &str) -> (r: String)
    ensures
        r@ == text_of(map@, key@, default@),
{
    match map.get(key) {
        Some(v) => v.clone(),
        None => default.to_owned(),
    }
}

// ── The configuration file ──

/// Whether a name is one of the levels of logging.
pub open spec fn is_diag_level(s: Seq<char>) -> bool {
    s == "OFF"@ || s == "ERROR"@ || s == "WARN"@ || s == "INFO"@ || s == "DEBUG"@ || s == "TRACE"@
}

/// Whether a page size can be configured.
pub open spec fn is_page_size(n: nat) -> bool {
    is_pow2(n) && n >= 512
}

/// The message for a database of another version.
pub open spec fn version_text(v: nat) -> Seq<char> {
    "incompatible database format version "@ + digits10(v) + " (expected "@ + digits10(2)
        + "). This database was created with "@ + (if v < 2 {
        "an older"@
    } else {
        "a newer"@
    })
        + " version of RQDB and cannot be opened. Please recreate the database."@
}

/// The configuration that keys and values stand for, or the first thing that is wrong with them.
pub open spec fn config_of(kv: Seq<(Seq<char>, Seq<char>)>) -> Result<ConfigModel, ErrorModel> {
    match number_of(kv, "FORMAT_VERSION"@, 1, u32::MAX as nat) {
        Err(e) => Err(e),
        Ok(version) => if version != 2 {
            Err(ErrorModel::Catalog(version_text(version)))
        } else {
            match number_of(kv, "PAGESIZE"@, 4096, usize::MAX as nat) {
                Err(e) => Err(e),
                Ok(page_size) => if !is_page_size(page_size) {
                    Err(
                        ErrorModel::Catalog(
                            "PAGESIZE must be a power of two >= 512, got "@ + digits10(page_size),
                        ),
                    )
                } else {
                    let level = text_of(kv, "DIAGLEVEL"@, "INFO"@);
                    if !is_diag_level(level) {
                        Err(
                            ErrorModel::Catalog(
                                "invalid DIAGLEVEL '"@ + level
                                    + "'; expected one of: OFF, ERROR, WARN, INFO, DEBUG, TRACE"@,
                            ),
                        )
                    } else {
                        match flag_of(kv, "TEXT_MODE"@, false) {
                            Err(e) => Err(e),
                            Ok(text_mode) => match number_of(
                                kv,
                                "NEXT_TXID"@,
                                1,
                                u64::MAX as nat,
                            ) {
                                Err(e) => Err(e),
                                Ok(next_txid) => Ok(
                                    ConfigModel {
                                        format_version: version,
                                        page_size,
                                        diag_level: level,
                                        text_mode,
                                        default_schema: text_of(kv, "DFT_SCHEMA"@, "PUBLIC"@),
                                        default_tablespace: text_of(kv, "DFT_TBSP"@, "USERTBSP"@),
                                        sys_schema: text_of(kv, "SYS_SCHEMA"@, "RQSYS"@),
                                        next_txid,
                                    },
                                ),
                            },
                        }
                    }
                },
            }
        },
    }
}

/// The configuration in a text.
pub open spec fn config_in(content: Seq<char>) -> Result<ConfigModel, ErrorModel> {
    let ls = line_seq(content);
    match kv_pairs(ls, ls.len()) {
        Err(e) => Err(e),
        Ok(kv) => config_of(kv),
    }
}

fn is_power_of_two(n: usize) -> (r: bool)
    ensures
        r == is_pow2(n as nat),
{
    let mut k: usize = n;
    while k > 1 && k % 2 == 0
        invariant
            is_pow2(n as nat) == is_pow2(k as nat),
        decreases k,
    {
        k = k / 2;
    }
    k == 1
}

/// `KEY = VALUE`.
pub open spec fn setting(key: Seq<char>, value: Seq<char>) -> Seq<char> {
    key + " = "@ + value
}

/// The lines of the configuration file.
pub open spec fn config_lines(c: ConfigModel) -> Seq<Seq<char>> {
    seq![
        "-- RQDB Database Configuration (SQLDBCONF)"@,
        "-- Modify only when the database is offline."@,
        ""@,
        "-- On-disk format version.  Do not change manually."@,
        setting("FORMAT_VERSION"@, digits10(c.format_version)),
        ""@,
        "-- Default page size (bytes) for new tablespaces."@,
        setting("PAGESIZE"@, digits10(c.page_size)),
        ""@,
        "-- Diagnostic level: OFF | ERROR | WARN | INFO | DEBUG | TRACE"@,
        setting("DIAGLEVEL"@, c.diag_level),
        ""@,
        "-- Data file format: TRUE = tab-separated text, FALSE = binary."@,
        setting("TEXT_MODE"@, if c.text_mode { "TRUE"@ } else { "FALSE"@ }),
        ""@,
        "-- Default schema for unqualified table names (DB2: DFT_SCHEMA)."@,
        setting("DFT_SCHEMA"@, c.default_schema),
        ""@,
        "-- Default tablespace for user-created tables (DB2: DFT_TBSP)."@,
        setting("DFT_TBSP"@, c.default_tablespace),
        ""@,
        "-- System catalog schema name.  Do not change after bootstrap."@,
        setting("SYS_SCHEMA"@, c.sys_schema),
        ""@,
        "-- Next transaction ID (monotonic counter).  Updated on shutdown."@,
        setting("NEXT_TXID"@, digits10(c.next_txid)),
    ]
}

/// The first `n` of some lines as a text, each ended by a line feed.
pub open spec fn ended_lines(ls: Seq<Seq<char>>, n: int) -> Seq<char>
    decreases n,
{
    if n <= 0 {
        Seq::empty()
    } else {
        ended_lines(ls, n - 1) + ls[n - 1].push('\n')
    }
}

fn copy_setting(key: &str, value: &str) -> (r: String)
    ensures
        r@ == setting(key@, value@),
{
    key.to_owned().concat(" = ").concat(value)
}

impl DbConfig {
    /// A copy of the configuration.
    pub fn copy(&self) -> (r: Self)
        ensures
            r@ == self@,
    {
        Self {
            format_version: self.format_version,
            page_size: self.page_size,
            diag_level: self.diag_level.clone(),
            text_mode: self.text_mode,
            default_schema: self.default_schema.clone(),
            default_tablespace: self.default_tablespace.clone(),
            sys_schema: self.sys_schema.clone(),
            next_txid: self.next_txid,
        }
    }

    /// The text of the configuration file.
    pub fn write(&self) -> (r: String)
        ensures
            r@ == ended_lines(config_lines(self@), 26),
    {
        let mut ls: Vec<String> = Vec::new();
        ls.push("-- RQDB Database Configuration (SQLDBCONF)".to_owned());
        ls.push("-- Modify only when the database is offline.".to_owned());
        ls.push("".to_owned());
        ls.push("-- On-disk format version.  Do not change manually.".to_owned());
        ls.push(copy_setting("FORMAT_VERSION", decimal(self.format_version as u64).as_str()));
        ls.push("".to_owned());
        ls.push("-- Default page size (bytes) for new tablespaces.".to_owned());
        ls.push(copy_setting("PAGESIZE", decimal(self.page_size as u64).as_str()));
        ls.push("".to_owned());
        ls.push("-- Diagnostic level: OFF | ERROR | WARN | INFO | DEBUG | TRACE".to_owned());
        ls.push(copy_setting("DIAGLEVEL", self.diag_level.as_str()));
        ls.push("".to_owned());
        ls.push("-- Data file format: TRUE = tab-separated text, FALSE = binary.".to_owned());
        ls.push(copy_setting("TEXT_MODE", if self.text_mode { "TRUE" } else { "FALSE" }));
        ls.push("".to_owned());
        ls.push("-- Default schema for unqualified table names (DB2: DFT_SCHEMA).".to_owned());
        ls.push(copy_setting("DFT_SCHEMA", self.default_schema.as_str()));
        ls.push("".to_owned());
        ls.push("-- Default tablespace for user-created tables (DB2: DFT_TBSP).".to_owned());
        ls.push(copy_setting("DFT_TBSP", self.default_tablespace.as_str()));
        ls.push("".to_owned());
        ls.push("-- System catalog schema name.  Do not change after bootstrap.".to_owned());
        ls.push(copy_setting("SYS_SCHEMA", self.sys_schema.as_str()));
        ls.push("".to_owned());
        ls.push("-- Next transaction ID (monotonic counter).  Updated on shutdown.".to_owned());
        ls.push(copy_setting("NEXT_TXID", decimal(self.next_txid).as_str()));
        let ghost want = config_lines(self@);
        let mut out: String = String::new();
        let mut i: usize = 0;
        while i < 26
            invariant
                i <= 26,
                ls@.len() == 26 == want.len(),
                forall|k: int| 0 <= k < 26 ==> (#[trigger] ls@[k])@ == want[k],
                out@ == ended_lines(want, i as int),
            decreases 26 - i,
        {
            out.append(ls[i].as_str());
            out.push('\n');
            i += 1;
            assert(out@ =~= ended_lines(want, i as int));
        }
        out
    }

    /// Reads the text of a configuration file.
    pub fn read(content: &str) -> (r: DbResult<Self>)
        ensures
            match r {
                Ok(c) => config_in(content@) == Ok::<ConfigModel, ErrorModel>(c@),
                Err(e) => config_in(content@) == Err::<ConfigModel, ErrorModel>(e@),
            },
    {
        let map: KeyValues = match parse_kv(content) {
            Ok(m) => m,
            Err(e) => {
                return Err(e);
            }
        };
        let format_version: u32 = match parse_u32(&map, "FORMAT_VERSION", 1) {
            Ok(n) => n,
            Err(e) => {
                return Err(e);
            }
        };
        if format_version != FORMAT_VERSION {
            let age: &str = if format_version < FORMAT_VERSION { "an older" } else { "a newer" };
            let message: String = "incompatible database format version ".to_owned().concat(
                decimal(format_version as u64).as_str(),
            ).concat(" (expected ").concat(decimal(FORMAT_VERSION as u64).as_str()).concat(
                "). This database was created with ",
            ).concat(age).concat(
                " version of RQDB and cannot be opened. Please recreate the database.",
            );
            return Err(Error::Catalog(message));
        }
        let page_size: usize = match parse_usize(&map, "PAGESIZE", DEFAULT_PAGE_SIZE) {
            Ok(n) => n,
            Err(e) => {
                return Err(e);
            }
        };
        if !is_power_of_two(page_size) || page_size < 512 {
            let message: String = "PAGESIZE must be a power of two >= 512, got ".to_owned().concat(
                decimal(page_size as u64).as_str(),
            );
            return Err(Error::Catalog(message));
        }
        let diag_level: String = parse_text(&map, "DIAGLEVEL", "INFO");
        let d: &str = diag_level.as_str();
        if !(same_str(d, "OFF") || same_str(d, "ERROR") || same_str(d, "WARN")
            || same_str(d, "INFO") || same_str(d, "DEBUG") || same_str(d, "TRACE")) {
            let message: String = "invalid DIAGLEVEL '".to_owned().concat(d).concat(
                "'; expected one of: OFF, ERROR, WARN, INFO, DEBUG, TRACE",
            );
            return Err(Error::Catalog(message));
        }
        let text_mode: bool = match parse_bool(&map, "TEXT_MODE", false) {
            Ok(b) => b,
            Err(e) => {
                return Err(e);
            }
        };
        let default_schema: String = parse_text(&map, "DFT_SCHEMA", "PUBLIC");
        let default_tablespace: String = parse_text(&map, "DFT_TBSP", "USERTBSP");
        let sys_schema: String = parse_text(&map, "SYS_SCHEMA", "RQSYS");
        let next_txid: u64 = match parse_u64(&map, "NEXT_TXID", 1) {
            Ok(n) => n,
            Err(e) => {
                return Err(e);
            }
        };
        Ok(
            Self {
                format_version,
                page_size,
                diag_level,
                text_mode,
                default_schema,
                default_tablespace,
                sys_schema,
                next_txid,
            },
        )
    }
}

// ── Laws of the configuration ──

/// Whether the first `n` characters are no line feeds.
spec fn plain_to(s: Seq<char>, n: nat) -> bool
    decreases n,
{
    n == 0 || (s[n - 1] != '\n' && plain_to(s, (n - 1) as nat))
}

/// Whether `s` is a comment on one line.
spec fn is_comment(s: Seq<char>) -> bool {
    s.len() >= 2 && s[0] == '-' && s[1] == '-' && plain_to(s, s.len()) && s.last() != '\r'
}

/// Whether the first `n` characters may stand in a key.
spec fn key_to(s: Seq<char>, n: nat) -> bool
    decreases n,
{
    n == 0 || (('A' <= s[n - 1] <= 'Z' || s[n - 1] == '_') && key_to(s, (n - 1) as nat))
}

/// Whether `s` is a key.
spec fn is_key(s: Seq<char>) -> bool {
    s.len() > 0 && key_to(s, s.len())
}

/// Whether a value is read as it is written: it is on one line, without white space around it.
pub open spec fn is_value(s: Seq<char>) -> bool {
    trimmed(s) == s && forall|i: int| 0 <= i < s.len() ==> s[i] != '\n'
}

proof fn lemma_comment_1()
    ensures
        is_comment("-- RQDB Database Configuration (SQLDBCONF)"@),
{
    reveal_strlit("-- RQDB Database Configuration (SQLDBCONF)");
    reveal_with_fuel(plain_to, 43);
}

proof fn lemma_comment_2()
    ensures
        is_comment("-- Modify only when the database is offline."@),
{
    reveal_strlit("-- Modify only when the database is offline.");
    reveal_with_fuel(plain_to, 45);
}

proof fn lemma_comment_3()
    ensures
        is_comment("-- On-disk format version.  Do not change manually."@),
{
    reveal_strlit("-- On-disk format version.  Do not change manually.");
    reveal_with_fuel(plain_to, 52);
}

proof fn lemma_comment_4()
    ensures
        is_comment("-- Default page size (bytes) for new tablespaces."@),
{
    reveal_strlit("-- Default page size (bytes) for new tablespaces.");
    reveal_with_fuel(plain_to, 50);
}

proof fn lemma_comment_5()
    ensures
        is_comment("-- Diagnostic level: OFF | ERROR | WARN | INFO | DEBUG | TRACE"@),
{
    reveal_strlit("-- Diagnostic level: OFF | ERROR | WARN | INFO | DEBUG | TRACE");
    reveal_with_fuel(plain_to, 63);
}

proof fn lemma_comment_6()
    ensures
        is_comment("-- Data file format: TRUE = tab-separated text, FALSE = binary."@),
{
    reveal_strlit("-- Data file format: TRUE = tab-separated text, FALSE = binary.");
    reveal_with_fuel(plain_to, 64);
}

proof fn lemma_comment_7()
    ensures
        is_comment("-- Default schema for unqualified table names (DB2: DFT_SCHEMA)."@),
{
    reveal_strlit("-- Default schema for unqualified table names (DB2: DFT_SCHEMA).");
    reveal_with_fuel(plain_to, 65);
}

proof fn lemma_comment_8()
    ensures
        is_comment("-- Default tablespace for user-created tables (DB2: DFT_TBSP)."@),
{
    reveal_strlit("-- Default tablespace for user-created tables (DB2: DFT_TBSP).");
    reveal_with_fuel(plain_to, 63);
}

proof fn lemma_comment_9()
    ensures
        is_comment("-- System catalog schema name.  Do not change after bootstrap."@),
{
    reveal_strlit("-- System catalog schema name.  Do not change after bootstrap.");
    reveal_with_fuel(plain_to, 63);
}

proof fn lemma_comment_10()
    ensures
        is_comment("-- Next transaction ID (monotonic counter).  Updated on shutdown."@),
{
    reveal_strlit("-- Next transaction ID (monotonic counter).  Updated on shutdown.");
    reveal_with_fuel(plain_to, 66);
}

proof fn lemma_comments()
    ensures
        is_comment("-- RQDB Database Configuration (SQLDBCONF)"@),
        is_comment("-- Modify only when the database is offline."@),
        is_comment("-- On-disk format version.  Do not change manually."@),
        is_comment("-- Default page size (bytes) for new tablespaces."@),
        is_comment("-- Diagnostic level: OFF | ERROR | WARN | INFO | DEBUG | TRACE"@),
        is_comment("-- Data file format: TRUE = tab-separated text, FALSE = binary."@),
        is_comment("-- Default schema for unqualified table names (DB2: DFT_SCHEMA)."@),
        is_comment("-- Default tablespace for user-created tables (DB2: DFT_TBSP)."@),
        is_comment("-- System catalog schema name.  Do not change after bootstrap."@),
        is_comment("-- Next transaction ID (monotonic counter).  Updated on shutdown."@),
{
    lemma_comment_1();
    lemma_comment_2();
    lemma_comment_3();
    lemma_comment_4();
    lemma_comment_5();
    lemma_comment_6();
    lemma_comment_7();
    lemma_comment_8();
    lemma_comment_9();
    lemma_comment_10();
}

proof fn lemma_keys()
    ensures
        is_key("FORMAT_VERSION"@),
        is_key("PAGESIZE"@),
        is_key("DIAGLEVEL"@),
        is_key("TEXT_MODE"@),
        is_key("DFT_SCHEMA"@),
        is_key("DFT_TBSP"@),
        is_key("SYS_SCHEMA"@),
        is_key("NEXT_TXID"@),
{
    assert(is_key("FORMAT_VERSION"@)) by {
        reveal_strlit("FORMAT_VERSION");
        reveal_with_fuel(key_to, 16);
    }
    assert(is_key("PAGESIZE"@)) by {
        reveal_strlit("PAGESIZE");
        reveal_with_fuel(key_to, 10);
    }
    assert(is_key("DIAGLEVEL"@)) by {
        reveal_strlit("DIAGLEVEL");
        reveal_with_fuel(key_to, 11);
    }
    assert(is_key("TEXT_MODE"@)) by {
        reveal_strlit("TEXT_MODE");
        reveal_with_fuel(key_to, 11);
    }
    assert(is_key("DFT_SCHEMA"@)) by {
        reveal_strlit("DFT_SCHEMA");
        reveal_with_fuel(key_to, 12);
    }
    assert(is_key("DFT_TBSP"@)) by {
        reveal_strlit("DFT_TBSP");
        reveal_with_fuel(key_to, 10);
    }
    assert(is_key("SYS_SCHEMA"@)) by {
        reveal_strlit("SYS_SCHEMA");
        reveal_with_fuel(key_to, 12);
    }
    assert(is_key("NEXT_TXID"@)) by {
        reveal_strlit("NEXT_TXID");
        reveal_with_fuel(key_to, 11);
    }
}

proof fn lemma_plain_to(s: Seq<char>, n: nat)
    requires
        plain_to(s, n),
    ensures
        forall|i: int| 0 <= i < n ==> s[i] != '\n',
    decreases n,
{
    if n > 0 {
        lemma_plain_to(s, (n - 1) as nat);
    }
}

proof fn lemma_key_to(s: Seq<char>, n: nat)
    requires
        key_to(s, n),
    ensures
        forall|i: int|
            0 <= i < n ==> 'A' <= #[trigger] s[i] <= 'Z' || s[i] == '_',
    decreases n,
{
    if n > 0 {
        lemma_key_to(s, (n - 1) as nat);
    }
}

proof fn lemma_trim_back_keeps(s: Seq<char>, k: int)
    requires
        0 <= k < s.len(),
        !is_space(s[k]),
    ensures
        trim_back(s).len() > k,
        forall|i: int| 0 <= i <= k ==> trim_back(s)[i] == s[i],
    decreases s.len(),
{
    if is_space(s.last()) {
        let d = s.drop_last();
        lemma_trim_back_keeps(d, k);
        assert forall|i: int| 0 <= i <= k implies trim_back(s)[i] == s[i] by {
            assert(trim_back(d)[i] == d[i]);
        }
    }
}

proof fn lemma_comment_line(line: Seq<char>, n: nat)
    requires
        is_comment(line),
    ensures
        kv_line(line, n) == Ok::<Option<(Seq<char>, Seq<char>)>, ErrorModel>(None),
{
    lemma_trim_back_keeps(line, 1);
    assert(trim_front(line) == line);
}

/// A key is its own upper-case form and has no white space.
proof fn lemma_key(key: Seq<char>)
    requires
        is_key(key),
    ensures
        uppercase(key) == key,
        forall|i: int| 0 <= i < key.len() ==> !is_space(#[trigger] key[i]) && key[i] != '='
            && key[i] != '\n' && key[i] != '-',
{
    lemma_key_to(key, key.len());
    assert(is_ascii_chars(key)) by {
        assert forall|i: int| 0 <= i < key.len() implies 0 <= (#[trigger] key[i] as nat) < 128 by {}
    }
    assert(key.map_values(|c: char| ascii_upper(c)) =~= key);
}

proof fn lemma_first_index(s: Seq<char>, c: char, k: int)
    requires
        0 <= k < s.len(),
        s[k] == c,
        forall|i: int| 0 <= i < k ==> s[i] != c,
    ensures
        first_index(s, c) == k,
    decreases k,
{
    if k > 0 {
        lemma_first_index(s.drop_first(), c, k - 1);
    }
}
proof fn lemma_trim_back_len(s: Seq<char>)
    ensures
        trim_back(s).len() <= s.len(),
        trim_back(s).len() == s.len() ==> trim_back(s) == s,
        trim_back(s).len() > 0 ==> !is_space(trim_back(s).last()) && trim_back(s)[0] == s[0],
    decreases s.len(),
{
    if s.len() > 0 && is_space(s.last()) {
        lemma_trim_back_len(s.drop_last());
    }
}

proof fn lemma_trim_front_len(s: Seq<char>)
    ensures
        trim_front(s).len() <= s.len(),
        trim_front(s).len() == s.len() ==> trim_front(s) == s,
        trim_front(s).len() > 0 ==> !is_space(trim_front(s)[0]),
    decreases s.len(),
{
    if s.len() > 0 && is_space(s[0]) {
        lemma_trim_front_len(s.drop_first());
    }
}

/// What is trimmed has no white space at its ends.
proof fn lemma_trimmed_ends(s: Seq<char>)
    requires
        trimmed(s) == s,
        s.len() > 0,
    ensures
        !is_space(s[0]),
        !is_space(s.last()),
{
    lemma_trim_front_len(s);
    lemma_trim_back_len(trim_front(s));
}

/// A line `KEY = VALUE` gives the key and the value.
proof fn lemma_setting_line(key: Seq<char>, value: Seq<char>, n: nat)
    requires
        is_key(key),
        is_value(value),
    ensures
        kv_line(setting(key, value), n) == Ok::<Option<(Seq<char>, Seq<char>)>, ErrorModel>(
            Some((key, value)),
        ),
{
    reveal_strlit(" = ");
    lemma_key(key);
    let line = setting(key, value);
    let k = key.len() as int;
    assert(line[k] == ' ' && line[k + 1] == '=' && line[k + 2] == ' ');
    assert(line[0] == key[0]);
    assert(trim_front(line) == line);
    let t = trimmed(line);
    if value.len() == 0 {
        let shorter = line.drop_last();
        assert(line.last() == ' ');
        assert(trim_back(line) == trim_back(shorter));
        assert(shorter.last() == '=');
        assert(t == shorter);
    } else {
        lemma_trimmed_ends(value);
        assert(line.last() == value.last());
        assert(t == line);
    }
    assert forall|i: int| 0 <= i < k + 1 implies t[i] != '=' by {
        if i < k {
            assert(t[i] == key[i]);
        }
    }
    assert(t[k + 1] == '=');
    lemma_first_index(t, '=', k + 1);
    assert(t[0] == key[0]);
    // The key.
    let left = t.subrange(0, k + 1);
    assert(left.drop_last() =~= key);
    assert(left.last() == ' ');
    assert(trim_front(left) == left) by {
        assert(left[0] == key[0]);
    }
    assert(trim_back(left) == trim_back(key));
    assert(trim_back(key) == key);
    // The value.
    let right = t.subrange(k + 2, t.len() as int);
    if value.len() == 0 {
        assert(right =~= Seq::<char>::empty());
        assert(value =~= Seq::<char>::empty());
    } else {
        assert(right[0] == ' ');
        assert(right.drop_first() =~= value);
        assert(trim_front(right) == trim_front(value));
    }
}

/// One line more at the end of a text.
proof fn lemma_split_line(front: Seq<char>, line: Seq<char>, k: int)
    requires
        0 <= k <= line.len(),
        forall|i: int| 0 <= i < line.len() ==> line[i] != '\n',
        split_parts(front, '\n').len() > 0,
        split_parts(front, '\n').last() == Seq::<char>::empty(),
    ensures
        ({
            let parts = split_parts(front, '\n');
            split_parts(front + line.subrange(0, k), '\n') == parts.update(
                parts.len() - 1,
                line.subrange(0, k),
            )
        }),
    decreases k,
{
    let parts = split_parts(front, '\n');
    if k == 0 {
        assert(front + line.subrange(0, 0) =~= front);
        assert(line.subrange(0, 0) =~= Seq::<char>::empty());
        assert(parts.update(parts.len() - 1, line.subrange(0, 0)) =~= parts);
    } else {
        lemma_split_line(front, line, k - 1);
        let s = front + line.subrange(0, k);
        assert(s.drop_last() =~= front + line.subrange(0, k - 1));
        assert(s.last() == line[k - 1]);
        assert(line.subrange(0, k - 1).push(line[k - 1]) =~= line.subrange(0, k));
        let before = parts.update(parts.len() - 1, line.subrange(0, k - 1));
        assert(before.update(before.len() - 1, before.last().push(line[k - 1])) =~= parts.update(
            parts.len() - 1,
            line.subrange(0, k),
        ));
    }
}

proof fn lemma_split_lines(ls: Seq<Seq<char>>, n: int)
    requires
        0 <= n <= ls.len(),
        forall|j: int, i: int|
            0 <= j < ls.len() && 0 <= i < ls[j].len() ==> #[trigger] ls[j][i] != '\n',
    ensures
        split_parts(ended_lines(ls, n), '\n') == ls.subrange(0, n).push(Seq::empty()),
    decreases n,
{
    if n == 0 {
        assert(split_parts(ended_lines(ls, n), '\n') =~= ls.subrange(0, n).push(Seq::empty()));
    } else {
        lemma_split_lines(ls, n - 1);
        let front = ended_lines(ls, n - 1);
        let line = ls[n - 1];
        let parts = split_parts(front, '\n');
        lemma_split_line(front, line, line.len() as int);
        assert(line.subrange(0, line.len() as int) =~= line);
        let s = ended_lines(ls, n);
        assert(s.drop_last() =~= front + line);
        assert(s.last() == '\n');
        assert(parts.update(parts.len() - 1, line).push(Seq::empty()) =~= ls.subrange(0, n).push(
            Seq::empty(),
        ));
    }
}

/// Lines that were ended by line feeds are read back as they were.
pub proof fn law_lines_round_trip(ls: Seq<Seq<char>>)
    requires
        forall|j: int, i: int|
            0 <= j < ls.len() && 0 <= i < ls[j].len() ==> #[trigger] ls[j][i] != '\n',
        forall|j: int|
            0 <= j < ls.len() && (#[trigger] ls[j]).len() > 0 ==> ls[j].last() != '\r',
    ensures
        line_seq(ended_lines(ls, ls.len() as int)) == ls,
{
    let n = ls.len() as int;
    lemma_split_lines(ls, n);
    assert(ls.subrange(0, n) =~= ls);
    let parts = split_parts(ended_lines(ls, n), '\n');
    assert(line_seq(ended_lines(ls, n)) =~= ls);
}

/// Whether a configuration is one that can be read.
pub open spec fn is_config(c: ConfigModel) -> bool {
    &&& c.format_version == 2
    &&& is_page_size(c.page_size)
    &&& c.page_size <= usize::MAX
    &&& is_diag_level(c.diag_level)
    &&& is_value(c.default_schema)
    &&& is_value(c.default_tablespace)
    &&& is_value(c.sys_schema)
    &&& c.next_txid <= u64::MAX
}

/// The keys and values that the file of a configuration holds.
spec fn config_pairs(c: ConfigModel) -> Seq<(Seq<char>, Seq<char>)> {
    seq![
        ("FORMAT_VERSION"@, digits10(c.format_version)),
        ("PAGESIZE"@, digits10(c.page_size)),
        ("DIAGLEVEL"@, c.diag_level),
        ("TEXT_MODE"@, if c.text_mode { "TRUE"@ } else { "FALSE"@ }),
        ("DFT_SCHEMA"@, c.default_schema),
        ("DFT_TBSP"@, c.default_tablespace),
        ("SYS_SCHEMA"@, c.sys_schema),
        ("NEXT_TXID"@, digits10(c.next_txid)),
    ]
}

/// A text whose ends are no white space, and which is on one line, is a value.
proof fn lemma_is_value(s: Seq<char>)
    requires
        s.len() > 0,
        forall|i: int| 0 <= i < s.len() ==> !is_space(#[trigger] s[i]),
    ensures
        is_value(s),
{
    assert(trim_front(s) == s);
    assert(trim_back(s) == s);
    assert forall|i: int| 0 <= i < s.len() implies s[i] != '\n' by {
        assert(!is_space(s[i]));
    }
}

proof fn lemma_digits_value(n: nat)
    ensures
        is_value(digits10(n)),
{
    lemma_digits10(n);
    assert forall|i: int| 0 <= i < digits10(n).len() implies !is_space(
        #[trigger] digits10(n)[i],
    ) by {
        assert(is_digit(digits10(n)[i]));
    }
    lemma_is_value(digits10(n));
}

proof fn lemma_word_values()
    ensures
        is_value("TRUE"@),
        is_value("FALSE"@),
        is_value("OFF"@),
        is_value("ERROR"@),
        is_value("WARN"@),
        is_value("INFO"@),
        is_value("DEBUG"@),
        is_value("TRACE"@),
{
    reveal_strlit("TRUE");
    reveal_strlit("FALSE");
    reveal_strlit("OFF");
    reveal_strlit("ERROR");
    reveal_strlit("WARN");
    reveal_strlit("INFO");
    reveal_strlit("DEBUG");
    reveal_strlit("TRACE");
    lemma_is_value("TRUE"@);
    lemma_is_value("FALSE"@);
    lemma_is_value("OFF"@);
    lemma_is_value("ERROR"@);
    lemma_is_value("WARN"@);
    lemma_is_value("INFO"@);
    lemma_is_value("DEBUG"@);
    lemma_is_value("TRACE"@);
}

proof fn lemma_blank_line(line: Seq<char>, n: nat)
    requires
        line == ""@,
    ensures
        kv_line(line, n) == Ok::<Option<(Seq<char>, Seq<char>)>, ErrorModel>(None),
        line.len() == 0,
{
    reveal_strlit("");
}

spec fn pairs_ok(kv: Seq<(Seq<char>, Seq<char>)>) -> Result<
    Seq<(Seq<char>, Seq<char>)>,
    ErrorModel,
> {
    Ok(kv)
}

proof fn lemma_config_pairs(c: ConfigModel)
    requires
        is_config(c),
    ensures
        kv_pairs(config_lines(c), 26) == pairs_ok(config_pairs(c)),
        forall|k: int|
            0 <= k < 8 ==> is_key(#[trigger] config_pairs(c)[k].0) && is_value(
                config_pairs(c)[k].1,
            ),
{
    lemma_comments();
    lemma_keys();
    lemma_digits_value(c.format_version);
    lemma_digits_value(c.page_size);
    lemma_digits_value(c.next_txid);
    lemma_word_values();
    let ls = config_lines(c);
    let kv = config_pairs(c);
    assert(kv_pairs(ls, 0) == pairs_ok(kv.subrange(0, 0))) by {
        assert(kv.subrange(0, 0) =~= Seq::<(Seq<char>, Seq<char>)>::empty());
    }
    lemma_comment_line(ls[0], 1);
    assert(kv_pairs(ls, 1) == pairs_ok(kv.subrange(0, 0))) by {
        assert(kv.subrange(0, 0) =~= kv.subrange(0, 0));
    }
    lemma_comment_line(ls[1], 2);
    assert(kv_pairs(ls, 2) == pairs_ok(kv.subrange(0, 0))) by {
        assert(kv.subrange(0, 0) =~= kv.subrange(0, 0));
    }
    lemma_blank_line(ls[2], 3);
    assert(kv_pairs(ls, 3) == pairs_ok(kv.subrange(0, 0))) by {
        assert(kv.subrange(0, 0) =~= kv.subrange(0, 0));
    }
    lemma_comment_line(ls[3], 4);
    assert(kv_pairs(ls, 4) == pairs_ok(kv.subrange(0, 0))) by {
        assert(kv.subrange(0, 0) =~= kv.subrange(0, 0));
    }
    lemma_setting_line(kv[0].0, kv[0].1, 5);
    assert(kv_pairs(ls, 5) == pairs_ok(kv.subrange(0, 1))) by {
        assert(kv.subrange(0, 0).push(kv[0]) =~= kv.subrange(0, 1));
    }
    lemma_blank_line(ls[5], 6);
    assert(kv_pairs(ls, 6) == pairs_ok(kv.subrange(0, 1))) by {
        assert(kv.subrange(0, 1) =~= kv.subrange(0, 1));
    }
    lemma_comment_line(ls[6], 7);
    assert(kv_pairs(ls, 7) == pairs_ok(kv.subrange(0, 1))) by {
        assert(kv.subrange(0, 1) =~= kv.subrange(0, 1));
    }
    lemma_setting_line(kv[1].0, kv[1].1, 8);
    assert(kv_pairs(ls, 8) == pairs_ok(kv.subrange(0, 2))) by {
        assert(kv.subrange(0, 1).push(kv[1]) =~= kv.subrange(0, 2));
    }
    lemma_blank_line(ls[8], 9);
    assert(kv_pairs(ls, 9) == pairs_ok(kv.subrange(0, 2))) by {
        assert(kv.subrange(0, 2) =~= kv.subrange(0, 2));
    }
    lemma_comment_line(ls[9], 10);
    assert(kv_pairs(ls, 10) == pairs_ok(kv.subrange(0, 2))) by {
        assert(kv.subrange(0, 2) =~= kv.subrange(0, 2));
    }
    lemma_setting_line(kv[2].0, kv[2].1, 11);
    assert(kv_pairs(ls, 11) == pairs_ok(kv.subrange(0, 3))) by {
        assert(kv.subrange(0, 2).push(kv[2]) =~= kv.subrange(0, 3));
    }
    lemma_blank_line(ls[11], 12);
    assert(kv_pairs(ls, 12) == pairs_ok(kv.subrange(0, 3))) by {
        assert(kv.subrange(0, 3) =~= kv.subrange(0, 3));
    }
    lemma_comment_line(ls[12], 13);
    assert(kv_pairs(ls, 13) == pairs_ok(kv.subrange(0, 3))) by {
        assert(kv.subrange(0, 3) =~= kv.subrange(0, 3));
    }
    lemma_setting_line(kv[3].0, kv[3].1, 14);
    assert(kv_pairs(ls, 14) == pairs_ok(kv.subrange(0, 4))) by {
        assert(kv.subrange(0, 3).push(kv[3]) =~= kv.subrange(0, 4));
    }
    lemma_blank_line(ls[14], 15);
    assert(kv_pairs(ls, 15) == pairs_ok(kv.subrange(0, 4))) by {
        assert(kv.subrange(0, 4) =~= kv.subrange(0, 4));
    }
    lemma_comment_line(ls[15], 16);
    assert(kv_pairs(ls, 16) == pairs_ok(kv.subrange(0, 4))) by {
        assert(kv.subrange(0, 4) =~= kv.subrange(0, 4));
    }
    lemma_setting_line(kv[4].0, kv[4].1, 17);
    assert(kv_pairs(ls, 17) == pairs_ok(kv.subrange(0, 5))) by {
        assert(kv.subrange(0, 4).push(kv[4]) =~= kv.subrange(0, 5));
    }
    lemma_blank_line(ls[17], 18);
    assert(kv_pairs(ls, 18) == pairs_ok(kv.subrange(0, 5))) by {
        assert(kv.subrange(0, 5) =~= kv.subrange(0, 5));
    }
    lemma_comment_line(ls[18], 19);
    assert(kv_pairs(ls, 19) == pairs_ok(kv.subrange(0, 5))) by {
        assert(kv.subrange(0, 5) =~= kv.subrange(0, 5));
    }
    lemma_setting_line(kv[5].0, kv[5].1, 20);
    assert(kv_pairs(ls, 20) == pairs_ok(kv.subrange(0, 6))) by {
        assert(kv.subrange(0, 5).push(kv[5]) =~= kv.subrange(0, 6));
    }
    lemma_blank_line(ls[20], 21);
    assert(kv_pairs(ls, 21) == pairs_ok(kv.subrange(0, 6))) by {
        assert(kv.subrange(0, 6) =~= kv.subrange(0, 6));
    }
    lemma_comment_line(ls[21], 22);
    assert(kv_pairs(ls, 22) == pairs_ok(kv.subrange(0, 6))) by {
        assert(kv.subrange(0, 6) =~= kv.subrange(0, 6));
    }
    lemma_setting_line(kv[6].0, kv[6].1, 23);
    assert(kv_pairs(ls, 23) == pairs_ok(kv.subrange(0, 7))) by {
        assert(kv.subrange(0, 6).push(kv[6]) =~= kv.subrange(0, 7));
    }
    lemma_blank_line(ls[23], 24);
    assert(kv_pairs(ls, 24) == pairs_ok(kv.subrange(0, 7))) by {
        assert(kv.subrange(0, 7) =~= kv.subrange(0, 7));
    }
    lemma_comment_line(ls[24], 25);
    assert(kv_pairs(ls, 25) == pairs_ok(kv.subrange(0, 7))) by {
        assert(kv.subrange(0, 7) =~= kv.subrange(0, 7));
    }
    lemma_setting_line(kv[7].0, kv[7].1, 26);
    assert(kv_pairs(ls, 26) == pairs_ok(kv.subrange(0, 8))) by {
        assert(kv.subrange(0, 7).push(kv[7]) =~= kv.subrange(0, 8));
    }
    assert(kv.subrange(0, 8) =~= kv);
}

/// The keys of a configuration differ from each other.
proof fn lemma_keys_differ()
    ensures
        "FORMAT_VERSION"@ != "PAGESIZE"@,
        "FORMAT_VERSION"@ != "DIAGLEVEL"@,
        "FORMAT_VERSION"@ != "TEXT_MODE"@,
        "FORMAT_VERSION"@ != "DFT_SCHEMA"@,
        "FORMAT_VERSION"@ != "DFT_TBSP"@,
        "FORMAT_VERSION"@ != "SYS_SCHEMA"@,
        "FORMAT_VERSION"@ != "NEXT_TXID"@,
        "PAGESIZE"@ != "DIAGLEVEL"@,
        "PAGESIZE"@ != "TEXT_MODE"@,
        "PAGESIZE"@ != "DFT_SCHEMA"@,
        "PAGESIZE"@ != "DFT_TBSP"@,
        "PAGESIZE"@ != "SYS_SCHEMA"@,
        "PAGESIZE"@ != "NEXT_TXID"@,
        "DIAGLEVEL"@ != "TEXT_MODE"@,
        "DIAGLEVEL"@ != "DFT_SCHEMA"@,
        "DIAGLEVEL"@ != "DFT_TBSP"@,
        "DIAGLEVEL"@ != "SYS_SCHEMA"@,
        "DIAGLEVEL"@ != "NEXT_TXID"@,
        "TEXT_MODE"@ != "DFT_SCHEMA"@,
        "TEXT_MODE"@ != "DFT_TBSP"@,
        "TEXT_MODE"@ != "SYS_SCHEMA"@,
        "TEXT_MODE"@ != "NEXT_TXID"@,
        "DFT_SCHEMA"@ != "DFT_TBSP"@,
        "DFT_SCHEMA"@ != "SYS_SCHEMA"@,
        "DFT_SCHEMA"@ != "NEXT_TXID"@,
        "DFT_TBSP"@ != "SYS_SCHEMA"@,
        "DFT_TBSP"@ != "NEXT_TXID"@,
        "SYS_SCHEMA"@ != "NEXT_TXID"@,
{
    reveal_strlit("FORMAT_VERSION");
    reveal_strlit("PAGESIZE");
    reveal_strlit("DIAGLEVEL");
    reveal_strlit("TEXT_MODE");
    reveal_strlit("DFT_SCHEMA");
    reveal_strlit("DFT_TBSP");
    reveal_strlit("SYS_SCHEMA");
    reveal_strlit("NEXT_TXID");
    assert("FORMAT_VERSION"@.len() == 14);
    assert("PAGESIZE"@.len() == 8);
    assert("DIAGLEVEL"@.len() == 9);
    assert("TEXT_MODE"@.len() == 9);
    assert("DFT_SCHEMA"@.len() == 10);
    assert("DFT_TBSP"@.len() == 8);
    assert("SYS_SCHEMA"@.len() == 10);
    assert("NEXT_TXID"@.len() == 9);
    assert("PAGESIZE"@[0] != "DFT_TBSP"@[0]);
    assert("DIAGLEVEL"@[0] != "TEXT_MODE"@[0]);
    assert("DIAGLEVEL"@[0] != "NEXT_TXID"@[0]);
    assert("TEXT_MODE"@[0] != "NEXT_TXID"@[0]);
    assert("DFT_SCHEMA"@[0] != "SYS_SCHEMA"@[0]);
}

proof fn lemma_config_lookup(c: ConfigModel)
    ensures
        ({
            let kv = config_pairs(c);
            &&& lookup(kv, "FORMAT_VERSION"@) == Some(kv[0].1)
            &&& lookup(kv, "PAGESIZE"@) == Some(kv[1].1)
            &&& lookup(kv, "DIAGLEVEL"@) == Some(kv[2].1)
            &&& lookup(kv, "TEXT_MODE"@) == Some(kv[3].1)
            &&& lookup(kv, "DFT_SCHEMA"@) == Some(kv[4].1)
            &&& lookup(kv, "DFT_TBSP"@) == Some(kv[5].1)
            &&& lookup(kv, "SYS_SCHEMA"@) == Some(kv[6].1)
            &&& lookup(kv, "NEXT_TXID"@) == Some(kv[7].1)
        }),
{
    lemma_keys_differ();
    let kv = config_pairs(c);
    reveal_with_fuel(lookup, 9);
    let k0 = kv;
    let k1 = kv.drop_last();
    let k2 = kv.drop_last().drop_last();
    let k3 = kv.drop_last().drop_last().drop_last();
    let k4 = kv.drop_last().drop_last().drop_last().drop_last();
    let k5 = kv.drop_last().drop_last().drop_last().drop_last().drop_last();
    let k6 = kv.drop_last().drop_last().drop_last().drop_last().drop_last().drop_last();
    let k7 = kv.drop_last().drop_last().drop_last().drop_last().drop_last().drop_last().drop_last();
    assert(k0.last() == kv[7]);
    assert(k1.last() == kv[6]);
    assert(k2.last() == kv[5]);
    assert(k3.last() == kv[4]);
    assert(k4.last() == kv[3]);
    assert(k5.last() == kv[2]);
    assert(k6.last() == kv[1]);
    assert(k7.last() == kv[0]);
}

/// A configuration that was written to its file is read back as it was.
pub proof fn law_config_round_trip(c: ConfigModel)
    requires
        is_config(c),
    ensures
        config_in(ended_lines(config_lines(c), 26)) == Ok::<ConfigModel, ErrorModel>(c),
{
    let ls = config_lines(c);
    let kv = config_pairs(c);
    lemma_config_pairs(c);
    lemma_config_lines_plain(c);
    law_lines_round_trip(ls);
    assert(ls.len() == 26);
    lemma_config_lookup(c);
    lemma_parse_decimal(c.format_version, u32::MAX as nat);
    lemma_parse_decimal(c.page_size, usize::MAX as nat);
    lemma_parse_decimal(c.next_txid, u64::MAX as nat);
    assert("TRUE"@ != "FALSE"@) by {
        reveal_strlit("TRUE");
        reveal_strlit("FALSE");
    }
}

/// No line of a configuration file holds a line feed or ends in a carriage return.
proof fn lemma_config_lines_plain(c: ConfigModel)
    requires
        is_config(c),
    ensures
        forall|j: int, i: int|
            0 <= j < 26 && 0 <= i < config_lines(c)[j].len() ==> #[trigger] config_lines(c)[j][i]
                != '\n',
        forall|j: int|
            0 <= j < 26 && (#[trigger] config_lines(c)[j]).len() > 0 ==> config_lines(c)[j].last()
                != '\r',
{
    let ls = config_lines(c);
    lemma_comments();
    lemma_keys();
    lemma_digits_value(c.format_version);
    lemma_digits_value(c.page_size);
    lemma_digits_value(c.next_txid);
    lemma_word_values();
    reveal_strlit("");
    lemma_comment_plain(ls[0]);
    lemma_comment_plain(ls[1]);
    lemma_comment_plain(ls[3]);
    lemma_setting_plain(config_pairs(c)[0].0, config_pairs(c)[0].1);
    lemma_comment_plain(ls[6]);
    lemma_setting_plain(config_pairs(c)[1].0, config_pairs(c)[1].1);
    lemma_comment_plain(ls[9]);
    lemma_setting_plain(config_pairs(c)[2].0, config_pairs(c)[2].1);
    lemma_comment_plain(ls[12]);
    lemma_setting_plain(config_pairs(c)[3].0, config_pairs(c)[3].1);
    lemma_comment_plain(ls[15]);
    lemma_setting_plain(config_pairs(c)[4].0, config_pairs(c)[4].1);
    lemma_comment_plain(ls[18]);
    lemma_setting_plain(config_pairs(c)[5].0, config_pairs(c)[5].1);
    lemma_comment_plain(ls[21]);
    lemma_setting_plain(config_pairs(c)[6].0, config_pairs(c)[6].1);
    lemma_comment_plain(ls[24]);
    lemma_setting_plain(config_pairs(c)[7].0, config_pairs(c)[7].1);
    assert forall|j: int| 0 <= j < 26 implies plain_line(#[trigger] ls[j]) by {
        assert(plain_line(ls[0]));
        assert(plain_line(ls[1]));
        assert(plain_line(ls[2]));
        assert(plain_line(ls[3]));
        assert(plain_line(ls[4]));
        assert(plain_line(ls[5]));
        assert(plain_line(ls[6]));
        assert(plain_line(ls[7]));
        assert(plain_line(ls[8]));
        assert(plain_line(ls[9]));
        assert(plain_line(ls[10]));
        assert(plain_line(ls[11]));
        assert(plain_line(ls[12]));
        assert(plain_line(ls[13]));
        assert(plain_line(ls[14]));
        assert(plain_line(ls[15]));
        assert(plain_line(ls[16]));
        assert(plain_line(ls[17]));
        assert(plain_line(ls[18]));
        assert(plain_line(ls[19]));
        assert(plain_line(ls[20]));
        assert(plain_line(ls[21]));
        assert(plain_line(ls[22]));
        assert(plain_line(ls[23]));
        assert(plain_line(ls[24]));
        assert(plain_line(ls[25]));
    }
}

/// Whether a line holds no line feed and does not end in a carriage return.
spec fn plain_line(s: Seq<char>) -> bool {
    &&& forall|i: int| 0 <= i < s.len() ==> #[trigger] s[i] != '\n'
    &&& s.len() > 0 ==> s.last() != '\r'
}

proof fn lemma_comment_plain(s: Seq<char>)
    requires
        is_comment(s),
    ensures
        plain_line(s),
{
    lemma_plain_to(s, s.len());
}

proof fn lemma_setting_plain(key: Seq<char>, value: Seq<char>)
    requires
        is_key(key),
        is_value(value),
    ensures
        plain_line(setting(key, value)),
{
    reveal_strlit(" = ");
    lemma_key(key);
    let line = setting(key, value);
    let k = key.len() as int;
    assert forall|i: int| 0 <= i < line.len() implies #[trigger] line[i] != '\n' by {
        if i < k {
            assert(line[i] == key[i]);
        } else if i >= k + 3 {
            assert(line[i] == value[i - k - 3]);
        }
    }
    if value.len() > 0 {
        lemma_trimmed_ends(value);
        assert(line.last() == value.last());
    } else {
        assert(line.last() == ' ');
    }
}

} // verus!
