//! What the lines of a configuration mean.

use vstd::prelude::*;
use crate::catalog::config::{config_in, config_of, first_index, kv_line, kv_pairs, lookup,
    ConfigModel};
use crate::error::ErrorModel;
use crate::storage::fsm::is_pow2;
use crate::text::{is_blank, law_trimmed_is_what_is_between, line_seq, parsed_unsigned, trimmed,
    uppercase};

verus! {

// ── Lines ──

/// A character is first in a text where it is and no other before it; where it is not there, the
/// length of the text stands for it.
pub proof fn law_first_is_first(s: Seq<char>, c: char)
    ensures
        0 <= first_index(s, c) <= s.len(),
        first_index(s, c) < s.len() ==> s[first_index(s, c)] == c,
        forall|i: int| 0 <= i < first_index(s, c) ==> #[trigger] s[i] != c,
    decreases s.len(),
{
    if s.len() > 0 && s[0] != c {
        let rest = s.drop_first();
        law_first_is_first(rest, c);
        assert forall|i: int| 0 <= i < first_index(s, c) implies #[trigger] s[i] != c by {
            if i > 0 {
                assert(rest[i - 1] == s[i]);
            }
        }
    }
}

/// What a line of a configuration says. One of white space alone, or that starts with `--` behind
/// it, says nothing. Any other has a key, in upper case, before its first `=`, and a value behind
/// it, both without the white space around them; one without `=` is refused.
pub proof fn law_line_sets_a_key(line: Seq<char>, n: nat, at: int)
    ensures
        is_blank(line) ==> kv_line(line, n) == Ok::<Option<(Seq<char>, Seq<char>)>, ErrorModel>(
            None,
        ),
        trimmed(line).len() >= 2 && trimmed(line)[0] == '-' && trimmed(line)[1] == '-' ==> kv_line(
            line,
            n,
        ) == Ok::<Option<(Seq<char>, Seq<char>)>, ErrorModel>(None),
        says_something(line) && (forall|i: int|
            0 <= i < trimmed(line).len() ==> #[trigger] trimmed(line)[i] != '=') ==> kv_line(
            line,
            n,
        ) is Err && kv_line(line, n)->Err_0 is Catalog,
        says_something(line) && 0 <= at < trimmed(line).len() && trimmed(line)[at] == '=' && (
        forall|i: int| 0 <= i < at ==> #[trigger] trimmed(line)[i] != '=') ==> kv_line(line, n)
            == Ok::<Option<(Seq<char>, Seq<char>)>, ErrorModel>(
            Some(
                (
                    uppercase(trimmed(trimmed(line).subrange(0, at))),
                    trimmed(trimmed(line).subrange(at + 1, trimmed(line).len() as int)),
                ),
            ),
        ),
{
    law_trimmed_is_what_is_between(line);
    let t = trimmed(line);
    law_first_is_first(t, '=');
    if 0 <= at < t.len() && t[at] == '=' && (forall|i: int|
        0 <= i < at ==> #[trigger] t[i] != '=') {
        let f = first_index(t, '=');
        if f < at {
            assert(t[f] != '=');
        } else if at < f {
            assert(t[at] != '=');
        }
    }
}

/// Whether a line is neither empty nor a comment.
pub open spec fn says_something(line: Seq<char>) -> bool {
    let t = trimmed(line);
    t.len() > 0 && !(t.len() >= 2 && t[0] == '-' && t[1] == '-')
}

/// The lines of a configuration set their keys one after the other; a line that is refused refuses
/// the configuration.
pub proof fn law_lines_are_read_in_their_order(ls: Seq<Seq<char>>, n: nat)
    requires
        n < ls.len(),
    ensures
        kv_pairs(ls, 0) == Ok::<Seq<(Seq<char>, Seq<char>)>, ErrorModel>(Seq::empty()),
        kv_pairs(ls, n) matches Err(e) ==> kv_pairs(ls, n + 1) == Err::<
            Seq<(Seq<char>, Seq<char>)>,
            ErrorModel,
        >(e),
        kv_pairs(ls, n) matches Ok(before) ==> kv_pairs(ls, n + 1) == (match kv_line(
            ls[n as int],
            n + 1,
        ) {
            Err(e) => Err(e),
            Ok(None) => Ok(before),
            Ok(Some(pair)) => Ok(before.push(pair)),
        }),
{
}

/// The last line that sets a key decides.
pub proof fn law_last_setting_counts(
    kv: Seq<(Seq<char>, Seq<char>)>,
    key: Seq<char>,
    other: Seq<char>,
    value: Seq<char>,
)
    ensures
        lookup(Seq::empty(), key) is None,
        lookup(kv.push((key, value)), key) == Some(value),
        other != key ==> lookup(kv.push((other, value)), key) == lookup(kv, key),
{
    assert(kv.push((key, value)).drop_last() =~= kv);
    assert(kv.push((other, value)).drop_last() =~= kv);
}

// ── Settings ──

/// Whether a text is the name of a level of logging.
pub open spec fn names_level(s: Seq<char>) -> bool {
    s == "OFF"@ || s == "ERROR"@ || s == "WARN"@ || s == "INFO"@ || s == "DEBUG"@ || s == "TRACE"@
}

/// Whether a number is a power of two from 512 on.
pub open spec fn can_be_page_size(n: nat) -> bool {
    exists|k: nat| #[trigger] vstd::arithmetic::power2::pow2(k) == n && k >= 9
}

/// What the settings of a configuration mean, each by its key, and what holds without it. The
/// format must be of version 2, which must be said; the pages have 4096 bytes unless another power
/// of two from 512 on is set; the level is `INFO` unless another is set; the files are not text
/// unless `TRUE` is set; and the names are `PUBLIC`, `USERTBSP` and `RQSYS`, and the next
/// transaction 1, unless others are set. Anything else is refused.
pub proof fn law_settings_mean_what_they_say(kv: Seq<(Seq<char>, Seq<char>)>)
    ensures
        config_of(kv) is Ok <==> {
            &&& lookup(kv, "FORMAT_VERSION"@) matches Some(v) && parsed_unsigned(
                v,
                0xffff_ffff,
            ) == Some(2nat)
            &&& lookup(kv, "PAGESIZE"@) matches Some(v) ==> (parsed_unsigned(
                v,
                usize::MAX as nat,
            ) matches Some(n) && can_be_page_size(n))
            &&& lookup(kv, "DIAGLEVEL"@) matches Some(v) ==> names_level(v)
            &&& lookup(kv, "TEXT_MODE"@) matches Some(v) ==> v == "TRUE"@ || v == "FALSE"@
            &&& lookup(kv, "NEXT_TXID"@) matches Some(v) ==> parsed_unsigned(
                v,
                0xffff_ffff_ffff_ffff,
            ) is Some
        },
        config_of(kv) is Err ==> config_of(kv)->Err_0 is Catalog,
        config_of(kv) matches Ok(c) ==> {
            &&& c.format_version == 2
            &&& c.page_size == match lookup(kv, "PAGESIZE"@) {
                Some(v) => parsed_unsigned(v, usize::MAX as nat)->0,
                None => 4096,
            }
            &&& c.diag_level == match lookup(kv, "DIAGLEVEL"@) {
                Some(v) => v,
                None => "INFO"@,
            }
            &&& c.text_mode == (lookup(kv, "TEXT_MODE"@) == Some("TRUE"@))
            &&& c.default_schema == match lookup(kv, "DFT_SCHEMA"@) {
                Some(v) => v,
                None => "PUBLIC"@,
            }
            &&& c.default_tablespace == match lookup(kv, "DFT_TBSP"@) {
                Some(v) => v,
                None => "USERTBSP"@,
            }
            &&& c.sys_schema == match lookup(kv, "SYS_SCHEMA"@) {
                Some(v) => v,
                None => "RQSYS"@,
            }
            &&& c.next_txid == match lookup(kv, "NEXT_TXID"@) {
                Some(v) => parsed_unsigned(v, 0xffff_ffff_ffff_ffff)->0,
                None => 1,
            }
        },
{
    reveal_strlit("TRUE");
    reveal_strlit("FALSE");
    assert("TRUE"@.len() != "FALSE"@.len());
    lemma_page_size(4096);
    assert(is_pow2(4096)) by {
        reveal_with_fuel(is_pow2, 14);
    }
    if let Some(v) = lookup(kv, "PAGESIZE"@) {
        if let Some(n) = parsed_unsigned(v, usize::MAX as nat) {
            lemma_page_size(n);
        }
    }
}

/// Which page sizes can be set.
proof fn lemma_page_size(n: nat)
    ensures
        can_be_page_size(n) <==> is_pow2(n) && n >= 512,
{
    vstd::arithmetic::power2::lemma2_to64();
    if is_pow2(n) && n >= 512 {
        let k = lemma_exponent(n);
        if k < 9 {
            vstd::arithmetic::power2::lemma_pow2_strictly_increases(k, 9);
        }
        assert(vstd::arithmetic::power2::pow2(k) == n && k >= 9);
    }
    if can_be_page_size(n) {
        let k = choose|k: nat| #[trigger] vstd::arithmetic::power2::pow2(k) == n && k >= 9;
        lemma_power(k);
        if k > 9 {
            vstd::arithmetic::power2::lemma_pow2_strictly_increases(9, k);
        }
    }
}

proof fn lemma_exponent(n: nat) -> (k: nat)
    requires
        is_pow2(n),
    ensures
        vstd::arithmetic::power2::pow2(k) == n,
    decreases n,
{
    vstd::arithmetic::power2::lemma2_to64();
    if n == 1 {
        0
    } else {
        let k = lemma_exponent(n / 2);
        vstd::arithmetic::power2::lemma_pow2_unfold(k + 1);
        k + 1
    }
}

proof fn lemma_power(k: nat)
    ensures
        is_pow2(vstd::arithmetic::power2::pow2(k)),
    decreases k,
{
    vstd::arithmetic::power2::lemma2_to64();
    if k > 0 {
        lemma_power((k - 1) as nat);
        vstd::arithmetic::power2::lemma_pow2_unfold(k);
        vstd::arithmetic::power2::lemma_pow2_pos((k - 1) as nat);
        let half = vstd::arithmetic::power2::pow2((k - 1) as nat);
        assert(vstd::arithmetic::power2::pow2(k) == 2 * half);
        assert((2 * half) / 2 == half);
    }
}

/// A configuration is what the settings on the lines of its text make it.
pub proof fn law_configuration_is_that_of_its_lines(content: Seq<char>)
    ensures
        kv_pairs(line_seq(content), line_seq(content).len()) matches Err(e) ==> config_in(content)
            == Err::<ConfigModel, ErrorModel>(e),
        kv_pairs(line_seq(content), line_seq(content).len()) matches Ok(kv) ==> config_in(content)
            == config_of(kv),
{
}

} // verus!
