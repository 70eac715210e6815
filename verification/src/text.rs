//! Text: characters, numbers and lines.

use vstd::prelude::*;
use vstd::std_specs::iter::IteratorSpec;
use vstd::string::StringExecFns;
use vstd::utf8::{is_ascii_chars, is_ascii_chars_nat_bound};

verus! {

/// `String::push` appends one character.
pub assume_specification[ String::push ](s: &mut String, c: char)
    ensures
        final(s)@ == old(s)@.push(c),
;

/// The name of what `str::to_uppercase` makes of a text.
pub uninterp spec fn unicode_uppercase(s: Seq<char>) -> Seq<char>;

/// Calls `str::to_uppercase`. Its result depends on the text alone; the Unicode case tables
/// that it follows are not spelled out.
#[verifier::external_body]
fn unicode_to_uppercase(s: &str) -> (r: String)
    ensures
        r@ == unicode_uppercase(s@),
{
    s.to_uppercase()
}

/// The upper-case form of an ASCII character.
pub open spec fn ascii_upper(c: char) -> char {
    if 'a' <= c <= 'z' {
        ((c as u32 - 32) as u32) as char
    } else {
        c
    }
}

/// The upper-case form of a text.
pub open spec fn uppercase(s: Seq<char>) -> Seq<char> {
    if is_ascii_chars(s) {
        s.map_values(|c: char| ascii_upper(c))
    } else {
        unicode_uppercase(s)
    }
}

fn ascii_to_upper(c: char) -> (r: char)
    ensures
        r == ascii_upper(c),
{
    if 'a' <= c && c <= 'z' {
        let d: u8 = (c as u8) - 32;
        d as char
    } else {
        c
    }
}

/// The characters of `s`.
pub fn chars_of(s: &str) -> (r: Vec<char>)
    ensures
        r@ == s@,
{
    let mut it = s.chars();
    let mut out: Vec<char> = Vec::new();
    let ghost mut left: Seq<char> = s@;
    loop
        invariant
            it.remaining() == left,
            it.obeys_prophetic_iter_laws(),
            it.decrease() is Some,
            s@ == out@ + left,
        ensures
            out@ == s@,
        decreases left.len(),
    {
        match it.next() {
            Some(c) => {
                proof {
                    assert(left =~= seq![c] + left.drop_first());
                    assert(s@ =~= out@.push(c) + left.drop_first());
                    left = left.drop_first();
                }
                out.push(c);
            }
            None => {
                assert(out@ =~= s@);
                break;
            }
        }
    }
    out
}

/// The text made of the characters `cs`.
pub fn string_of(cs: &[char]) -> (r: String)
    ensures
        r@ == cs@,
{
    let n: usize = cs.len();
    let mut out: String = String::new();
    let mut i: usize = 0;
    while i < n
        invariant
            i <= n,
            n == cs@.len(),
            out@ == cs@.subrange(0, i as int),
        decreases n - i,
    {
        out.push(cs[i]);
        i += 1;
        assert(cs@.subrange(0, i as int) =~= cs@.subrange(0, i - 1).push(cs@[i - 1]));
    }
    assert(cs@.subrange(0, n as int) =~= cs@);
    out
}

/// The upper-case form of `s`.
pub fn to_uppercase(s: &str) -> (r: String)
    ensures
        r@ == uppercase(s@),
{
    if s.is_ascii() {
        let cs: Vec<char> = chars_of(s);
        let n: usize = cs.len();
        let mut out: String = String::new();
        let mut i: usize = 0;
        while i < n
            invariant
                i <= n,
                n == cs@.len(),
                cs@ == s@,
                out@ == s@.subrange(0, i as int).map_values(|c: char| ascii_upper(c)),
            decreases n - i,
        {
            let u: char = ascii_to_upper(cs[i]);
            out.push(u);
            i += 1;
            assert(out@ =~= s@.subrange(0, i as int).map_values(|c: char| ascii_upper(c)));
        }
        assert(s@.subrange(0, n as int) =~= s@);
        out
    } else {
        unicode_to_uppercase(s)
    }
}

/// The name of what `str::to_lowercase` makes of a text.
pub uninterp spec fn unicode_lowercase(s: Seq<char>) -> Seq<char>;

/// Calls `str::to_lowercase`. Its result depends on the text alone; the Unicode case tables
/// that it follows are not spelled out.
#[verifier::external_body]
fn unicode_to_lowercase(s: &str) -> (r: String)
    ensures
        r@ == unicode_lowercase(s@),
{
    s.to_lowercase()
}

/// The lower-case form of an ASCII character.
pub open spec fn ascii_lower(c: char) -> char {
    if 'A' <= c <= 'Z' {
        ((c as u32 + 32) as u32) as char
    } else {
        c
    }
}

/// The lower-case form of a text.
pub open spec fn lowercase(s: Seq<char>) -> Seq<char> {
    if is_ascii_chars(s) {
        s.map_values(|c: char| ascii_lower(c))
    } else {
        unicode_lowercase(s)
    }
}

/// The lower-case form of an ASCII character.
pub fn ascii_to_lower(c: char) -> (r: char)
    ensures
        r == ascii_lower(c),
{
    if 'A' <= c && c <= 'Z' {
        let d: u8 = (c as u8) + 32;
        d as char
    } else {
        c
    }
}

/// The lower-case form of `s`.
pub fn to_lowercase(s: &str) -> (r: String)
    ensures
        r@ == lowercase(s@),
{
    if s.is_ascii() {
        let cs: Vec<char> = chars_of(s);
        let n: usize = cs.len();
        let mut out: String = String::new();
        let mut i: usize = 0;
        while i < n
            invariant
                i <= n,
                n == cs@.len(),
                cs@ == s@,
                out@ == s@.subrange(0, i as int).map_values(|c: char| ascii_lower(c)),
            decreases n - i,
        {
            let u: char = ascii_to_lower(cs[i]);
            out.push(u);
            i += 1;
            assert(out@ =~= s@.subrange(0, i as int).map_values(|c: char| ascii_lower(c)));
        }
        assert(s@.subrange(0, n as int) =~= s@);
        out
    } else {
        unicode_to_lowercase(s)
    }
}

/// A fresh copy of a text.
pub fn copy_str(s: &str) -> (r: String)
    ensures
        r@ == s@,
{
    s.to_owned()
}

/// Whether two texts are equal.
pub fn same_str(a: &str, b: &str) -> (r: bool)
    ensures
        r == (a@ == b@),
{
    a.to_owned() == b.to_owned()
}

// ── Numbers ──

/// The character of the decimal digit `d`.
pub open spec fn digit_char(d: nat) -> char {
    seq!['0', '1', '2', '3', '4', '5', '6', '7', '8', '9', 'a', 'b', 'c', 'd', 'e', 'f'][d as int]
}

/// The decimal digits of `n`, most significant first, without leading zeros.
pub open spec fn digits10(n: nat) -> Seq<char>
    decreases n,
{
    if n < 10 {
        seq![digit_char(n)]
    } else {
        digits10(n / 10).push(digit_char(n % 10))
    }
}

/// The decimal notation of `i`, with a leading `-` where it is negative.
pub open spec fn int_text(i: int) -> Seq<char> {
    if i < 0 {
        seq!['-'] + digits10((-i) as nat)
    } else {
        digits10(i as nat)
    }
}

/// The `n` low hexadecimal digits of `v`.
pub open spec fn hex_digits(v: nat, n: nat) -> Seq<char>
    decreases n,
{
    if n == 0 {
        Seq::empty()
    } else {
        hex_digits(v / 16, (n - 1) as nat).push(digit_char(v % 16))
    }
}

/// `0x` and eight hexadecimal digits.
pub open spec fn hex_text(v: u32) -> Seq<char> {
    seq!['0', 'x'] + hex_digits(v as nat, 8)
}

fn digit_of(d: u8) -> (c: char)
    requires
        d < 16,
    ensures
        c == digit_char(d as nat),
{
    if d < 10 {
        (48 + d) as char
    } else {
        (87 + d) as char
    }
}

/// Appends the decimal digits of `n` to `out`.
pub fn push_decimal(out: &mut String, n: u128)
    ensures
        final(out)@ == old(out)@ + digits10(n as nat),
    decreases n,
{
    let d: u8 = (n % 10) as u8;
    if n >= 10 {
        push_decimal(out, n / 10);
    }
    out.push(digit_of(d));
    assert(out@ =~= old(out)@ + digits10(n as nat));
}

/// The decimal digits of `n`.
pub fn decimal(n: u64) -> (r: String)
    ensures
        r@ == digits10(n as nat),
{
    decimal_wide(n as u128)
}

/// The decimal digits of a number of up to 128 bits.
pub fn decimal_wide(n: u128) -> (r: String)
    ensures
        r@ == digits10(n as nat),
{
    let mut out: String = String::new();
    push_decimal(&mut out, n);
    assert(out@ =~= digits10(n as nat));
    out
}

/// The decimal notation of `i`.
pub fn decimal_signed(i: i64) -> (r: String)
    ensures
        r@ == int_text(i as int),
{
    let mut out: String = String::new();
    if i < 0 {
        out.push('-');
        let m: u128 = (-(i as i128)) as u128;
        push_decimal(&mut out, m);
    } else {
        push_decimal(&mut out, i as u128);
    }
    assert(out@ =~= int_text(i as int));
    out
}

fn push_hex(out: &mut String, v: u32, n: u8)
    ensures
        final(out)@ == old(out)@ + hex_digits(v as nat, n as nat),
    decreases n,
{
    if n > 0 {
        let d: u8 = (v % 16) as u8;
        push_hex(out, v / 16, n - 1);
        out.push(digit_of(d));
    }
    assert(out@ =~= old(out)@ + hex_digits(v as nat, n as nat));
}

/// `v` as `0x` and eight hexadecimal digits.
pub fn hex8(v: u32) -> (r: String)
    ensures
        r@ == hex_text(v),
{
    let mut out: String = String::new();
    out.push('0');
    out.push('x');
    push_hex(&mut out, v, 8);
    assert(out@ =~= hex_text(v));
    out
}

/// Whether `c` is a decimal digit.
pub open spec fn is_digit(c: char) -> bool {
    '0' <= c <= '9'
}

/// Whether `s` is one digit or more, and nothing else.
pub open spec fn is_digits(s: Seq<char>) -> bool {
    s.len() > 0 && forall|i: int| 0 <= i < s.len() ==> is_digit(#[trigger] s[i])
}

/// The number that a run of decimal digits stands for.
pub open spec fn digits_value(s: Seq<char>) -> nat
    decreases s.len(),
{
    if s.len() == 0 {
        0
    } else {
        10 * digits_value(s.drop_last()) + (s.last() as u32 - '0' as u32) as nat
    }
}

/// The digits of a number written with an optional `+`.
pub open spec fn unsigned_body(s: Seq<char>) -> Seq<char> {
    if s.len() > 0 && s[0] == '+' {
        s.subrange(1, s.len() as int)
    } else {
        s
    }
}

/// The number up to `max` that `s` spells: an optional `+`, then decimal digits alone.
pub open spec fn parsed_unsigned(s: Seq<char>, max: nat) -> Option<nat> {
    let body = unsigned_body(s);
    if is_digits(body) && digits_value(body) <= max {
        Some(digits_value(body))
    } else {
        None
    }
}

/// The number from `min` to `max` that `s` spells: an optional sign, then decimal digits alone.
pub open spec fn parsed_signed(s: Seq<char>, min: int, max: int) -> Option<int> {
    if s.len() > 0 && s[0] == '-' {
        let body = s.subrange(1, s.len() as int);
        if is_digits(body) && -digits_value(body) >= min {
            Some(-digits_value(body))
        } else {
            None
        }
    } else {
        let body = unsigned_body(s);
        if is_digits(body) && digits_value(body) <= max {
            Some(digits_value(body) as int)
        } else {
            None
        }
    }
}

proof fn lemma_digits_value_grows(s: Seq<char>, k: int)
    requires
        0 <= k <= s.len(),
        is_digits(s),
    ensures
        digits_value(s.subrange(0, k)) <= digits_value(s),
    decreases s.len() - k,
{
    if k < s.len() {
        lemma_digits_value_grows(s, k + 1);
        let t = s.subrange(0, k + 1);
        assert(t.drop_last() =~= s.subrange(0, k));
        assert(is_digit(s[k]));
    } else {
        assert(s.subrange(0, k) =~= s);
    }
}

/// The value of the digits in `cs` from `from` on, where it is at most `max`.
fn parse_digits(cs: &Vec<char>, from: usize, max: u64) -> (r: Option<u64>)
    requires
        from <= cs@.len(),
    ensures
        ({
            let body = cs@.subrange(from as int, cs@.len() as int);
            &&& r is Some <==> is_digits(body) && digits_value(body) <= max
            &&& r is Some ==> r->0 == digits_value(body)
        }),
{
    let n: usize = cs.len();
    let ghost body = cs@.subrange(from as int, n as int);
    if from == n {
        return None;
    }
    let mut j: usize = from;
    while j < n
        invariant
            from <= j <= n,
            n == cs@.len(),
            body == cs@.subrange(from as int, n as int),
            forall|i: int| 0 <= i < j - from ==> is_digit(#[trigger] body[i]),
        decreases n - j,
    {
        let c: char = cs[j];
        if !('0' <= c && c <= '9') {
            assert(body[j - from] == c);
            return None;
        }
        j += 1;
    }
    assert(is_digits(body));
    let mut v: u64 = 0;
    let mut i: usize = from;
    while i < n
        invariant
            from <= i <= n,
            n == cs@.len(),
            v <= max,
            body == cs@.subrange(from as int, n as int),
            is_digits(body),
            v == digits_value(body.subrange(0, i - from)),
        decreases n - i,
    {
        let d: u64 = {
            assert(is_digit(body[i - from]));
            (cs[i] as u32 - '0' as u32) as u64
        };
        proof {
            let t = body.subrange(0, i - from + 1);
            assert(t.drop_last() =~= body.subrange(0, i - from));
            lemma_digits_value_grows(body, i - from + 1);
        }
        let wide: u128 = 10 * (v as u128) + d as u128;
        if wide > max as u128 {
            return None;
        }
        v = wide as u64;
        i += 1;
    }
    assert(body.subrange(0, n - from) =~= body);
    Some(v)
}

/// Reads an unsigned number up to `max`.
pub fn parse_unsigned(s: &str, max: u64) -> (r: Option<u64>)
    ensures
        (match r {
            Some(v) => Some(v as nat),
            None => None::<nat>,
        }) == parsed_unsigned(s@, max as nat),
{
    let cs: Vec<char> = chars_of(s);
    if cs.len() > 0 && cs[0] == '+' {
        parse_digits(&cs, 1, max)
    } else {
        assert(s@.subrange(0, s@.len() as int) =~= s@);
        parse_digits(&cs, 0, max)
    }
}

/// Reads a signed number from `min` to `max`.
pub fn parse_signed(s: &str, min: i64, max: i64) -> (r: Option<i64>)
    requires
        min < 0 < max,
    ensures
        (match r {
            Some(v) => Some(v as int),
            None => None::<int>,
        }) == parsed_signed(s@, min as int, max as int),
{
    let cs: Vec<char> = chars_of(s);
    if cs.len() > 0 && cs[0] == '-' {
        let most: u64 = (-(min as i128)) as u64;
        match parse_digits(&cs, 1, most) {
            Some(v) => Some((-(v as i128)) as i64),
            None => None,
        }
    } else {
        let from: usize = if cs.len() > 0 && cs[0] == '+' { 1 } else { 0 };
        assert(s@.subrange(0, s@.len() as int) =~= s@);
        match parse_digits(&cs, from, max as u64) {
            Some(v) => Some(v as i64),
            None => None,
        }
    }
}

/// The decimal notation of a number consists of digits and has its value.
pub proof fn lemma_digits10(n: nat)
    ensures
        is_digits(digits10(n)),
        digits_value(digits10(n)) == n,
    decreases n,
{
    if n < 10 {
        let s = digits10(n);
        assert(s.drop_last() =~= Seq::<char>::empty());
        assert(digits_value(s.drop_last()) == 0);
    } else {
        lemma_digits10(n / 10);
        let s = digits10(n);
        assert(s.drop_last() =~= digits10(n / 10));
        assert forall|i: int| 0 <= i < s.len() implies is_digit(#[trigger] s[i]) by {
            if i < s.len() - 1 {
                assert(s[i] == digits10(n / 10)[i]);
            }
        }
    }
}

/// Reading the decimal notation of a number gives the number back.
pub proof fn lemma_parse_decimal(n: nat, max: nat)
    requires
        n <= max,
    ensures
        parsed_unsigned(digits10(n), max) == Some(n),
{
    lemma_digits10(n);
    assert(is_digit(digits10(n)[0]));
}

/// Reading the signed decimal notation of a number gives the number back.
pub proof fn lemma_parse_int_text(i: int, min: int, max: int)
    requires
        min <= i <= max,
    ensures
        parsed_signed(int_text(i), min, max) == Some(i),
{
    if i < 0 {
        lemma_digits10((-i) as nat);
        let s = int_text(i);
        assert(s.subrange(1, s.len() as int) =~= digits10((-i) as nat));
    } else {
        lemma_digits10(i as nat);
        assert(is_digit(digits10(i as nat)[0]));
    }
}

// ── White space and lines ──

/// Whether `c` has the Unicode property `White_Space`.
pub open spec fn is_space(c: char) -> bool {
    let u = c as u32;
    ||| 0x09 <= u <= 0x0d
    ||| u == 0x20
    ||| u == 0x85
    ||| u == 0xa0
    ||| u == 0x1680
    ||| 0x2000 <= u <= 0x200a
    ||| u == 0x2028
    ||| u == 0x2029
    ||| u == 0x202f
    ||| u == 0x205f
    ||| u == 0x3000
}

fn is_whitespace(c: char) -> (r: bool)
    ensures
        r == is_space(c),
{
    let u: u32 = c as u32;
    (0x09 <= u && u <= 0x0d) || u == 0x20 || u == 0x85 || u == 0xa0 || u == 0x1680 || (0x2000 <= u
        && u <= 0x200a) || u == 0x2028 || u == 0x2029 || u == 0x202f || u == 0x205f || u == 0x3000
}

/// `s` without the white space at its front.
pub open spec fn trim_front(s: Seq<char>) -> Seq<char>
    decreases s.len(),
{
    if s.len() > 0 && is_space(s[0]) {
        trim_front(s.drop_first())
    } else {
        s
    }
}

/// `s` without the white space at its back.
pub open spec fn trim_back(s: Seq<char>) -> Seq<char>
    decreases s.len(),
{
    if s.len() > 0 && is_space(s.last()) {
        trim_back(s.drop_last())
    } else {
        s
    }
}

/// `s` without the white space at both ends.
pub open spec fn trimmed(s: Seq<char>) -> Seq<char> {
    trim_back(trim_front(s))
}

/// A copy of the characters of `cs` from `lo` to `hi`.
pub fn char_range(cs: &[char], lo: usize, hi: usize) -> (r: Vec<char>)
    requires
        lo <= hi <= cs@.len(),
    ensures
        r@ == cs@.subrange(lo as int, hi as int),
{
    let mut out: Vec<char> = Vec::new();
    let mut i: usize = lo;
    while i < hi
        invariant
            lo <= i <= hi <= cs@.len(),
            out@ == cs@.subrange(lo as int, i as int),
        decreases hi - i,
    {
        out.push(cs[i]);
        i += 1;
        assert(cs@.subrange(lo as int, i as int) =~= cs@.subrange(lo as int, i - 1).push(
            cs@[i - 1],
        ));
    }
    out
}

/// The characters of `cs` without the white space at both ends.
pub fn trim(cs: &[char]) -> (r: Vec<char>)
    ensures
        r@ == trimmed(cs@),
{
    let n: usize = cs.len();
    let mut lo: usize = 0;
    assert(cs@.subrange(0, n as int) =~= cs@);
    while lo < n && is_whitespace(cs[lo])
        invariant
            lo <= n,
            n == cs@.len(),
            trim_front(cs@) == trim_front(cs@.subrange(lo as int, n as int)),
        decreases n - lo,
    {
        assert(cs@.subrange(lo as int, n as int).drop_first() =~= cs@.subrange(
            lo + 1,
            n as int,
        ));
        lo += 1;
    }
    let ghost front = cs@.subrange(lo as int, n as int);
    assert(trim_front(front) == front);
    let mut hi: usize = n;
    while hi > lo && is_whitespace(cs[hi - 1])
        invariant
            lo <= hi <= n,
            n == cs@.len(),
            trim_back(front) == trim_back(cs@.subrange(lo as int, hi as int)),
        decreases hi,
    {
        assert(cs@.subrange(lo as int, hi as int).drop_last() =~= cs@.subrange(lo as int, hi - 1));
        hi -= 1;
    }
    char_range(cs, lo, hi)
}

/// The parts of `s` between the occurrences of `sep`, in order.
pub open spec fn split_parts(s: Seq<char>, sep: char) -> Seq<Seq<char>>
    decreases s.len(),
{
    if s.len() == 0 {
        seq![Seq::empty()]
    } else {
        let parts = split_parts(s.drop_last(), sep);
        if s.last() == sep {
            parts.push(Seq::empty())
        } else {
            parts.update(parts.len() - 1, parts.last().push(s.last()))
        }
    }
}

/// The parts of `cs` between the occurrences of `sep`.
pub fn split(cs: &[char], sep: char) -> (r: Vec<Vec<char>>)
    ensures
        r@.map_values(|v: Vec<char>| v@) == split_parts(cs@, sep),
        r@.len() >= 1,
{
    let n: usize = cs.len();
    let mut done: Vec<Vec<char>> = Vec::new();
    let mut part: Vec<char> = Vec::new();
    let mut i: usize = 0;
    assert(done@.map_values(|v: Vec<char>| v@).push(part@) =~= split_parts(
        cs@.subrange(0, 0),
        sep,
    ));
    while i < n
        invariant
            i <= n,
            n == cs@.len(),
            done@.map_values(|v: Vec<char>| v@).push(part@) == split_parts(
                cs@.subrange(0, i as int),
                sep,
            ),
        decreases n - i,
    {
        let c: char = cs[i];
        let ghost before = done@.map_values(|v: Vec<char>| v@).push(part@);
        assert(cs@.subrange(0, i + 1).drop_last() =~= cs@.subrange(0, i as int));
        if c == sep {
            done.push(part);
            part = Vec::new();
            assert(done@.map_values(|v: Vec<char>| v@).push(part@) =~= before.push(Seq::empty()));
        } else {
            part.push(c);
            assert(done@.map_values(|v: Vec<char>| v@).push(part@) =~= before.update(
                before.len() - 1,
                before.last().push(c),
            ));
        }
        i += 1;
    }
    assert(cs@.subrange(0, n as int) =~= cs@);
    let ghost all = done@.map_values(|v: Vec<char>| v@).push(part@);
    done.push(part);
    assert(done@.map_values(|v: Vec<char>| v@) =~= all);
    done
}

/// What has no separator goes on with the last part.
pub proof fn lemma_split_tail(s: Seq<char>, tail: Seq<char>, sep: char)
    requires
        forall|k: int| 0 <= k < tail.len() ==> tail[k] != sep,
    ensures
        split_parts(s, sep).len() >= 1,
        split_parts(s + tail, sep) == split_parts(s, sep).update(
            split_parts(s, sep).len() - 1,
            split_parts(s, sep).last() + tail,
        ),
    decreases s.len() + tail.len(),
{
    if s.len() > 0 {
        lemma_split_tail(s.drop_last(), Seq::empty(), sep);
    }
    let parts = split_parts(s, sep);
    if tail.len() == 0 {
        assert(s + tail =~= s);
        assert(parts.last() + tail =~= parts.last());
        assert(parts.update(parts.len() - 1, parts.last()) =~= parts);
    } else {
        lemma_split_tail(s, tail.drop_last(), sep);
        assert((s + tail).drop_last() =~= s + tail.drop_last());
        assert((s + tail).last() == tail.last());
        assert(parts.last() + tail =~= (parts.last() + tail.drop_last()).push(tail.last()));
        assert(split_parts(s + tail, sep) =~= parts.update(
            parts.len() - 1,
            parts.last() + tail,
        ));
    }
}

/// A line without the carriage return that may end it.
pub open spec fn strip_return(s: Seq<char>) -> Seq<char> {
    if s.len() > 0 && s.last() == '\r' {
        s.drop_last()
    } else {
        s
    }
}

/// The lines of `s`: each ends at a line feed, which may follow a carriage return, and a last
/// line that is not ended counts where it is not empty.
pub open spec fn line_seq(s: Seq<char>) -> Seq<Seq<char>> {
    let parts = split_parts(s, '\n');
    let ended = Seq::new(
        (parts.len() - 1) as nat,
        |i: int| strip_return(parts[i]),
    );
    if parts.last().len() == 0 {
        ended
    } else {
        ended.push(parts.last())
    }
}

/// The lines of `cs`.
pub fn lines(cs: &[char]) -> (r: Vec<Vec<char>>)
    ensures
        r@.map_values(|v: Vec<char>| v@) == line_seq(cs@),
{
    let parts: Vec<Vec<char>> = split(cs, '\n');
    let n: usize = parts.len();
    let ghost model = split_parts(cs@, '\n');
    assert(forall|i: int|
        0 <= i < n ==> model[i] == (#[trigger] parts@[i])@) by {
        assert forall|i: int| 0 <= i < n implies model[i] == (#[trigger] parts@[i])@ by {
            assert(parts@.map_values(|v: Vec<char>| v@)[i] == parts@[i]@);
        }
    }
    let mut out: Vec<Vec<char>> = Vec::new();
    let mut i: usize = 0;
    while i < n - 1
        invariant
            n == parts@.len() == model.len(),
            n >= 1,
            i <= n - 1,
            forall|k: int| 0 <= k < n ==> model[k] == (#[trigger] parts@[k])@,
            out@.len() == i,
            forall|k: int| 0 <= k < i ==> (#[trigger] out@[k])@ == strip_return(model[k]),
        decreases n - i,
    {
        let part: &Vec<char> = &parts[i];
        let m: usize = part.len();
        assert(part@ == model[i as int]);
        if m > 0 && part[m - 1] == '\r' {
            let line: Vec<char> = char_range(part.as_slice(), 0, m - 1);
            assert(line@ =~= part@.drop_last());
            out.push(line);
        } else {
            let line: Vec<char> = char_range(part.as_slice(), 0, m);
            assert(line@ =~= part@);
            out.push(line);
        }
        i += 1;
    }
    let last: &Vec<char> = &parts[n - 1];
    assert(last@ == model[n - 1]);
    if last.len() > 0 {
        let line: Vec<char> = char_range(last.as_slice(), 0, last.len());
        assert(line@ =~= last@);
        out.push(line);
    }
    assert(out@.map_values(|v: Vec<char>| v@) =~= line_seq(cs@));
    out
}

// ── Laws of numbers in texts ──

/// The decimal digits of a number are those of its tenth part and then its units, and there is one
/// where it is below ten.
pub proof fn law_digits_are_decimal(n: nat)
    ensures
        digits10(n).len() > 0,
        digits10(n).last() as u32 == '0' as u32 + n % 10,
        n < 10 ==> digits10(n).len() == 1,
        n >= 10 ==> digits10(n).drop_last() == digits10(n / 10),
{
    let s = digits10(n);
    if n >= 10 {
        assert(s.drop_last() =~= digits10(n / 10));
    }
}

/// A run of digits denotes ten times what all but its last digit denote, and the last digit.
pub proof fn law_digits_denote_tens_and_units(s: Seq<char>, c: char)
    requires
        '0' <= c <= '9',
    ensures
        digits_value(Seq::empty()) == 0,
        digits_value(s.push(c)) == 10 * digits_value(s) + (c as u32 - '0' as u32),
{
    assert(s.push(c).drop_last() =~= s);
}

/// The notation of a number is its digits, with a minus sign before them where it is negative.
pub proof fn law_negative_has_a_sign(n: nat)
    ensures
        int_text(n as int) == digits10(n),
        n > 0 ==> int_text(-n) == seq!['-'] + digits10(n),
        n > 0 ==> int_text(-n).len() == int_text(n as int).len() + 1 && int_text(-n)[0] == '-',
{
}

/// A run of digits is read as what it denotes, where that is in range; a plus sign before it
/// changes nothing, and a minus sign makes it negative.
pub proof fn law_digits_are_read(s: Seq<char>, min: int, max: int)
    requires
        s.len() > 0,
        forall|i: int| 0 <= i < s.len() ==> '0' <= #[trigger] s[i] <= '9',
        min <= 0 <= max,
    ensures
        parsed_signed(s, min, max) == if digits_value(s) <= max {
            Some(digits_value(s) as int)
        } else {
            None
        },
        parsed_signed(seq!['+'] + s, min, max) == parsed_signed(s, min, max),
        parsed_signed(seq!['-'] + s, min, max) == if -digits_value(s) >= min {
            Some(-digits_value(s))
        } else {
            None
        },
        parsed_unsigned(s, max as nat) == if digits_value(s) <= max {
            Some(digits_value(s))
        } else {
            None
        },
        parsed_unsigned(seq!['+'] + s, max as nat) == parsed_unsigned(s, max as nat),
{
    let plus = seq!['+'] + s;
    let minus = seq!['-'] + s;
    assert(plus.subrange(1, plus.len() as int) =~= s);
    assert(minus.subrange(1, minus.len() as int) =~= s);
    assert(is_digits(s)) by {
        assert forall|i: int| 0 <= i < s.len() implies is_digit(#[trigger] s[i]) by {}
    }
    assert(s[0] != '+' && s[0] != '-');
}

/// A text with anything but digits behind its first character is no number, nor is one that starts
/// with anything but a digit or a sign, nor an empty one.
pub proof fn law_other_texts_are_no_numbers(s: Seq<char>, i: int, min: int, max: int)
    requires
        s.len() == 0 || (0 <= i < s.len() && !('0' <= s[i] <= '9') && (i > 0 || (s[0] != '-' && s[0]
            != '+'))),
    ensures
        parsed_signed(s, min, max) is None,
        max >= 0 ==> parsed_unsigned(s, max as nat) is None,
{
    if s.len() > 0 {
        let body = s.subrange(1, s.len() as int);
        if i > 0 {
            assert(body[i - 1] == s[i]);
            assert(!is_digit(body[i - 1]));
        }
        assert(!is_digit(s[i]));
        if s[0] == '-' {
            assert(!is_digit(s[0]));
        }
    }
}

// ── Laws of letters and of parts of texts ──

/// The upper-case form of an ASCII text has a capital letter for each small one, and is otherwise
/// the text; the lower-case form the other way round. Of a text with other characters, both are
/// what the Unicode tables say.
pub proof fn law_case_changes_letters_alone(s: Seq<char>)
    ensures
        is_ascii_chars(s) ==> {
            &&& uppercase(s).len() == s.len()
            &&& lowercase(s).len() == s.len()
            &&& forall|i: int|
                0 <= i < s.len() ==> (#[trigger] uppercase(s)[i]) as u32 == if 'a' <= s[i] <= 'z' {
                    (s[i] as u32 - 32) as u32
                } else {
                    s[i] as u32
                }
            &&& forall|i: int|
                0 <= i < s.len() ==> (#[trigger] lowercase(s)[i]) as u32 == if 'A' <= s[i] <= 'Z' {
                    (s[i] as u32 + 32) as u32
                } else {
                    s[i] as u32
                }
        },
        !is_ascii_chars(s) ==> uppercase(s) == unicode_uppercase(s) && lowercase(s)
            == unicode_lowercase(s),
{
}

/// Small and capital letters make no difference to the upper-case form of an ASCII text.
pub proof fn law_upper_case_is_kept(s: Seq<char>)
    requires
        is_ascii_chars(s),
    ensures
        uppercase(uppercase(s)) == uppercase(s),
        uppercase(lowercase(s)) == uppercase(s),
        lowercase(uppercase(s)) == lowercase(s),
{
    assert forall|i: int| 0 <= i < s.len() implies (#[trigger] s[i] as u32) < 128 by {
        is_ascii_chars_nat_bound(s);
    }
    assert(is_ascii_chars(uppercase(s)));
    assert(is_ascii_chars(lowercase(s)));
    assert(uppercase(uppercase(s)) =~= uppercase(s));
    assert(uppercase(lowercase(s)) =~= uppercase(s));
    assert(lowercase(uppercase(s)) =~= lowercase(s));
}

/// Below 128, white space is the blank and the five characters from the tabulator to the carriage
/// return.
pub proof fn law_white_space(c: char)
    ensures
        (c as u32) < 128 ==> (is_space(c) <==> c == ' ' || 9 <= c as u32 <= 13),
{
}

/// Whether a text is white space alone.
pub open spec fn is_blank(s: Seq<char>) -> bool {
    forall|i: int| 0 <= i < s.len() ==> is_space(#[trigger] s[i])
}

/// What is left of a text without the white space at its ends is a piece of it, with white space
/// alone before and behind it, that starts and ends with something else; of white space nothing is
/// left.
pub proof fn law_trimmed_is_what_is_between(s: Seq<char>)
    ensures
        exists|a: int, b: int|
            #![trigger s.subrange(a, b)]
            0 <= a <= b <= s.len() && s.subrange(a, b) == trimmed(s) && is_blank(s.subrange(0, a))
                && is_blank(s.subrange(b, s.len() as int)),
        trimmed(s).len() > 0 ==> !is_space(trimmed(s)[0]) && !is_space(trimmed(s).last()),
        is_blank(s) ==> trimmed(s).len() == 0,
{
    let a = lemma_trim_front(s);
    let t = trim_front(s);
    let b = lemma_trim_back(t);
    let e = a + b;
    assert(s.subrange(a, e) =~= t.subrange(0, b));
    assert(is_blank(s.subrange(e, s.len() as int))) by {
        assert forall|i: int| 0 <= i < s.len() - e implies is_space(
            #[trigger] s.subrange(e, s.len() as int)[i],
        ) by {
            assert(t.subrange(b, t.len() as int)[i] == s.subrange(e, s.len() as int)[i]);
        }
    }
    if trimmed(s).len() > 0 {
        assert(trimmed(s)[0] == t[0]);
        if is_blank(s) {
            assert(s[a] == t[0]);
            assert(is_space(s[a]));
        }
    }
}

proof fn lemma_trim_front(s: Seq<char>) -> (a: int)
    ensures
        0 <= a <= s.len(),
        trim_front(s) == s.subrange(a, s.len() as int),
        is_blank(s.subrange(0, a)),
        a < s.len() ==> !is_space(s[a]),
    decreases s.len(),
{
    if s.len() > 0 && is_space(s[0]) {
        let rest = s.drop_first();
        let b = lemma_trim_front(rest);
        assert(trim_front(s) =~= s.subrange(b + 1, s.len() as int));
        assert forall|i: int| 0 <= i < b + 1 implies is_space(
            #[trigger] s.subrange(0, b + 1)[i],
        ) by {
            if i > 0 {
                assert(rest.subrange(0, b)[i - 1] == s.subrange(0, b + 1)[i]);
            }
        }
        b + 1
    } else {
        assert(s.subrange(0, s.len() as int) =~= s);
        0
    }
}

proof fn lemma_trim_back(s: Seq<char>) -> (b: int)
    ensures
        0 <= b <= s.len(),
        trim_back(s) == s.subrange(0, b),
        is_blank(s.subrange(b, s.len() as int)),
        b > 0 ==> !is_space(s[b - 1]),
    decreases s.len(),
{
    if s.len() > 0 && is_space(s.last()) {
        let front = s.drop_last();
        let b = lemma_trim_back(front);
        assert(trim_back(s) =~= s.subrange(0, b));
        assert forall|i: int| 0 <= i < s.len() - b implies is_space(
            #[trigger] s.subrange(b, s.len() as int)[i],
        ) by {
            if i < front.len() - b {
                assert(front.subrange(b, front.len() as int)[i] == s.subrange(
                    b,
                    s.len() as int,
                )[i]);
            }
        }
        b
    } else {
        assert(s.subrange(0, s.len() as int) =~= s);
        s.len() as int
    }
}

/// The first `n` parts with a separator between them.
pub open spec fn joined_parts(parts: Seq<Seq<char>>, sep: char, n: int) -> Seq<char>
    decreases n,
{
    if n <= 1 {
        parts[0]
    } else {
        joined_parts(parts, sep, n - 1).push(sep) + parts[n - 1]
    }
}

proof fn lemma_joined_alike(a: Seq<Seq<char>>, b: Seq<Seq<char>>, sep: char, n: int)
    requires
        1 <= n,
        forall|i: int| 0 <= i < n ==> a[i] == b[i],
    ensures
        joined_parts(a, sep, n) == joined_parts(b, sep, n),
    decreases n,
{
    if n > 1 {
        lemma_joined_alike(a, b, sep, n - 1);
    }
}

/// The parts of a text between separators hold no separator, and with one between each two of them
/// they are the text.
pub proof fn law_parts_make_the_text(s: Seq<char>, sep: char)
    ensures
        split_parts(s, sep).len() >= 1,
        joined_parts(split_parts(s, sep), sep, split_parts(s, sep).len() as int) == s,
        forall|i: int, j: int|
            0 <= i < split_parts(s, sep).len() && 0 <= j < split_parts(s, sep)[i].len()
                ==> #[trigger] split_parts(s, sep)[i][j] != sep,
    decreases s.len(),
{
    let all = split_parts(s, sep);
    if s.len() > 0 {
        let front = s.drop_last();
        law_parts_make_the_text(front, sep);
        let parts = split_parts(front, sep);
        let n = parts.len() as int;
        assert(front.push(s.last()) =~= s);
        if s.last() == sep {
            lemma_joined_alike(parts, all, sep, n);
            assert(joined_parts(all, sep, n + 1) =~= s);
            assert forall|i: int, j: int| 0 <= i < all.len() && 0 <= j < all[i].len() implies
                #[trigger] all[i][j] != sep by {
                if i < n {
                    assert(all[i] == parts[i]);
                }
            }
        } else {
            if n > 1 {
                lemma_joined_alike(parts, all, sep, n - 1);
            }
            assert(joined_parts(all, sep, n) =~= s);
            assert forall|i: int, j: int| 0 <= i < all.len() && 0 <= j < all[i].len() implies
                #[trigger] all[i][j] != sep by {
                if i < n - 1 {
                    assert(all[i] == parts[i]);
                } else if j < parts[i].len() {
                    assert(parts[i][j] == all[i][j]);
                }
            }
        }
    } else {
        assert(joined_parts(all, sep, 1) =~= s);
    }
}

/// A line ends at a line feed, which may follow a carriage return; what comes behind the last line
/// feed is a line where it is not empty, as it stands.
pub proof fn law_lines_end_at_line_feeds(s: Seq<char>, t: Seq<char>)
    requires
        s.len() == 0 || s.last() == '\n',
        forall|i: int| 0 <= i < t.len() ==> #[trigger] t[i] != '\n',
    ensures
        line_seq(Seq::empty()).len() == 0,
        t.len() > 0 ==> line_seq(s + t) == line_seq(s).push(t),
        t.len() == 0 || t.last() != '\r' ==> line_seq((s + t).push('\n')) == line_seq(s).push(t),
        line_seq((s + t).push('\r').push('\n')) == line_seq(s).push(t),
{
    let parts = split_parts(s, '\n');
    let n = parts.len() as int;
    lemma_split_tail(s, t, '\n');
    lemma_ended(s);
    let open = split_parts(s + t, '\n');
    assert(Seq::<char>::empty() + t =~= t);
    assert(open =~= parts.update(n - 1, t));
    if t.len() > 0 {
        assert(line_seq(s + t) =~= line_seq(s).push(t));
    }
    let ended = (s + t).push('\n');
    assert(ended.drop_last() =~= s + t);
    assert(split_parts(ended, '\n') =~= open.push(Seq::empty()));
    if t.len() == 0 || t.last() != '\r' {
        assert(line_seq(ended) =~= line_seq(s).push(t));
    }
    let u = t.push('\r');
    lemma_split_tail(s, u, '\n');
    assert(s + u =~= (s + t).push('\r'));
    assert(Seq::<char>::empty() + u =~= u);
    let both = (s + t).push('\r').push('\n');
    assert(both.drop_last() =~= s + u);
    assert(split_parts(both, '\n') =~= parts.update(n - 1, u).push(Seq::empty()));
    assert(u.drop_last() =~= t);
    assert(line_seq(both) =~= line_seq(s).push(t));
}

proof fn lemma_ended(s: Seq<char>)
    requires
        s.len() == 0 || s.last() == '\n',
    ensures
        split_parts(s, '\n').len() >= 1,
        split_parts(s, '\n').last() == Seq::<char>::empty(),
{
    if s.len() > 0 {
        law_parts_make_the_text(s.drop_last(), '\n');
    }
}

// ── Laws of hexadecimal digits ──

/// What a hexadecimal digit denotes.
pub open spec fn hex_digit_value(c: char) -> int {
    if '0' <= c <= '9' {
        c as int - '0' as int
    } else {
        c as int - 'a' as int + 10
    }
}

/// What some hexadecimal digits denote, the last of them the units.
pub open spec fn hex_value(s: Seq<char>) -> int
    decreases s.len(),
{
    if s.len() == 0 {
        0
    } else {
        16 * hex_value(s.drop_last()) + hex_digit_value(s.last())
    }
}

/// A power of 16.
spec fn pow16(n: nat) -> nat
    decreases n,
{
    if n == 0 {
        1
    } else {
        16 * pow16((n - 1) as nat)
    }
}

proof fn lemma_hex_digits(v: nat, n: nat)
    requires
        v < pow16(n),
    ensures
        hex_digits(v, n).len() == n,
        hex_value(hex_digits(v, n)) == v,
    decreases n,
{
    if n > 0 {
        lemma_hex_digits(v / 16, (n - 1) as nat);
        let rest = hex_digits(v / 16, (n - 1) as nat);
        assert(hex_digits(v, n).drop_last() =~= rest);
        assert(hex_digit_value(digit_char(v % 16)) == v % 16);
    }
}

/// A number of 32 bits is shown as `0x` and eight hexadecimal digits that denote it.
pub proof fn law_hex_text_denotes_its_number(v: u32)
    ensures
        hex_text(v).len() == 10,
        hex_text(v)[0] == '0',
        hex_text(v)[1] == 'x',
        hex_value(hex_text(v).subrange(2, 10)) == v,
{
    reveal_with_fuel(pow16, 9);
    lemma_hex_digits(v as nat, 8);
    assert(hex_text(v).subrange(2, 10) =~= hex_digits(v as nat, 8));
}

} // verus!
