//! Verified JSON text codec for the [`crate::json::Json`] model: a
//! recursive-descent parser and a compact serializer. The grammar is stated
//! as spec-level scanning functions; the executable code is proved to return
//! exactly what the grammar says.
//!
//! Strings are kept raw: the parser validates escape-pair syntax but stores
//! the characters between the quotes as written, and the serializer emits
//! them back verbatim. Numbers follow the JSON number grammar and are kept
//! as their literal text. Duplicate object keys keep the later binding.

use vstd::prelude::*;

use crate::bridge::push_char;
use crate::json::{deep_elems, deep_fields, jv_find, Json, JsonV};
use crate::strutil::is_digit;
use vstd::string::StrSliceExecFns;
use vstd::string::StringExecFns;

verus! {

/// JSON whitespace.
pub open spec fn is_ws(c: char) -> bool {
    c == ' ' || c == '\t' || c == '\n' || c == '\r'
}

/// The first position at or after `i` that does not hold whitespace.
pub open spec fn skip_ws(s: Seq<char>, i: int) -> int
    decreases s.len() - i,
{
    if 0 <= i < s.len() && is_ws(s[i]) {
        skip_ws(s, i + 1)
    } else {
        i
    }
}

pub proof fn lemma_skip_ws_bounds(s: Seq<char>, i: int)
    requires
        0 <= i <= s.len(),
    ensures
        i <= skip_ws(s, i) <= s.len(),
    decreases s.len() - i,
{
    if i < s.len() && is_ws(s[i]) {
        lemma_skip_ws_bounds(s, i + 1);
    }
}

/// The position of the closing quote of a string whose contents start at
/// `i`: the first unescaped `"`. A backslash always skips the following
/// character.
pub open spec fn str_end(s: Seq<char>, i: int) -> Option<int>
    decreases s.len() - i,
{
    if i < 0 || i >= s.len() {
        None
    } else if s[i] == '"' {
        Some(i)
    } else if s[i] == '\\' {
        if i + 1 < s.len() {
            str_end(s, i + 2)
        } else {
            None
        }
    } else {
        str_end(s, i + 1)
    }
}

pub proof fn lemma_str_end_bounds(s: Seq<char>, i: int)
    requires
        0 <= i,
    ensures
        match str_end(s, i) {
            Some(e) => i <= e < s.len() && s[e] == '"',
            None => true,
        },
    decreases s.len() - i,
{
    if 0 <= i < s.len() && s[i] != '"' {
        if s[i] == '\\' {
            if i + 1 < s.len() {
                lemma_str_end_bounds(s, i + 2);
            }
        } else {
            lemma_str_end_bounds(s, i + 1);
        }
    }
}

/// The end of the run of decimal digits starting at `i`.
pub open spec fn digits_end(s: Seq<char>, i: int) -> int
    decreases s.len() - i,
{
    if 0 <= i < s.len() && is_digit(s[i]) {
        digits_end(s, i + 1)
    } else {
        i
    }
}

pub proof fn lemma_digits_end_bounds(s: Seq<char>, i: int)
    requires
        0 <= i <= s.len(),
    ensures
        i <= digits_end(s, i) <= s.len(),
    decreases s.len() - i,
{
    if i < s.len() && is_digit(s[i]) {
        lemma_digits_end_bounds(s, i + 1);
    }
}

/// The end of a JSON number starting at `i`, or `None` when the text at `i`
/// is not one: an optional `-`; an integer part that is `0` or a nonzero
/// digit followed by digits; an optional fraction `.` with at least one
/// digit; an optional exponent `e`/`E` with an optional sign and at least
/// one digit.
pub open spec fn num_end(s: Seq<char>, i: int) -> Option<int> {
    let j = if 0 <= i < s.len() && s[i] == '-' {
        i + 1
    } else {
        i
    };
    if !(0 <= j < s.len() && is_digit(s[j])) {
        None
    } else {
        let k = if s[j] == '0' {
            j + 1
        } else {
            digits_end(s, j)
        };
        let after_frac: Option<int> = if 0 <= k < s.len() && s[k] == '.' {
            if k + 1 < s.len() && is_digit(s[k + 1]) {
                Some(digits_end(s, k + 1))
            } else {
                None
            }
        } else {
            Some(k)
        };
        match after_frac {
            None => None,
            Some(k2) => if 0 <= k2 < s.len() && (s[k2] == 'e' || s[k2] == 'E') {
                let e0 = if k2 + 1 < s.len() && (s[k2 + 1] == '+' || s[k2 + 1] == '-') {
                    k2 + 2
                } else {
                    k2 + 1
                };
                if e0 < s.len() && is_digit(s[e0]) {
                    Some(digits_end(s, e0))
                } else {
                    None
                }
            } else {
                Some(k2)
            },
        }
    }
}

pub proof fn lemma_num_end_bounds(s: Seq<char>, i: int)
    requires
        0 <= i <= s.len(),
    ensures
        match num_end(s, i) {
            Some(e) => i < e <= s.len(),
            None => true,
        },
{
    let j = if 0 <= i < s.len() && s[i] == '-' {
        i + 1
    } else {
        i
    };
    if 0 <= j < s.len() && is_digit(s[j]) {
        lemma_digits_end_bounds(s, j);
        let k = if s[j] == '0' {
            j + 1
        } else {
            digits_end(s, j)
        };
        assert(k > j) by {
            if s[j] != '0' {
                assert(digits_end(s, j) == digits_end(s, j + 1));
                lemma_digits_end_bounds(s, j + 1);
            }
        }
        if 0 <= k < s.len() && s[k] == '.' {
            if k + 1 < s.len() && is_digit(s[k + 1]) {
                lemma_digits_end_bounds(s, k + 1);
            }
        }
        match num_end(s, i) {
            Some(e) => {
                let after_frac: Option<int> = if 0 <= k < s.len() && s[k] == '.' {
                    if k + 1 < s.len() && is_digit(s[k + 1]) {
                        Some(digits_end(s, k + 1))
                    } else {
                        None
                    }
                } else {
                    Some(k)
                };
                let k2 = after_frac->Some_0;
                if 0 <= k2 < s.len() && (s[k2] == 'e' || s[k2] == 'E') {
                    let e0 = if k2 + 1 < s.len() && (s[k2 + 1] == '+' || s[k2 + 1] == '-') {
                        k2 + 2
                    } else {
                        k2 + 1
                    };
                    if e0 < s.len() && is_digit(s[e0]) {
                        lemma_digits_end_bounds(s, e0);
                    }
                }
            },
            None => {},
        }
    }
}

/// Whether the four characters of `null` (or `true`) stand at `i`.
pub open spec fn lit4_at(s: Seq<char>, i: int, a: char, b: char, c: char, d: char) -> bool {
    i + 4 <= s.len() && s[i] == a && s[i + 1] == b && s[i + 2] == c && s[i + 3] == d
}

/// Parse one JSON value at position `i` (leading whitespace allowed):
/// the value and the position just after it. (The inner bound tests on
/// positions returned by sub-parses always hold — see the bounds lemmas —
/// and only make termination of the definition evident.)
pub open spec fn sp_value(s: Seq<char>, i0: int) -> Option<(JsonV, int)>
    decreases s.len() - i0, 0int,
{
    if !(0 <= i0 <= s.len()) {
        None
    } else {
        let i = skip_ws(s, i0);
        if !(i0 <= i && i <= s.len()) {
            None
        } else if i == s.len() {
            None
        } else if s[i] == 'n' {
            if lit4_at(s, i, 'n', 'u', 'l', 'l') {
                Some((JsonV::Null, i + 4))
            } else {
                None
            }
        } else if s[i] == 't' {
            if lit4_at(s, i, 't', 'r', 'u', 'e') {
                Some((JsonV::Bool(true), i + 4))
            } else {
                None
            }
        } else if s[i] == 'f' {
            if i + 5 <= s.len() && s[i + 1] == 'a' && s[i + 2] == 'l' && s[i + 3] == 's' && s[i + 4]
                == 'e' {
                Some((JsonV::Bool(false), i + 5))
            } else {
                None
            }
        } else if s[i] == '"' {
            match str_end(s, i + 1) {
                Some(e) => if i + 1 <= e < s.len() {
                    Some((JsonV::Str(s.subrange(i + 1, e)), e + 1))
                } else {
                    None
                },
                None => None,
            }
        } else if s[i] == '[' {
            match sp_elems(s, i + 1, true) {
                Some((es, e)) => Some((JsonV::Arr(es), e)),
                None => None,
            }
        } else if s[i] == '{' {
            match sp_fields(s, i + 1, true) {
                Some((fs, e)) => Some((JsonV::Obj(fs), e)),
                None => None,
            }
        } else if is_digit(s[i]) || s[i] == '-' {
            match num_end(s, i) {
                Some(e) => if i < e <= s.len() {
                    Some((JsonV::Num(s.subrange(i, e)), e))
                } else {
                    None
                },
                None => None,
            }
        } else {
            None
        }
    }
}

/// Parse the elements of an array after `[` or after a `,`: `first` is true
/// just after `[`, where `]` closes an empty array.
pub open spec fn sp_elems(s: Seq<char>, i: int, first: bool) -> Option<(Seq<JsonV>, int)>
    decreases s.len() - i, 1int,
{
    if !(0 <= i <= s.len()) {
        None
    } else {
        let j = skip_ws(s, i);
        if !(i <= j && j <= s.len()) {
            None
        } else if j == s.len() {
            None
        } else if s[j] == ']' && first {
            Some((Seq::<JsonV>::empty(), j + 1))
        } else {
            match sp_value(s, i) {
                None => None,
                Some((v, k)) => {
                    if !(i < k && k <= s.len()) {
                        None
                    } else {
                        let m = skip_ws(s, k);
                        if !(k <= m && m <= s.len()) {
                            None
                        } else if m == s.len() {
                            None
                        } else if s[m] == ',' {
                            match sp_elems(s, m + 1, false) {
                                None => None,
                                Some((rest, e)) => Some((seq![v] + rest, e)),
                            }
                        } else if s[m] == ']' {
                            Some((seq![v], m + 1))
                        } else {
                            None
                        }
                    }
                },
            }
        }
    }
}

/// Parse the fields of an object after `{` or after a `,`. A key bound again
/// later in the same object loses to the later binding.
pub open spec fn sp_fields(
    s: Seq<char>,
    i: int,
    first: bool,
) -> Option<(Seq<(Seq<char>, JsonV)>, int)>
    decreases s.len() - i, 1int,
{
    if !(0 <= i <= s.len()) {
        None
    } else {
        let j = skip_ws(s, i);
        if !(i <= j && j <= s.len()) {
            None
        } else if j == s.len() {
            None
        } else if s[j] == '}' && first {
            Some((Seq::<(Seq<char>, JsonV)>::empty(), j + 1))
        } else if s[j] != '"' {
            None
        } else {
            match str_end(s, j + 1) {
                None => None,
                Some(e) => {
                    if !(j + 1 <= e && e < s.len()) {
                        None
                    } else {
                        let key = s.subrange(j + 1, e);
                        let m = skip_ws(s, e + 1);
                        if !(e + 1 <= m && m <= s.len()) {
                            None
                        } else if m == s.len() || s[m] != ':' {
                            None
                        } else {
                            match sp_value(s, m + 1) {
                                None => None,
                                Some((v, p)) => {
                                    if !(m + 1 <= p && p <= s.len()) {
                                        None
                                    } else {
                                        let q = skip_ws(s, p);
                                        if !(p <= q && q <= s.len()) {
                                            None
                                        } else if q == s.len() {
                                            None
                                        } else if s[q] == ',' {
                                            match sp_fields(s, q + 1, false) {
                                                None => None,
                                                Some((rest, end)) => {
                                                    if jv_find(rest, key) is Some {
                                                        Some((rest, end))
                                                    } else {
                                                        Some((seq![(key, v)] + rest, end))
                                                    }
                                                },
                                            }
                                        } else if s[q] == '}' {
                                            Some((seq![(key, v)], q + 1))
                                        } else {
                                            None
                                        }
                                    }
                                },
                            }
                        }
                    }
                },
            }
        }
    }
}

/// The whole text parsed as one JSON value with nothing but whitespace after
/// it.
pub open spec fn spec_parse_text(s: Seq<char>) -> Option<JsonV> {
    match sp_value(s, 0) {
        Some((v, p)) => if 0 <= p <= s.len() && skip_ws(s, p) == s.len() {
            Some(v)
        } else {
            None
        },
        None => None,
    }
}

/// Positions returned by the parsing functions lie past their start and
/// within the text.
pub proof fn lemma_sp_value_bounds(s: Seq<char>, i: int)
    ensures
        match sp_value(s, i) {
            Some((v, k)) => i < k <= s.len(),
            None => true,
        },
    decreases s.len() - i, 0int,
{
    if 0 <= i <= s.len() {
        let j = skip_ws(s, i);
        lemma_skip_ws_bounds(s, i);
        if j < s.len() {
            if s[j] == '"' {
                lemma_str_end_bounds(s, j + 1);
            } else if s[j] == '[' {
                lemma_sp_elems_bounds(s, j + 1, true);
            } else if s[j] == '{' {
                lemma_sp_fields_bounds(s, j + 1, true);
            } else if is_digit(s[j]) || s[j] == '-' {
                lemma_num_end_bounds(s, j);
            }
        }
    }
}

pub proof fn lemma_sp_elems_bounds(s: Seq<char>, i: int, first: bool)
    ensures
        match sp_elems(s, i, first) {
            Some((es, k)) => i < k <= s.len(),
            None => true,
        },
    decreases s.len() - i, 1int,
{
    if 0 <= i <= s.len() {
        lemma_skip_ws_bounds(s, i);
        let j = skip_ws(s, i);
        if j < s.len() {
            lemma_sp_value_bounds(s, i);
            match sp_value(s, i) {
                Some((v, k)) => {
                    if i < k <= s.len() {
                        lemma_skip_ws_bounds(s, k);
                        let m = skip_ws(s, k);
                        if m < s.len() && s[m] == ',' {
                            lemma_sp_elems_bounds(s, m + 1, false);
                        }
                    }
                },
                None => {},
            }
        }
    }
}

pub proof fn lemma_sp_fields_bounds(s: Seq<char>, i: int, first: bool)
    ensures
        match sp_fields(s, i, first) {
            Some((fs, k)) => i < k <= s.len(),
            None => true,
        },
    decreases s.len() - i, 1int,
{
    if 0 <= i <= s.len() {
        lemma_skip_ws_bounds(s, i);
        let j = skip_ws(s, i);
        if j < s.len() && s[j] == '"' {
            lemma_str_end_bounds(s, j + 1);
            match str_end(s, j + 1) {
                Some(e) => {
                    if j + 1 <= e && e < s.len() {
                        lemma_skip_ws_bounds(s, e + 1);
                        let m = skip_ws(s, e + 1);
                        if m < s.len() && s[m] == ':' {
                            lemma_sp_value_bounds(s, m + 1);
                            match sp_value(s, m + 1) {
                                Some((v, p)) => {
                                    if m + 1 <= p && p <= s.len() {
                                        lemma_skip_ws_bounds(s, p);
                                        let q = skip_ws(s, p);
                                        if q < s.len() && s[q] == ',' {
                                            lemma_sp_fields_bounds(s, q + 1, false);
                                        }
                                    }
                                },
                                None => {},
                            }
                        }
                    }
                },
                None => {},
            }
        }
    }
}

/// The characters of `s`, one by one.
pub fn str_to_chars(s: &str) -> (r: Vec<char>)
    ensures
        r@ == s@,
{
    let n = s.unicode_len();
    let mut r: Vec<char> = Vec::new();
    let mut i: usize = 0;
    while i < n
        invariant
            n == s@.len(),
            i <= n,
            r@ =~= s@.take(i as int),
        decreases n - i,
    {
        r.push(s.get_char(i));
        proof {
            assert(r@ =~= s@.take(i as int + 1));
        }
        i += 1;
    }
    proof {
        assert(s@.take(n as int) =~= s@);
    }
    r
}

/// The characters of `s` between `from` and `to`, as a string.
pub fn chars_to_string(s: &Vec<char>, from: usize, to: usize) -> (r: String)
    requires
        from <= to <= s@.len(),
    ensures
        r@ == s@.subrange(from as int, to as int),
{
    let mut r = String::new();
    let mut i: usize = from;
    while i < to
        invariant
            from <= i <= to <= s@.len(),
            r@ =~= s@.subrange(from as int, i as int),
        decreases to - i,
    {
        push_char(&mut r, s[i]);
        proof {
            assert(r@ =~= s@.subrange(from as int, i as int + 1));
        }
        i += 1;
    }
    r
}

/// Advance past whitespace.
fn skip_ws_exec(s: &Vec<char>, i: usize) -> (r: usize)
    requires
        i <= s@.len(),
    ensures
        r as int == skip_ws(s@, i as int),
        i <= r <= s@.len(),
{
    let mut j = i;
    while j < s.len() && (s[j] == ' ' || s[j] == '\t' || s[j] == '\n' || s[j] == '\r')
        invariant
            i <= j <= s@.len(),
            skip_ws(s@, i as int) == skip_ws(s@, j as int),
        decreases s@.len() - j,
    {
        j += 1;
    }
    j
}

/// Find the closing quote of a string whose contents start at `i`.
fn str_end_exec(s: &Vec<char>, i: usize) -> (r: Option<usize>)
    requires
        i <= s@.len(),
    ensures
        match r {
            Some(e) => str_end(s@, i as int) == Some(e as int) && i <= e < s@.len() && s@[e as int]
                == '"',
            None => str_end(s@, i as int) is None,
        },
{
    proof {
        lemma_str_end_bounds(s@, i as int);
    }
    let mut j = i;
    while j < s.len()
        invariant
            i <= j,
            j <= s@.len() + 1,
            str_end(s@, i as int) == str_end(s@, j as int),
        decreases s@.len() + 2 - j,
    {
        proof {
            lemma_str_end_bounds(s@, j as int);
        }
        if s[j] == '"' {
            return Some(j);
        } else if s[j] == '\\' {
            if j + 1 >= s.len() {
                return None;
            }
            j += 2;
        } else {
            j += 1;
        }
    }
    None
}

/// Advance past decimal digits.
fn digits_end_exec(s: &Vec<char>, i: usize) -> (r: usize)
    requires
        i <= s@.len(),
    ensures
        r as int == digits_end(s@, i as int),
        i <= r <= s@.len(),
{
    let mut j = i;
    while j < s.len() && is_digit_exec(s[j])
        invariant
            i <= j <= s@.len(),
            digits_end(s@, i as int) == digits_end(s@, j as int),
        decreases s@.len() - j,
    {
        j += 1;
    }
    j
}

fn is_digit_exec(c: char) -> (r: bool)
    ensures
        r == is_digit(c),
{
    let cu = c as u32;
    48 <= cu && cu <= 57
}

/// Scan a JSON number token, mirroring [`num_end`].
fn num_end_exec(s: &Vec<char>, i: usize) -> (r: Option<usize>)
    requires
        i <= s@.len(),
    ensures
        match r {
            Some(e) => num_end(s@, i as int) == Some(e as int) && i < e <= s@.len(),
            None => num_end(s@, i as int) is None,
        },
{
    proof {
        lemma_num_end_bounds(s@, i as int);
    }
    let j: usize = if i < s.len() && s[i] == '-' {
        i + 1
    } else {
        i
    };
    if !(j < s.len() && is_digit_exec(s[j])) {
        return None;
    }
    let k: usize = if s[j] == '0' {
        j + 1
    } else {
        digits_end_exec(s, j)
    };
    let k2: usize = if k < s.len() && s[k] == '.' {
        if k + 1 < s.len() && is_digit_exec(s[k + 1]) {
            digits_end_exec(s, k + 1)
        } else {
            return None;
        }
    } else {
        k
    };
    if k2 < s.len() && (s[k2] == 'e' || s[k2] == 'E') {
        let e0: usize = if k2 + 1 < s.len() && (s[k2 + 1] == '+' || s[k2 + 1] == '-') {
            k2 + 2
        } else {
            k2 + 1
        };
        if e0 < s.len() && is_digit_exec(s[e0]) {
            Some(digits_end_exec(s, e0))
        } else {
            None
        }
    } else {
        Some(k2)
    }
}

/// Parse one JSON value at `i`, mirroring [`sp_value`].
pub fn parse_value(s: &Vec<char>, i: usize) -> (r: Option<(Json, usize)>)
    requires
        i <= s@.len(),
    ensures
        match r {
            Some((v, k)) => sp_value(s@, i as int) == Some((v.deep(), k as int)) && i < k
                <= s@.len(),
            None => sp_value(s@, i as int) is None,
        },
    decreases s@.len() - i, 0int,
{
    proof {
        lemma_sp_value_bounds(s@, i as int);
    }
    let j = skip_ws_exec(s, i);
    if j == s.len() {
        return None;
    }
    let c = s[j];
    if c == 'n' {
        if s.len() - j >= 4 && s[j + 1] == 'u' && s[j + 2] == 'l' && s[j + 3] == 'l' {
            Some((Json::Null, j + 4))
        } else {
            None
        }
    } else if c == 't' {
        if s.len() - j >= 4 && s[j + 1] == 'r' && s[j + 2] == 'u' && s[j + 3] == 'e' {
            Some((Json::Bool(true), j + 4))
        } else {
            None
        }
    } else if c == 'f' {
        if s.len() - j >= 5 && s[j + 1] == 'a' && s[j + 2] == 'l' && s[j + 3] == 's' && s[j + 4]
            == 'e' {
            Some((Json::Bool(false), j + 5))
        } else {
            None
        }
    } else if c == '"' {
        match str_end_exec(s, j + 1) {
            Some(e) => {
                let txt = chars_to_string(s, j + 1, e);
                Some((Json::Str(txt), e + 1))
            },
            None => None,
        }
    } else if c == '[' {
        match parse_elems(s, j + 1, true) {
            Some((es, e)) => Some((Json::Arr(es), e)),
            None => None,
        }
    } else if c == '{' {
        match parse_fields(s, j + 1, true) {
            Some((fs, e)) => Some((Json::Obj(fs), e)),
            None => None,
        }
    } else {
        let cu = c as u32;
        if (48 <= cu && cu <= 57) || c == '-' {
            match num_end_exec(s, j) {
                Some(e) => {
                    let txt = chars_to_string(s, j, e);
                    Some((Json::Num(txt), e))
                },
                None => None,
            }
        } else {
            None
        }
    }
}

/// Parse array elements, mirroring [`sp_elems`].
fn parse_elems(s: &Vec<char>, i: usize, first: bool) -> (r: Option<(Vec<Json>, usize)>)
    requires
        i <= s@.len(),
    ensures
        match r {
            Some((es, k)) => sp_elems(s@, i as int, first) == Some((deep_elems(es@), k as int))
                && i < k <= s@.len(),
            None => sp_elems(s@, i as int, first) is None,
        },
    decreases s@.len() - i, 1int,
{
    broadcast use crate::json::lemma_deep_elems_len;

    proof {
        lemma_sp_elems_bounds(s@, i as int, first);
    }
    let j = skip_ws_exec(s, i);
    if j == s.len() {
        return None;
    }
    if s[j] == ']' && first {
        let empty: Vec<Json> = Vec::new();
        proof {
            assert(deep_elems(empty@) =~= Seq::<JsonV>::empty());
        }
        return Some((empty, j + 1));
    }
    match parse_value(s, i) {
        None => None,
        Some((v, k)) => {
            let m = skip_ws_exec(s, k);
            if m == s.len() {
                return None;
            }
            if s[m] == ',' {
                match parse_elems(s, m + 1, false) {
                    None => None,
                    Some((mut rest, e)) => {
                        let ghost rest0 = rest@;
                        rest.insert(0, v);
                        proof {
                            lemma_deep_elems_prepend(rest0, v);
                            assert(rest@ =~= seq![v] + rest0);
                        }
                        Some((rest, e))
                    },
                }
            } else if s[m] == ']' {
                let mut one: Vec<Json> = Vec::new();
                one.push(v);
                proof {
                    assert(deep_elems(one@) =~= seq![v.deep()]);
                }
                Some((one, m + 1))
            } else {
                None
            }
        },
    }
}

/// Prepending an element to an element list prepends its view.
proof fn lemma_deep_elems_prepend(s: Seq<Json>, x: Json)
    ensures
        deep_elems(seq![x] + s) == seq![x.deep()] + deep_elems(s),
    decreases s,
{
    broadcast use crate::json::lemma_deep_elems_len;

    if s.len() == 0 {
        assert(seq![x] + s =~= seq![x]);
        assert(deep_elems(seq![x]) =~= seq![x.deep()]);
        assert(seq![x.deep()] + deep_elems(s) =~= seq![x.deep()]);
    } else {
        lemma_deep_elems_prepend(s.drop_last(), x);
        assert((seq![x] + s).drop_last() =~= seq![x] + s.drop_last());
        assert((seq![x] + s).last() == s.last());
        assert(seq![x.deep()] + deep_elems(s) =~= (seq![x.deep()] + deep_elems(s.drop_last())).push(
            s.last().deep(),
        ));
    }
}

/// Prepending a field to a field list prepends its view.
proof fn lemma_deep_fields_prepend(s: Seq<(String, Json)>, x: (String, Json))
    ensures
        deep_fields(seq![x] + s) == seq![(x.0@, x.1.deep())] + deep_fields(s),
    decreases s,
{
    broadcast use crate::json::lemma_deep_fields_len;

    if s.len() == 0 {
        assert(seq![x] + s =~= seq![x]);
        assert(deep_fields(seq![x]) =~= seq![(x.0@, x.1.deep())]);
        assert(seq![(x.0@, x.1.deep())] + deep_fields(s) =~= seq![(x.0@, x.1.deep())]);
    } else {
        lemma_deep_fields_prepend(s.drop_last(), x);
        assert((seq![x] + s).drop_last() =~= seq![x] + s.drop_last());
        assert((seq![x] + s).last() == s.last());
        assert(seq![(x.0@, x.1.deep())] + deep_fields(s) =~= (seq![(x.0@, x.1.deep())]
            + deep_fields(s.drop_last())).push((s.last().0@, s.last().1.deep())));
    }
}

/// Parse object fields, mirroring [`sp_fields`].
fn parse_fields(s: &Vec<char>, i: usize, first: bool) -> (r: Option<(Vec<(String, Json)>, usize)>)
    requires
        i <= s@.len(),
    ensures
        match r {
            Some((fs, k)) => sp_fields(s@, i as int, first) == Some((deep_fields(fs@), k as int))
                && i < k <= s@.len(),
            None => sp_fields(s@, i as int, first) is None,
        },
    decreases s@.len() - i, 1int,
{
    broadcast use crate::json::lemma_deep_fields_len;

    proof {
        lemma_sp_fields_bounds(s@, i as int, first);
    }
    let j = skip_ws_exec(s, i);
    if j == s.len() {
        return None;
    }
    if s[j] == '}' && first {
        let empty: Vec<(String, Json)> = Vec::new();
        proof {
            assert(deep_fields(empty@) =~= Seq::<(Seq<char>, JsonV)>::empty());
        }
        return Some((empty, j + 1));
    }
    if s[j] != '"' {
        return None;
    }
    let e = match str_end_exec(s, j + 1) {
        Some(e) => e,
        None => {
            return None;
        },
    };
    let key = chars_to_string(s, j + 1, e);
    let m = skip_ws_exec(s, e + 1);
    if m == s.len() {
        return None;
    }
    if s[m] != ':' {
        return None;
    }
    match parse_value(s, m + 1) {
        None => None,
        Some((v, p)) => {
            let q = skip_ws_exec(s, p);
            if q == s.len() {
                return None;
            }
            if s[q] == ',' {
                match parse_fields(s, q + 1, false) {
                    None => None,
                    Some((mut rest, end)) => {
                        proof {
                            crate::json::lemma_jv_find_first(deep_fields(rest@), key@);
                        }
                        match crate::json::obj_find(&rest, key.as_str()) {
                            Some(_) => Some((rest, end)),
                            None => {
                                let ghost rest0 = rest@;
                                rest.insert(0, (key, v));
                                proof {
                                    lemma_deep_fields_prepend(rest0, rest@[0]);
                                    assert(rest@ =~= seq![rest@[0]] + rest0);
                                }
                                Some((rest, end))
                            },
                        }
                    },
                }
            } else if s[q] == '}' {
                let mut one: Vec<(String, Json)> = Vec::new();
                one.push((key, v));
                proof {
                    assert(deep_fields(one@) =~= seq![(one@[0].0@, one@[0].1.deep())]);
                }
                Some((one, q + 1))
            } else {
                None
            }
        },
    }
}

/// The compact serialized text of a JSON value: no whitespace, strings and
/// numbers emitted verbatim, fields and elements in their stored order.
pub open spec fn jv_text(v: JsonV) -> Seq<char>
    decreases v,
{
    match v {
        JsonV::Null => seq!['n', 'u', 'l', 'l'],
        JsonV::Bool(b) => if b {
            seq!['t', 'r', 'u', 'e']
        } else {
            seq!['f', 'a', 'l', 's', 'e']
        },
        JsonV::Num(s) => s,
        JsonV::Str(s) => seq!['"'] + s + seq!['"'],
        JsonV::Arr(es) => seq!['['] + arr_text(es) + seq![']'],
        JsonV::Obj(fs) => seq!['{'] + obj_text(fs) + seq!['}'],
    }
}

/// Array elements joined by commas.
pub open spec fn arr_text(es: Seq<JsonV>) -> Seq<char>
    decreases es,
{
    if es.len() == 0 {
        Seq::<char>::empty()
    } else if es.len() == 1 {
        jv_text(es[0])
    } else {
        arr_text(es.drop_last()) + seq![','] + jv_text(es.last())
    }
}

/// Object fields `"key":value` joined by commas.
pub open spec fn obj_text(fs: Seq<(Seq<char>, JsonV)>) -> Seq<char>
    decreases fs,
{
    if fs.len() == 0 {
        Seq::<char>::empty()
    } else if fs.len() == 1 {
        seq!['"'] + fs[0].0 + seq!['"', ':'] + jv_text(fs[0].1)
    } else {
        obj_text(fs.drop_last()) + seq![','] + (seq!['"'] + fs.last().0 + seq!['"', ':'] + jv_text(
            fs.last().1,
        ))
    }
}

/// Serialize a JSON value to its compact text.
pub fn to_text(j: &Json) -> (r: String)
    ensures
        r@ == jv_text(j.deep()),
    decreases *j,
{
    broadcast use crate::json::lemma_deep_elems_len, crate::json::lemma_deep_fields_len;

    match j {
        Json::Null => {
            let r = "null".to_owned();
            proof {
                reveal_strlit("null");
                assert(r@ =~= seq!['n', 'u', 'l', 'l']);
            }
            r
        },
        Json::Bool(b) => {
            if *b {
                let r = "true".to_owned();
                proof {
                    reveal_strlit("true");
                    assert(r@ =~= seq!['t', 'r', 'u', 'e']);
                }
                r
            } else {
                let r = "false".to_owned();
                proof {
                    reveal_strlit("false");
                    assert(r@ =~= seq!['f', 'a', 'l', 's', 'e']);
                }
                r
            }
        },
        Json::Num(s) => s.clone(),
        Json::Str(s) => {
            let mut r = String::new();
            push_char(&mut r, '"');
            r.append(s.as_str());
            push_char(&mut r, '"');
            proof {
                assert(r@ =~= seq!['"'] + s@ + seq!['"']);
            }
            r
        },
        Json::Arr(elems) => {
            proof {
                assert(decreases_to!(*j => j->Arr_0));
                assert(decreases_to!(*elems => elems@));
            }
            let ghost dv = deep_elems(elems@);
            let mut r = String::new();
            push_char(&mut r, '[');
            let mut i: usize = 0;
            while i < elems.len()
                invariant
                    i <= elems@.len(),
                    dv == deep_elems(elems@),
                    dv.len() == elems@.len(),
                    r@ == seq!['['] + arr_text(dv.take(i as int)),
                    decreases_to!(*j => elems@),
                decreases elems@.len() - i,
            {
                broadcast use crate::json::lemma_deep_elems_len;

                proof {
                    assert(decreases_to!(elems@ => elems@[i as int]));
                    assert(dv.take(i as int + 1).drop_last() =~= dv.take(i as int));
                    assert(dv.take(i as int + 1).last() == dv[i as int]);
                    if i == 0 {
                        assert(dv.take(1)[0] == dv[0]);
                    }
                }
                if i > 0 {
                    push_char(&mut r, ',');
                }
                let t = to_text(&elems[i]);
                r.append(t.as_str());
                proof {
                    if i == 0 {
                        assert(r@ =~= seq!['['] + arr_text(dv.take(1)));
                    } else {
                        assert(r@ =~= seq!['['] + (arr_text(dv.take(i as int)) + seq![',']
                            + jv_text(dv[i as int])));
                    }
                }
                i += 1;
            }
            push_char(&mut r, ']');
            proof {
                assert(dv.take(dv.len() as int) =~= dv);
                assert(r@ =~= seq!['['] + arr_text(dv) + seq![']']);
            }
            r
        },
        Json::Obj(fields) => {
            proof {
                assert(decreases_to!(*j => j->Obj_0));
                assert(decreases_to!(*fields => fields@));
            }
            let ghost dv = deep_fields(fields@);
            let mut r = String::new();
            push_char(&mut r, '{');
            let mut i: usize = 0;
            while i < fields.len()
                invariant
                    i <= fields@.len(),
                    dv == deep_fields(fields@),
                    dv.len() == fields@.len(),
                    r@ == seq!['{'] + obj_text(dv.take(i as int)),
                    decreases_to!(*j => fields@),
                decreases fields@.len() - i,
            {
                broadcast use crate::json::lemma_deep_fields_len;

                proof {
                    assert(decreases_to!(fields@ => fields@[i as int]));
                    assert(decreases_to!(fields@[i as int] => fields@[i as int].1));
                    assert(dv.take(i as int + 1).drop_last() =~= dv.take(i as int));
                    assert(dv.take(i as int + 1).last() == dv[i as int]);
                    if i == 0 {
                        assert(dv.take(1)[0] == dv[0]);
                    }
                }
                if i > 0 {
                    push_char(&mut r, ',');
                }
                push_char(&mut r, '"');
                r.append(fields[i].0.as_str());
                push_char(&mut r, '"');
                push_char(&mut r, ':');
                let t = to_text(&fields[i].1);
                r.append(t.as_str());
                proof {
                    if i == 0 {
                        assert(r@ =~= seq!['{'] + (seq!['"'] + dv[0].0 + seq!['"', ':'] + jv_text(
                            dv[0].1,
                        )));
                        assert(r@ =~= seq!['{'] + obj_text(dv.take(1)));
                    } else {
                        assert(r@ =~= seq!['{'] + (obj_text(dv.take(i as int)) + seq![','] + (
                        seq!['"'] + dv[i as int].0 + seq!['"', ':'] + jv_text(dv[i as int].1))));
                    }
                }
                i += 1;
            }
            push_char(&mut r, '}');
            proof {
                assert(dv.take(dv.len() as int) =~= dv);
                assert(r@ =~= seq!['{'] + obj_text(dv) + seq!['}']);
            }
            r
        },
    }
}

/// Parse a whole JSON document. Returns the value exactly when the text is
/// one JSON value with nothing but whitespace around it.
pub fn parse_text(text: &str) -> (r: Option<Json>)
    ensures
        match r {
            Some(v) => spec_parse_text(text@) == Some(v.deep()),
            None => spec_parse_text(text@) is None,
        },
{
    let chars = str_to_chars(text);
    match parse_value(&chars, 0) {
        Some((v, p)) => {
            let q = skip_ws_exec(&chars, p);
            if q == chars.len() {
                Some(v)
            } else {
                None
            }
        },
        None => None,
    }
}

} // verus!
