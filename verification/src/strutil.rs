//! String and character-sequence utilities: splitting on a separator
//! character, joining segments, trimming, and decimal number conversions.
//! All wire and path handling in the crate is built on these.

use vstd::prelude::*;
use vstd::string::StrSliceExecFns;
use vstd::string::StringExecFns;

use crate::bridge::push_char;

verus! {

/// The sequence of segments of `s` cut at every occurrence of `sep`.
/// A string with no separator is a single segment; each separator starts a
/// new (possibly empty) segment, so the result is never an empty list.
pub open spec fn split_seq(s: Seq<char>, sep: char) -> Seq<Seq<char>>
    decreases s.len(),
{
    if s.len() == 0 {
        seq![Seq::<char>::empty()]
    } else if s.last() == sep {
        split_seq(s.drop_last(), sep).push(Seq::<char>::empty())
    } else {
        let r = split_seq(s.drop_last(), sep);
        r.update(r.len() - 1, r.last().push(s.last()))
    }
}

pub proof fn lemma_split_seq_nonempty(s: Seq<char>, sep: char)
    ensures
        split_seq(s, sep).len() >= 1,
    decreases s.len(),
{
    if s.len() > 0 {
        lemma_split_seq_nonempty(s.drop_last(), sep);
    }
}

/// Split `s` at every occurrence of `sep`, keeping empty segments.
pub fn split_char(s: &str, sep: char) -> (r: Vec<String>)
    ensures
        r@.map_values(|t: String| t@) == split_seq(s@, sep),
{
    let n: usize = s.unicode_len();
    let mut r: Vec<String> = Vec::new();
    let mut cur: String = String::new();
    let mut i: usize = 0;
    while i < n
        invariant
            n == s@.len(),
            i <= n,
            r@.map_values(|t: String| t@).push(cur@) =~= split_seq(s@.take(i as int), sep),
        decreases n - i,
    {
        let c = s.get_char(i);
        proof {
            lemma_split_seq_nonempty(s@.take(i as int), sep);
            assert(s@.take(i as int + 1).drop_last() =~= s@.take(i as int));
            assert(s@.take(i as int + 1).last() == c);
        }
        if c == sep {
            r.push(cur);
            cur = String::new();
        } else {
            push_char(&mut cur, c);
        }
        i += 1;
    }
    proof {
        assert(s@.take(n as int) =~= s@);
        assert(r@.map_values(|t: String| t@).push(cur@) =~= split_seq(s@, sep));
    }
    r.push(cur);
    proof {
        assert(r@.map_values(|t: String| t@) =~= split_seq(s@, sep));
    }
    r
}

/// The segments joined back with `sep` between consecutive segments.
pub open spec fn join_seq(ss: Seq<Seq<char>>, sep: char) -> Seq<char>
    decreases ss.len(),
{
    if ss.len() == 0 {
        Seq::<char>::empty()
    } else if ss.len() == 1 {
        ss[0]
    } else {
        join_seq(ss.drop_last(), sep).push(sep) + ss.last()
    }
}

/// Join the strings with `sep` between consecutive entries.
pub fn join_char(parts: &Vec<String>, sep: char) -> (r: String)
    ensures
        r@ == join_seq(parts@.map_values(|t: String| t@), sep),
{
    let ghost model = parts@.map_values(|t: String| t@);
    let mut r: String = String::new();
    let mut i: usize = 0;
    while i < parts.len()
        invariant
            i <= parts.len(),
            model == parts@.map_values(|t: String| t@),
            r@ == join_seq(model.take(i as int), sep),
        decreases parts.len() - i,
    {
        proof {
            assert(model.take(i as int + 1).drop_last() =~= model.take(i as int));
            assert(model.take(i as int + 1).last() == model[i as int]);
        }
        if i > 0 {
            push_char(&mut r, sep);
        }
        r.append(parts[i].as_str());
        proof {
            if i == 0 {
                assert(model.take(1int) =~= seq![model[0]]);
                assert(r@ == model[0]);
            }
        }
        i += 1;
    }
    proof {
        assert(model.take(parts@.len() as int) =~= model);
    }
    r
}

/// Join the strings from index `from` on with `sep` between consecutive
/// entries.
pub fn join_from(parts: &Vec<String>, from: usize, sep: char) -> (r: String)
    requires
        from <= parts@.len(),
    ensures
        r@ == join_seq(parts@.map_values(|t: String| t@).skip(from as int), sep),
{
    let ghost model = parts@.map_values(|t: String| t@).skip(from as int);
    let mut r: String = String::new();
    let mut i: usize = from;
    while i < parts.len()
        invariant
            from <= i <= parts.len(),
            model == parts@.map_values(|t: String| t@).skip(from as int),
            r@ == join_seq(model.take(i - from), sep),
        decreases parts.len() - i,
    {
        let ghost k = i - from;
        proof {
            assert(model.take(k + 1).drop_last() =~= model.take(k));
            assert(model.take(k + 1).last() == model[k]);
            assert(model[k] == parts@[i as int]@);
        }
        if i > from {
            push_char(&mut r, sep);
        }
        r.append(parts[i].as_str());
        proof {
            if i == from {
                assert(model.take(1int) =~= seq![model[0]]);
                assert(r@ == model[0]);
            }
        }
        i += 1;
    }
    proof {
        assert(model.take(parts@.len() - from) =~= model);
    }
    r
}

/// The segments of `ss` that are not empty, in order.
pub open spec fn nonempty_seq(ss: Seq<Seq<char>>) -> Seq<Seq<char>> {
    ss.filter(|t: Seq<char>| t.len() > 0)
}

/// Keep only the non-empty strings, in order.
pub fn filter_nonempty(parts: Vec<String>) -> (r: Vec<String>)
    ensures
        r@.map_values(|t: String| t@) == nonempty_seq(parts@.map_values(|t: String| t@)),
{
    let ghost model = parts@.map_values(|t: String| t@);
    let mut r: Vec<String> = Vec::new();
    let mut i: usize = 0;
    while i < parts.len()
        invariant
            i <= parts.len(),
            model == parts@.map_values(|t: String| t@),
            r@.map_values(|t: String| t@) == model.take(i as int).filter(|t: Seq<char>| t.len()
                > 0),
        decreases parts.len() - i,
    {
        proof {
            assert(model.take(i as int + 1).drop_last() =~= model.take(i as int));
            reveal_with_fuel(Seq::filter, 2);
        }
        if parts[i].as_str().unicode_len() > 0 {
            let p = parts[i].clone();
            r.push(p);
        }
        i += 1;
    }
    proof {
        assert(model.take(parts@.len() as int) =~= model);
    }
    r
}

/// The `/`-separated path split into its non-empty segments.
pub open spec fn path_segs(s: Seq<char>) -> Seq<Seq<char>> {
    nonempty_seq(split_seq(s, '/'))
}

/// Split a path on `/`, discarding empty segments.
pub fn split_path(path: String) -> (r: Vec<String>)
    ensures
        r@.map_values(|t: String| t@) == path_segs(path@),
{
    filter_nonempty(split_char(path.as_str(), '/'))
}

/// Non-empty segments of `a` followed by those of `b`, joined with `/`.
pub open spec fn merged_path(a: Seq<char>, b: Seq<char>) -> Seq<char> {
    join_seq(path_segs(a) + path_segs(b), '/')
}

/// Character-by-character string comparison.
pub fn str_eq(a: &str, b: &str) -> (r: bool)
    ensures
        r == (a@ == b@),
{
    let n = a.unicode_len();
    if n != b.unicode_len() {
        return false;
    }
    let mut i: usize = 0;
    while i < n
        invariant
            n == a@.len(),
            n == b@.len(),
            i <= n,
            forall|j: int| 0 <= j < i ==> a@[j] == b@[j],
        decreases n - i,
    {
        if a.get_char(i) != b.get_char(i) {
            return false;
        }
        i += 1;
    }
    proof {
        assert(a@ =~= b@);
    }
    true
}

/// The decimal digit character for a value below ten.
pub open spec fn digit_char(d: nat) -> char {
    if d == 0 {
        '0'
    } else if d == 1 {
        '1'
    } else if d == 2 {
        '2'
    } else if d == 3 {
        '3'
    } else if d == 4 {
        '4'
    } else if d == 5 {
        '5'
    } else if d == 6 {
        '6'
    } else if d == 7 {
        '7'
    } else if d == 8 {
        '8'
    } else {
        '9'
    }
}

/// The decimal digits of `n`, most significant first, with no sign and no
/// leading zero (except for `n == 0`).
pub open spec fn dec_seq(n: nat) -> Seq<char>
    decreases n,
{
    if n < 10 {
        seq![digit_char(n)]
    } else {
        dec_seq(n / 10).push(digit_char(n % 10))
    }
}

/// The decimal form of a signed value: a `-` before the digits when negative.
pub open spec fn dec_int_seq(n: int) -> Seq<char> {
    if n >= 0 {
        dec_seq(n as nat)
    } else {
        seq!['-'] + dec_seq((-n) as nat)
    }
}

fn digit_exec(d: u64) -> (c: char)
    requires
        d < 10,
    ensures
        c == digit_char(d as nat),
{
    match d {
        0 => '0',
        1 => '1',
        2 => '2',
        3 => '3',
        4 => '4',
        5 => '5',
        6 => '6',
        7 => '7',
        8 => '8',
        _ => '9',
    }
}

/// The decimal representation of `n`.
pub fn u64_to_string(n: u64) -> (r: String)
    ensures
        r@ == dec_seq(n as nat),
    decreases n,
{
    if n < 10 {
        let mut s = String::new();
        push_char(&mut s, digit_exec(n));
        s
    } else {
        let mut s = u64_to_string(n / 10);
        push_char(&mut s, digit_exec(n % 10));
        s
    }
}

/// The decimal representation of `n`, with a leading `-` when negative.
pub fn i64_to_string(n: i64) -> (r: String)
    ensures
        r@ == dec_int_seq(n as int),
{
    if n >= 0 {
        u64_to_string(n as u64)
    } else {
        let m: u64 = ((-(n + 1)) as u64) + 1;
        let mut s = String::new();
        push_char(&mut s, '-');
        let digits = u64_to_string(m);
        s.append(digits.as_str());
        proof {
            assert(s@ =~= dec_int_seq(n as int));
        }
        s
    }
}

/// Whether `c` is a decimal digit.
pub open spec fn is_digit(c: char) -> bool {
    48 <= c as u32 && c as u32 <= 57
}

/// The value of a digit character.
pub open spec fn digit_val(c: char) -> nat {
    (c as u32 - 48) as nat
}

/// Whether `s` is one or more decimal digits and nothing else.
pub open spec fn all_digits(s: Seq<char>) -> bool {
    forall|i: int| 0 <= i < s.len() ==> is_digit(#[trigger] s[i])
}

/// The number denoted by a digit sequence, most significant first.
pub open spec fn digits_val(s: Seq<char>) -> nat
    decreases s.len(),
{
    if s.len() == 0 {
        0
    } else {
        digits_val(s.drop_last()) * 10 + digit_val(s.last())
    }
}

proof fn lemma_digits_val_prefix_le(s: Seq<char>, i: int)
    requires
        0 <= i <= s.len(),
    ensures
        digits_val(s.take(i)) <= digits_val(s),
    decreases s.len() - i,
{
    if i < s.len() {
        assert(s.drop_last().take(i) =~= s.take(i));
        lemma_digits_val_prefix_le(s.drop_last(), i);
    } else {
        assert(s.take(i) =~= s);
    }
}

/// Parse an unsigned decimal number. Returns the value exactly when `s` is a
/// non-empty run of digits whose value fits in a `u64`.
pub fn parse_u64(s: &str) -> (r: Option<u64>)
    ensures
        match r {
            Some(v) => s@.len() > 0 && all_digits(s@) && v as nat == digits_val(s@),
            None => s@.len() == 0 || !all_digits(s@) || digits_val(s@) > u64::MAX,
        },
{
    let n = s.unicode_len();
    if n == 0 {
        return None;
    }
    let mut value: u64 = 0;
    let mut i: usize = 0;
    while i < n
        invariant
            n == s@.len(),
            0 < n,
            i <= n,
            all_digits(s@.take(i as int)),
            value as nat == digits_val(s@.take(i as int)),
        decreases n - i,
    {
        let c = s.get_char(i);
        let cu = c as u32;
        proof {
            assert(s@.take(i as int + 1).drop_last() =~= s@.take(i as int));
            assert(s@.take(i as int + 1).last() == c);
        }
        if cu < 48 || cu > 57 {
            return None;
        }
        let d: u64 = (cu - 48) as u64;
        if value > (u64::MAX - d) / 10 {
            proof {
                assert(digits_val(s@.take(i as int + 1)) > u64::MAX) by (nonlinear_arith)
                    requires
                        digits_val(s@.take(i as int + 1)) == value as nat * 10 + d as nat,
                        value as nat > ((u64::MAX - d) as nat) / 10,
                        d < 10,
                ;
                lemma_digits_val_prefix_le(s@, i as int + 1);
            }
            return None;
        }
        proof {
            assert(value as nat * 10 + d as nat <= u64::MAX) by (nonlinear_arith)
                requires
                    value as nat <= ((u64::MAX - d) as nat) / 10,
                    d < 10,
            ;
        }
        value = value * 10 + d;
        i += 1;
    }
    proof {
        assert(s@.take(n as int) =~= s@);
    }
    Some(value)
}

/// Merge two paths: the non-empty segments of `a` followed by those of `b`,
/// joined by `/`.
pub fn merge_paths(a: String, b: String) -> (r: String)
    ensures
        r@ == merged_path(a@, b@),
{
    let mut parts = split_path(a);
    let ghost first = parts@;
    let mut more = split_path(b);
    let ghost second = more@;
    parts.append(&mut more);
    proof {
        assert(parts@.map_values(|t: String| t@) =~= first.map_values(|t: String| t@)
            + second.map_values(|t: String| t@));
    }
    join_char(&parts, '/')
}

} // verus!
