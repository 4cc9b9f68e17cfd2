//! The JSON value model: structural deep merge and dotted/indexed path
//! addressing, the two operations chain components rely on.
//!
//! Numbers and strings are carried as their literal text (the characters of
//! the number, the characters between the quotes with escape sequences left
//! as written); the gateway only moves these values and compares keys, it
//! never computes with them, so the literal form is the faithful model.

use vstd::prelude::*;

use crate::strutil::{all_digits, digits_val, split_seq, split_char, parse_u64, str_eq};
use vstd::string::StrSliceExecFns;

verus! {

/// The mathematical value of a [`Json`] tree.
#[verifier::ext_equal]
pub enum JsonV {
    Null,
    Bool(bool),
    /// The literal text of a number.
    Num(Seq<char>),
    /// The text between the quotes of a string, escapes left as written.
    Str(Seq<char>),
    Arr(Seq<JsonV>),
    Obj(Seq<(Seq<char>, JsonV)>),
}

/// A JSON value.
pub enum Json {
    Null,
    Bool(bool),
    /// The literal text of a number.
    Num(String),
    /// The text between the quotes of a string, escapes left as written.
    Str(String),
    Arr(Vec<Json>),
    Obj(Vec<(String, Json)>),
}

/// The deep views of the elements of an array.
pub open spec fn deep_elems(elems: Seq<Json>) -> Seq<JsonV>
    decreases elems,
{
    if elems.len() == 0 {
        Seq::<JsonV>::empty()
    } else {
        deep_elems(elems.drop_last()).push(elems.last().deep())
    }
}

/// The deep views of the fields of an object.
pub open spec fn deep_fields(fields: Seq<(String, Json)>) -> Seq<(Seq<char>, JsonV)>
    decreases fields,
{
    if fields.len() == 0 {
        Seq::<(Seq<char>, JsonV)>::empty()
    } else {
        deep_fields(fields.drop_last()).push((fields.last().0@, fields.last().1.deep()))
    }
}

pub broadcast proof fn lemma_deep_elems_push(s: Seq<Json>, x: Json)
    ensures
        #[trigger] deep_elems(s.push(x)) == deep_elems(s).push(x.deep()),
{
    assert(s.push(x).drop_last() =~= s);
    assert(s.push(x).last() == x);
}

pub broadcast proof fn lemma_deep_fields_push(s: Seq<(String, Json)>, x: (String, Json))
    ensures
        #[trigger] deep_fields(s.push(x)) == deep_fields(s).push((x.0@, x.1.deep())),
{
    assert(s.push(x).drop_last() =~= s);
    assert(s.push(x).last() == x);
}

pub broadcast proof fn lemma_deep_elems_len(elems: Seq<Json>)
    ensures
        (#[trigger] deep_elems(elems)).len() == elems.len(),
        forall|i: int| 0 <= i < elems.len() ==> deep_elems(elems)[i] == (#[trigger] elems[i]).deep(),
    decreases elems,
{
    if elems.len() > 0 {
        lemma_deep_elems_len(elems.drop_last());
        assert forall|i: int| 0 <= i < elems.len() implies deep_elems(elems)[i] == (
        #[trigger] elems[i]).deep() by {
            if i < elems.len() - 1 {
                assert(elems.drop_last()[i] == elems[i]);
            } else {
                assert(elems.last() == elems[i]);
            }
        }
    }
}

pub broadcast proof fn lemma_deep_fields_len(fields: Seq<(String, Json)>)
    ensures
        (#[trigger] deep_fields(fields)).len() == fields.len(),
        forall|i: int|
            0 <= i < fields.len() ==> deep_fields(fields)[i] == ((#[trigger] fields[i]).0@,
            fields[i].1.deep()),
    decreases fields,
{
    if fields.len() > 0 {
        lemma_deep_fields_len(fields.drop_last());
        assert forall|i: int| 0 <= i < fields.len() implies deep_fields(fields)[i] == ((
        #[trigger] fields[i]).0@, fields[i].1.deep()) by {
            if i < fields.len() - 1 {
                assert(fields.drop_last()[i] == fields[i]);
            } else {
                assert(fields.last() == fields[i]);
            }
        }
    }
}

impl Json {
    /// The deep mathematical view.
    pub open spec fn deep(self) -> JsonV
        decreases self,
    {
        match self {
            Json::Null => JsonV::Null,
            Json::Bool(b) => JsonV::Bool(b),
            Json::Num(s) => JsonV::Num(s@),
            Json::Str(s) => JsonV::Str(s@),
            Json::Arr(elems) => JsonV::Arr(deep_elems(elems@)),
            Json::Obj(fields) => JsonV::Obj(deep_fields(fields@)),
        }
    }

    /// Structural clone; the result has the same deep view.
    pub fn duplicate(&self) -> (r: Json)
        ensures
            r.deep() == self.deep(),
        decreases *self,
    {
        broadcast use lemma_deep_elems_len, lemma_deep_fields_len;

        match self {
            Json::Null => Json::Null,
            Json::Bool(b) => Json::Bool(*b),
            Json::Num(s) => Json::Num(s.clone()),
            Json::Str(s) => Json::Str(s.clone()),
            Json::Arr(elems) => {
                proof {
                    assert(decreases_to!(*self => self->Arr_0));
                    assert(decreases_to!(*elems => elems@));
                }
                let mut out: Vec<Json> = Vec::new();
                let mut i: usize = 0;
                while i < elems.len()
                    invariant
                        i <= elems@.len(),
                        deep_elems(out@) =~= deep_elems(elems@.take(i as int)),
                        out@.len() == i,
                        decreases_to!(*self => elems@),
                    decreases elems@.len() - i,
                {
                    broadcast use lemma_deep_elems_len;

                    proof {
                        assert(decreases_to!(elems@ => elems@[i as int]));
                    }
                    let d = elems[i].duplicate();
                    let ghost out0 = out@;
                    out.push(d);
                    proof {
                        lemma_deep_elems_push(out0, d);
                        assert(elems@.take(i as int + 1) =~= elems@.take(i as int).push(
                            elems@[i as int],
                        ));
                        lemma_deep_elems_push(elems@.take(i as int), elems@[i as int]);
                    }
                    i += 1;
                }
                proof {
                    assert(elems@.take(elems@.len() as int) =~= elems@);
                }
                Json::Arr(out)
            },
            Json::Obj(fields) => {
                proof {
                    assert(decreases_to!(*self => self->Obj_0));
                    assert(decreases_to!(*fields => fields@));
                }
                let mut out: Vec<(String, Json)> = Vec::new();
                let mut i: usize = 0;
                while i < fields.len()
                    invariant
                        i <= fields@.len(),
                        deep_fields(out@) =~= deep_fields(fields@.take(i as int)),
                        out@.len() == i,
                        decreases_to!(*self => fields@),
                    decreases fields@.len() - i,
                {
                    broadcast use lemma_deep_fields_len;

                    proof {
                        assert(decreases_to!(fields@ => fields@[i as int]));
                        assert(decreases_to!(fields@[i as int] => fields@[i as int].1));
                    }
                    let k = fields[i].0.clone();
                    let v = fields[i].1.duplicate();
                    let ghost out0 = out@;
                    out.push((k, v));
                    proof {
                        lemma_deep_fields_push(out0, (k, v));
                        assert(fields@.take(i as int + 1) =~= fields@.take(i as int).push(
                            fields@[i as int],
                        ));
                        lemma_deep_fields_push(fields@.take(i as int), fields@[i as int]);
                        assert((k@, v.deep()) == (fields@[i as int].0@, fields@[i as int].1.deep()));
                    }
                    i += 1;
                }
                proof {
                    assert(fields@.take(fields@.len() as int) =~= fields@);
                }
                Json::Obj(out)
            },
        }
    }
}

/// The field `name` of an object value, if the value is an object that has
/// it.
pub open spec fn jv_field(v: JsonV, name: Seq<char>) -> Option<JsonV> {
    match v {
        JsonV::Obj(fs) => jv_find(fs, name),
        _ => None,
    }
}

/// The integer denoted by a number literal: an optional `-` before decimal
/// digits.
pub open spec fn int_of_num(s: Seq<char>) -> Option<int> {
    if s.len() > 1 && s[0] == '-' && all_digits(s.skip(1)) {
        Some(-(digits_val(s.skip(1)) as int))
    } else if s.len() > 0 && all_digits(s) {
        Some(digits_val(s) as int)
    } else {
        None
    }
}

/// The value as a signed 64-bit integer: a number whose literal is a plain
/// integer in range.
pub open spec fn jv_as_i64(v: JsonV) -> Option<int> {
    match v {
        JsonV::Num(s) => match int_of_num(s) {
            Some(n) => if i64::MIN <= n <= i64::MAX {
                Some(n)
            } else {
                None
            },
            None => None,
        },
        _ => None,
    }
}

/// The height of a JSON value: every member of an array or object is
/// strictly lower.
pub open spec fn jv_height(v: JsonV) -> nat
    decreases v,
{
    match v {
        JsonV::Arr(es) => 1 + elems_height(es),
        JsonV::Obj(fs) => 1 + fields_height(fs),
        _ => 0,
    }
}

/// The greatest height among array elements.
pub open spec fn elems_height(es: Seq<JsonV>) -> nat
    decreases es,
{
    if es.len() == 0 {
        0
    } else {
        let rest = elems_height(es.drop_last());
        let last = jv_height(es.last());
        if last > rest {
            last
        } else {
            rest
        }
    }
}

/// The greatest height among object field values.
pub open spec fn fields_height(fs: Seq<(Seq<char>, JsonV)>) -> nat
    decreases fs,
{
    if fs.len() == 0 {
        0
    } else {
        let rest = fields_height(fs.drop_last());
        let last = jv_height(fs.last().1);
        if last > rest {
            last
        } else {
            rest
        }
    }
}

/// Every field value of an object sits strictly below the object.
pub proof fn lemma_field_height(fs: Seq<(Seq<char>, JsonV)>, name: Seq<char>)
    ensures
        match jv_find(fs, name) {
            Some(v) => jv_height(v) <= fields_height(fs),
            None => true,
        },
    decreases fs,
{
    if fs.len() > 0 {
        lemma_jv_find_first(fs, name);
        if jv_find(fs, name) is Some {
            lemma_find_height(fs, name);
        }
    }
}

proof fn lemma_find_height(fs: Seq<(Seq<char>, JsonV)>, name: Seq<char>)
    requires
        jv_find(fs, name) is Some,
    ensures
        jv_height(jv_find(fs, name).unwrap()) <= fields_height(fs),
    decreases fs,
{
    if fs.len() > 0 {
        if fs[0].0 == name {
            lemma_member_height(fs, 0);
        } else {
            lemma_find_height(fs.skip(1), name);
            lemma_fields_height_skip(fs);
        }
    }
}

/// The height bound applies at every index.
proof fn lemma_member_height(fs: Seq<(Seq<char>, JsonV)>, i: int)
    requires
        0 <= i < fs.len(),
    ensures
        jv_height(fs[i].1) <= fields_height(fs),
    decreases fs,
{
    if i == fs.len() - 1 {
        assert(fs.last() == fs[i]);
    } else {
        assert(fs.drop_last()[i] == fs[i]);
        lemma_member_height(fs.drop_last(), i);
    }
}

proof fn lemma_fields_height_skip(fs: Seq<(Seq<char>, JsonV)>)
    requires
        fs.len() > 0,
    ensures
        fields_height(fs.skip(1)) <= fields_height(fs),
    decreases fs,
{
    assert forall|i: int| 0 <= i < fs.skip(1).len() implies jv_height(
        #[trigger] fs.skip(1)[i].1,
    ) <= fields_height(fs) by {
        assert(fs.skip(1)[i] == fs[i + 1]);
        lemma_member_height(fs, i + 1);
    }
    lemma_height_from_members(fs.skip(1), fields_height(fs));
}

/// A bound on all members bounds the aggregate height.
proof fn lemma_height_from_members(fs: Seq<(Seq<char>, JsonV)>, bound: nat)
    requires
        forall|i: int| 0 <= i < fs.len() ==> jv_height((#[trigger] fs[i]).1) <= bound,
    ensures
        fields_height(fs) <= bound,
    decreases fs,
{
    if fs.len() > 0 {
        assert(fs.last() == fs[fs.len() - 1]);
        assert forall|i: int| 0 <= i < fs.drop_last().len() implies jv_height(
            (#[trigger] fs.drop_last()[i]).1,
        ) <= bound by {
            assert(fs.drop_last()[i] == fs[i]);
        }
        lemma_height_from_members(fs.drop_last(), bound);
    }
}

impl Json {
    /// The string contents when the value is a string.
    pub fn as_str(&self) -> (r: Option<&String>)
        ensures
            match r {
                Some(s) => self.deep() == JsonV::Str(s@),
                None => !(self.deep() is Str),
            },
    {
        match self {
            Json::Str(s) => Some(s),
            _ => None,
        }
    }

    /// The value as a signed 64-bit integer, when it is an in-range integer
    /// number literal.
    pub fn as_i64(&self) -> (r: Option<i64>)
        ensures
            match r {
                Some(v) => jv_as_i64(self.deep()) == Some(v as int),
                None => jv_as_i64(self.deep()) is None,
            },
    {
        let s: &String = match self {
            Json::Num(s) => s,
            _ => {
                return None;
            },
        };
        let st = s.as_str();
        let n = st.unicode_len();
        if n > 1 && st.get_char(0) == '-' {
            let digits = st.substring_char(1, n);
            proof {
                assert(digits@ =~= s@.skip(1));
            }
            match parse_u64(digits) {
                Some(v) => {
                    if v <= i64::MAX as u64 {
                        Some(-(v as i64))
                    } else if v == (i64::MAX as u64) + 1 {
                        Some(i64::MIN)
                    } else {
                        None
                    }
                },
                None => None,
            }
        } else {
            match parse_u64(st) {
                Some(v) => {
                    if v <= i64::MAX as u64 {
                        Some(v as i64)
                    } else {
                        None
                    }
                },
                None => None,
            }
        }
    }

    /// The field `name` of an object, if present.
    pub fn get_field(&self, name: &str) -> (r: Option<&Json>)
        ensures
            match r {
                Some(v) => jv_field(self.deep(), name@) == Some(v.deep()),
                None => jv_field(self.deep(), name@) is None,
            },
    {
        match self {
            Json::Obj(fields) => match obj_find(fields, name) {
                Some(i) => Some(&fields[i].1),
                None => None,
            },
            _ => None,
        }
    }
}

/// The value of the first field named `k`, if any.
pub open spec fn jv_find(fields: Seq<(Seq<char>, JsonV)>, k: Seq<char>) -> Option<JsonV>
    decreases fields,
{
    if fields.len() == 0 {
        None
    } else if fields[0].0 == k {
        Some(fields[0].1)
    } else {
        jv_find(fields.skip(1), k)
    }
}

/// `jv_find` returns the value at the first index whose key matches.
#[verifier::rlimit(50)]
pub proof fn lemma_jv_find_first(fields: Seq<(Seq<char>, JsonV)>, k: Seq<char>)
    ensures
        (jv_find(fields, k) is Some) <==> exists|i: int|
            0 <= i < fields.len() && (#[trigger] fields[i]).0 == k,
        forall|i: int|
            (0 <= i < fields.len() && (#[trigger] fields[i]).0 == k && (forall|j: int|
                0 <= j < i ==> (#[trigger] fields[j]).0 != k)) ==> jv_find(fields, k) == Some(
                fields[i].1,
            ),
    decreases fields,
{
    if fields.len() > 0 {
        lemma_jv_find_first(fields.skip(1), k);
        assert forall|i: int|
            (0 <= i < fields.len() && (#[trigger] fields[i]).0 == k && (forall|j: int|
                0 <= j < i ==> (#[trigger] fields[j]).0 != k)) implies jv_find(fields, k) == Some(
            fields[i].1,
        ) by {
            if i > 0 {
                assert(fields[0].0 != k);
                assert(fields.skip(1)[i - 1].0 == k);
                assert(forall|j: int| 0 <= j < i - 1 ==> (#[trigger] fields.skip(1)[j]).0 != k);
            }
        }
        if jv_find(fields, k) is Some && fields[0].0 != k {
            let i = choose|i: int|
                0 <= i < fields.skip(1).len() && (#[trigger] fields.skip(1)[i]).0 == k;
            assert(fields[i + 1].0 == k);
        }
        if exists|i: int| 0 <= i < fields.len() && (#[trigger] fields[i]).0 == k {
            let i = choose|i: int| 0 <= i < fields.len() && (#[trigger] fields[i]).0 == k;
            if i > 0 {
                assert(fields.skip(1)[i - 1].0 == k);
            }
        }
    }
}

/// The fields of `af` with every value whose key also stands in `bf` merged
/// with `bf`'s value.
pub open spec fn merge_into(
    af: Seq<(Seq<char>, JsonV)>,
    bf: Seq<(Seq<char>, JsonV)>,
) -> Seq<(Seq<char>, JsonV)>
    decreases af,
{
    if af.len() == 0 {
        Seq::<(Seq<char>, JsonV)>::empty()
    } else {
        let head = match jv_find(bf, af[0].0) {
            Some(v) => (af[0].0, spec_merge(af[0].1, v)),
            None => af[0],
        };
        seq![head] + merge_into(af.skip(1), bf)
    }
}

/// The fields of `bf` whose keys do not stand in `af`.
pub open spec fn only_new(
    af: Seq<(Seq<char>, JsonV)>,
    bf: Seq<(Seq<char>, JsonV)>,
) -> Seq<(Seq<char>, JsonV)> {
    bf.filter(|g: (Seq<char>, JsonV)| jv_find(af, g.0) is None)
}

/// Structural merge: objects merge key-by-key (keys of both are merged
/// recursively, keys of one side are kept), arrays concatenate, and for any
/// other pairing `a` wins.
pub open spec fn spec_merge(a: JsonV, b: JsonV) -> JsonV
    decreases a,
{
    match (a, b) {
        (JsonV::Obj(af), JsonV::Obj(bf)) => JsonV::Obj(merge_into(af, bf) + only_new(af, bf)),
        (JsonV::Arr(ae), JsonV::Arr(be)) => JsonV::Arr(ae + be),
        _ => a,
    }
}

/// Find the index of the first field named `k` in an object's field list.
pub fn obj_find(fields: &Vec<(String, Json)>, k: &str) -> (r: Option<usize>)
    ensures
        match r {
            Some(i) => i < fields@.len() && fields@[i as int].0@ == k@ && jv_find(
                deep_fields(fields@),
                k@,
            ) == Some(fields@[i as int].1.deep()),
            None => jv_find(deep_fields(fields@), k@) is None,
        },
{
    broadcast use lemma_deep_fields_len;

    proof {
        lemma_jv_find_first(deep_fields(fields@), k@);
    }
    let mut i: usize = 0;
    while i < fields.len()
        invariant
            i <= fields@.len(),
            forall|j: int| 0 <= j < i ==> (#[trigger] fields@[j]).0@ != k@,
        decreases fields@.len() - i,
    {
        broadcast use lemma_deep_fields_len;

        if str_eq(fields[i].0.as_str(), k) {
            proof {
                assert(deep_fields(fields@)[i as int].0 == k@);
                assert forall|j: int| 0 <= j < i implies (#[trigger] deep_fields(fields@)[j]).0
                    != k@ by {
                    assert(deep_fields(fields@)[j] == (fields@[j].0@, fields@[j].1.deep()));
                }
                lemma_jv_find_first(deep_fields(fields@), k@);
            }
            return Some(i);
        }
        i += 1;
    }
    proof {
        assert forall|j: int| 0 <= j < deep_fields(fields@).len() implies (
        #[trigger] deep_fields(fields@)[j]).0 != k@ by {
            assert(deep_fields(fields@)[j] == (fields@[j].0@, fields@[j].1.deep()));
        }
    }
    None
}

/// Structural deep merge of two JSON values (`merge_body` semantics): objects
/// merge recursively key-by-key, arrays concatenate, and in every other case
/// `a` wins unconditionally.
pub fn merge_body(a: &Json, b: &Json) -> (r: Json)
    ensures
        r.deep() == spec_merge(a.deep(), b.deep()),
    decreases *a,
{
    broadcast use lemma_deep_elems_len, lemma_deep_fields_len;

    match (a, b) {
        (Json::Obj(af), Json::Obj(bf)) => {
            proof {
                assert(decreases_to!(*a => a->Obj_0));
                assert(decreases_to!(*af => af@));
            }
            let ghost adf = deep_fields(af@);
            let ghost bdf = deep_fields(bf@);
            let mut out: Vec<(String, Json)> = Vec::new();
            let mut i: usize = 0;
            while i < af.len()
                invariant
                    i <= af@.len(),
                    adf == deep_fields(af@),
                    bdf == deep_fields(bf@),
                    deep_fields(out@) =~= merge_into(adf.take(i as int), bdf),
                    decreases_to!(*a => af@),
                decreases af@.len() - i,
        {
            broadcast use lemma_deep_elems_len, lemma_deep_fields_len;

            proof {
                assert(decreases_to!(af@ => af@[i as int]));
                assert(decreases_to!(af@[i as int] => af@[i as int].1));
            }
            let k = af[i].0.clone();
            let entry: (String, Json) = match obj_find(bf, k.as_str()) {
                Some(j) => {
                    let merged = merge_body(&af[i].1, &bf[j].1);
                    proof {
                        assert(jv_find(bdf, adf[i as int].0) == Some(bf@[j as int].1.deep()));
                    }
                    (k, merged)
                },
                None => (k, af[i].1.duplicate()),
            };
            let ghost out0 = out@;
            out.push(entry);
            proof {
                lemma_deep_fields_push(out0, entry);
                lemma_merge_into_push(adf, bdf, i as int);
                assert(deep_fields(out@) =~= merge_into(adf.take(i as int + 1), bdf));
            }
            i += 1;
        }
            proof {
                assert(adf.take(af@.len() as int) =~= adf);
            }
            let ghost keep = |g: (Seq<char>, JsonV)| jv_find(adf, g.0) is None;
            let mut j: usize = 0;
            while j < bf.len()
                invariant
                    j <= bf@.len(),
                    adf == deep_fields(af@),
                    bdf == deep_fields(bf@),
                    keep == (|g: (Seq<char>, JsonV)| jv_find(adf, g.0) is None),
                    deep_fields(out@) =~= merge_into(adf, bdf) + bdf.take(j as int).filter(keep),
                decreases bf@.len() - j,
        {
            broadcast use lemma_deep_elems_len, lemma_deep_fields_len;

            proof {
                assert(bdf.take(j as int + 1).drop_last() =~= bdf.take(j as int));
                assert(bdf.take(j as int + 1).last() == bdf[j as int]);
                reveal_with_fuel(Seq::filter, 2);
            }
            let k = bf[j].0.clone();
            match obj_find(af, k.as_str()) {
                Some(_) => {
                    proof {
                        assert(!keep(bdf[j as int]));
                        assert(bdf.take(j as int + 1).filter(keep) =~= bdf.take(j as int).filter(
                            keep,
                        ));
                    }
                },
                None => {
                    let v = bf[j].1.duplicate();
                    let ghost out0 = out@;
                    out.push((k, v));
                    proof {
                        assert(keep(bdf[j as int]));
                        lemma_deep_fields_push(out0, (k, v));
                        assert(bdf.take(j as int + 1).filter(keep) =~= bdf.take(j as int).filter(
                            keep,
                        ).push(bdf[j as int]));
                        assert((k@, v.deep()) == bdf[j as int]);
                    }
                },
            }
            j += 1;
        }
            proof {
                assert(bdf.take(bf@.len() as int) =~= bdf);
            }
            Json::Obj(out)
        },
        (Json::Arr(ae), Json::Arr(be)) => {
            let mut out: Vec<Json> = Vec::new();
            let mut i: usize = 0;
            while i < ae.len()
                invariant
                    i <= ae@.len(),
                    deep_elems(out@) =~= deep_elems(ae@.take(i as int)),
                decreases ae@.len() - i,
        {
            broadcast use lemma_deep_elems_len;

            let d = ae[i].duplicate();
            let ghost out0 = out@;
            out.push(d);
            proof {
                lemma_deep_elems_push(out0, d);
                assert(ae@.take(i as int + 1) =~= ae@.take(i as int).push(ae@[i as int]));
                lemma_deep_elems_push(ae@.take(i as int), ae@[i as int]);
            }
            i += 1;
        }
            proof {
                assert(ae@.take(ae@.len() as int) =~= ae@);
            }
            let mut j: usize = 0;
            while j < be.len()
                invariant
                    j <= be@.len(),
                    deep_elems(out@) =~= deep_elems(ae@) + deep_elems(be@.take(j as int)),
                decreases be@.len() - j,
        {
            broadcast use lemma_deep_elems_len;

            let d = be[j].duplicate();
            let ghost out0 = out@;
            out.push(d);
            proof {
                lemma_deep_elems_push(out0, d);
                assert(be@.take(j as int + 1) =~= be@.take(j as int).push(be@[j as int]));
                lemma_deep_elems_push(be@.take(j as int), be@[j as int]);
            }
            j += 1;
        }
            proof {
                assert(be@.take(be@.len() as int) =~= be@);
            }
            Json::Arr(out)
        },
        _ => {
            let r = a.duplicate();
            proof {
                assert(spec_merge(a.deep(), b.deep()) == a.deep());
            }
            r
        },
    }
}

/// Keys are unique in every object of the tree.
pub open spec fn jv_wf(a: JsonV) -> bool
    decreases a,
{
    match a {
        JsonV::Obj(fs) => (forall|i: int, j: int|
            0 <= i < j < fs.len() ==> (#[trigger] fs[i]).0 != (#[trigger] fs[j]).0) && (forall|
            i: int,
        |
            0 <= i < fs.len() ==> jv_wf((#[trigger] fs[i]).1)),
        JsonV::Arr(es) => forall|i: int| 0 <= i < es.len() ==> jv_wf(#[trigger] es[i]),
        _ => true,
    }
}

/// No array stands anywhere in the tree.
pub open spec fn array_free(a: JsonV) -> bool
    decreases a,
{
    match a {
        JsonV::Obj(fs) => forall|i: int| 0 <= i < fs.len() ==> array_free((#[trigger] fs[i]).1),
        JsonV::Arr(_) => false,
        _ => true,
    }
}

/// A filter that rejects every element yields the empty sequence.
proof fn lemma_filter_none<A>(s: Seq<A>, pred: spec_fn(A) -> bool)
    requires
        forall|i: int| 0 <= i < s.len() ==> !pred(#[trigger] s[i]),
    ensures
        s.filter(pred) == Seq::<A>::empty(),
    decreases s.len(),
{
    reveal_with_fuel(Seq::filter, 2);
    if s.len() > 0 {
        assert(!pred(s.last()));
        lemma_filter_none(s.drop_last(), pred);
    }
}

/// Merging the fields of a key-unique, array-free object with themselves
/// changes nothing.
#[verifier::rlimit(50)]
proof fn lemma_merge_into_self(af: Seq<(Seq<char>, JsonV)>, bf: Seq<(Seq<char>, JsonV)>)
    requires
        forall|i: int| 0 <= i < af.len() ==> jv_find(bf, (#[trigger] af[i]).0) == Some(af[i].1),
        forall|i: int| 0 <= i < af.len() ==> jv_wf((#[trigger] af[i]).1),
        forall|i: int| 0 <= i < af.len() ==> array_free((#[trigger] af[i]).1),
    ensures
        merge_into(af, bf) == af,
    decreases af,
{
    if af.len() > 0 {
        assert(jv_find(bf, af[0].0) == Some(af[0].1));
        lemma_merge_self_identity(af[0].1);
        assert forall|i: int| 0 <= i < af.skip(1).len() implies jv_find(
            bf,
            (#[trigger] af.skip(1)[i]).0,
        ) == Some(af.skip(1)[i].1) && jv_wf(af.skip(1)[i].1) && array_free(af.skip(1)[i].1) by {
            assert(af.skip(1)[i] == af[i + 1]);
        }
        lemma_merge_into_self(af.skip(1), bf);
        assert(spec_merge(af[0].1, af[0].1) == af[0].1);
        assert((af[0].0, af[0].1) == af[0]);
        assert(merge_into(af, bf) == seq![af[0]] + merge_into(af.skip(1), bf));
        assert(seq![af[0]] + af.skip(1) =~= af);
    } else {
        assert(merge_into(af, bf) =~= af);
    }
}

/// Law: structural merge is idempotent on key-unique values without arrays;
/// `spec_merge(a, a) == a`. (Arrays are excluded because merging an array
/// with itself concatenates the two copies.)
pub proof fn lemma_merge_self_identity(a: JsonV)
    requires
        jv_wf(a),
        array_free(a),
    ensures
        spec_merge(a, a) == a,
    decreases a,
{
    match a {
        JsonV::Obj(fs) => {
            assert forall|i: int| 0 <= i < fs.len() implies jv_find(fs, (#[trigger] fs[i]).0)
                == Some(fs[i].1) by {
                lemma_jv_find_first(fs, fs[i].0);
            }
            lemma_merge_into_self(fs, fs);
            let pred = |g: (Seq<char>, JsonV)| jv_find(fs, g.0) is None;
            assert forall|i: int| 0 <= i < fs.len() implies !pred(#[trigger] fs[i]) by {
                assert(jv_find(fs, fs[i].0) == Some(fs[i].1));
            }
            lemma_filter_none(fs, pred);
            assert(merge_into(fs, fs) + only_new(fs, fs) =~= fs);
        },
        _ => {},
    }
}

/// One step of path addressing: field lookup. Leaves the value unchanged
/// when it is not an object or the field is absent.
pub open spec fn jv_get_field(v: JsonV, name: Seq<char>) -> JsonV {
    match v {
        JsonV::Obj(fs) => match jv_find(fs, name) {
            Some(x) => x,
            None => v,
        },
        _ => v,
    }
}

/// One step of path addressing: array indexing. Leaves the value unchanged
/// when it is not an array or the index is out of range.
pub open spec fn jv_index(v: JsonV, i: int) -> JsonV {
    match v {
        JsonV::Arr(es) => if 0 <= i < es.len() {
            es[i]
        } else {
            v
        },
        _ => v,
    }
}

/// Apply a segment's indices from left to right.
pub open spec fn jv_apply_indices(v: JsonV, idxs: Seq<int>) -> JsonV
    decreases idxs.len(),
{
    if idxs.len() == 0 {
        v
    } else {
        jv_index(jv_apply_indices(v, idxs.drop_last()), idxs.last())
    }
}

/// Apply one path segment: the field name, then its indices.
pub open spec fn jv_apply_seg(v: JsonV, seg: (Seq<char>, Seq<int>)) -> JsonV {
    jv_apply_indices(jv_get_field(v, seg.0), seg.1)
}

/// Apply a parsed path, segment by segment.
pub open spec fn jv_get_path(v: JsonV, segs: Seq<(Seq<char>, Seq<int>)>) -> JsonV
    decreases segs.len(),
{
    if segs.len() == 0 {
        v
    } else {
        jv_apply_seg(jv_get_path(v, segs.drop_last()), segs.last())
    }
}

/// The index of the last `[` in `s`, if any.
pub open spec fn rfind_open(s: Seq<char>) -> Option<int>
    decreases s.len(),
{
    if s.len() == 0 {
        None
    } else if s.last() == '[' {
        Some(s.len() - 1)
    } else {
        rfind_open(s.drop_last())
    }
}

proof fn lemma_rfind_open(s: Seq<char>)
    ensures
        match rfind_open(s) {
            Some(r) => 0 <= r < s.len() && s[r] == '[' && forall|j: int|
                r < j < s.len() ==> s[j] != '[',
            None => forall|j: int| 0 <= j < s.len() ==> s[j] != '[',
        },
    decreases s.len(),
{
    if s.len() > 0 && s.last() != '[' {
        lemma_rfind_open(s.drop_last());
        match rfind_open(s.drop_last()) {
            Some(r) => {
                assert(s.drop_last()[r] == s[r]);
                assert forall|j: int| r < j < s.len() implies s[j] != '[' by {
                    if j < s.len() - 1 {
                        assert(s.drop_last()[j] == s[j]);
                    }
                }
            },
            None => {
                assert forall|j: int| 0 <= j < s.len() implies s[j] != '[' by {
                    if j < s.len() - 1 {
                        assert(s.drop_last()[j] == s[j]);
                    }
                }
            },
        }
    }
}

/// A parsed path segment: a dot-part of the path with its bracket groups
/// stripped into indices. `a[1][2]` has name `a` and indices `1, 2`.
pub open spec fn parse_seg_spec(s: Seq<char>) -> Option<(Seq<char>, Seq<int>)>
    decreases s.len(),
{
    if s.len() == 0 || s.last() != ']' {
        Some((s, Seq::<int>::empty()))
    } else {
        let body = s.drop_last();
        match rfind_open(body) {
            None => None,
            Some(r) => {
                if !(0 <= r < body.len()) {
                    None
                } else {
                    let digits = body.skip(r + 1);
                    if digits.len() > 0 && all_digits(digits) && digits_val(digits)
                        <= usize::MAX as nat {
                        match parse_seg_spec(body.take(r)) {
                            None => None,
                            Some((nm, idxs)) => Some((nm, idxs.push(digits_val(digits) as int))),
                        }
                    } else {
                        None
                    }
                }
            },
        }
    }
}

/// A path segment: a field name and the indices of its bracket groups.
pub struct PathSeg {
    pub name: String,
    pub indices: Vec<usize>,
}

impl PathSeg {
    /// The mathematical view of the segment.
    pub open spec fn deep(self) -> (Seq<char>, Seq<int>) {
        (self.name@, self.indices@.map_values(|u: usize| u as int))
    }
}

/// Parse one dot-part of a path into its name and bracket indices. Returns
/// `None` exactly when the bracket syntax is malformed: a trailing `]` with
/// no matching `[`, or brackets that do not hold a decimal index.
pub fn parse_seg(part: &str) -> (r: Option<PathSeg>)
    ensures
        match r {
            Some(seg) => parse_seg_spec(part@) == Some(seg.deep()),
            None => parse_seg_spec(part@) is None,
        },
    decreases part@.len(),
{
    broadcast use vstd::string::group_string_axioms;

    let n = part.unicode_len();
    if n == 0 || part.get_char(n - 1) != ']' {
        let r = PathSeg { name: part.to_owned(), indices: Vec::new() };
        proof {
            assert(r.indices@.map_values(|u: usize| u as int) =~= Seq::<int>::empty());
        }
        return Some(r);
    }
    let ghost body = part@.drop_last();
    proof {
        lemma_rfind_open(body);
    }
    // Scan the body for its last `[`.
    let mut k: usize = 0;
    let mut opened: Option<usize> = None;
    while k < n - 1
        invariant
            n == part@.len(),
            n >= 1,
            body == part@.drop_last(),
            k <= n - 1,
            match opened {
                Some(r) => r < k && body[r as int] == '[' && forall|j: int|
                    r < j < k ==> body[j] != '[',
                None => forall|j: int| 0 <= j < k ==> body[j] != '[',
            },
        decreases n - 1 - k,
    {
        proof {
            assert(body[k as int] == part@[k as int]);
        }
        if part.get_char(k) == '[' {
            opened = Some(k);
        }
        k += 1;
    }
    let r_open = match opened {
        Some(r) => r,
        None => {
            proof {
                assert(forall|j: int| 0 <= j < body.len() ==> body[j] != '[');
                if rfind_open(body) is Some {
                    let rr = rfind_open(body).unwrap();
                    assert(body[rr] == '[');
                }
            }
            return None;
        },
    };
    proof {
        match rfind_open(body) {
            Some(rr) => {
                if rr < r_open {
                    assert(body[r_open as int] == '[');
                } else if rr > r_open {
                    assert(body[rr] == '[');
                }
            },
            None => {
                assert(body[r_open as int] == '[');
            },
        }
        assert(rfind_open(body) == Some(r_open as int));
    }
    let digits = part.substring_char(r_open + 1, n - 1);
    proof {
        assert(digits@ =~= body.skip(r_open as int + 1));
    }
    let idx: usize = match parse_u64(digits) {
        Some(v) => {
            if v <= usize::MAX as u64 {
                v as usize
            } else {
                return None;
            }
        },
        None => {
            return None;
        },
    };
    let rest = part.substring_char(0, r_open);
    proof {
        assert(rest@ =~= body.take(r_open as int));
        assert(rest@.len() < part@.len());
    }
    match parse_seg(rest) {
        Some(mut seg) => {
            let ghost idxs0 = seg.indices@;
            seg.indices.push(idx);
            proof {
                assert(seg.indices@.map_values(|u: usize| u as int) =~= idxs0.map_values(
                    |u: usize| u as int,
                ).push(idx as int));
            }
            Some(seg)
        },
        None => None,
    }
}

/// A whole path parsed into segments, if every dot-part is well-formed.
pub open spec fn parse_path_spec(s: Seq<char>) -> Option<Seq<(Seq<char>, Seq<int>)>> {
    let parts = split_seq(s, '.');
    if forall|i: int| 0 <= i < parts.len() ==> parse_seg_spec(#[trigger] parts[i]) is Some {
        Some(Seq::new(parts.len(), |i: int| parse_seg_spec(parts[i]).unwrap()))
    } else {
        None
    }
}

/// Parse a dotted, bracket-indexed path.
pub fn parse_path(path: &str) -> (r: Option<Vec<PathSeg>>)
    ensures
        match r {
            Some(segs) => parse_path_spec(path@) == Some(
                segs@.map_values(|g: PathSeg| g.deep()),
            ),
            None => parse_path_spec(path@) is None,
        },
{
    let parts = split_char(path, '.');
    let ghost pseq = split_seq(path@, '.');
    let mut segs: Vec<PathSeg> = Vec::new();
    let mut i: usize = 0;
    while i < parts.len()
        invariant
            i <= parts@.len(),
            pseq == split_seq(path@, '.'),
            parts@.map_values(|t: String| t@) == pseq,
            segs@.len() == i,
            forall|j: int|
                0 <= j < i ==> parse_seg_spec(#[trigger] pseq[j]) == Some(segs@[j].deep()),
        decreases parts@.len() - i,
    {
        proof {
            assert(parts@[i as int]@ == pseq[i as int]);
        }
        match parse_seg(parts[i].as_str()) {
            Some(seg) => {
                segs.push(seg);
            },
            None => {
                proof {
                    assert(parse_seg_spec(pseq[i as int]) is None);
                }
                return None;
            },
        }
        i += 1;
    }
    proof {
        assert forall|j: int| 0 <= j < pseq.len() implies parse_seg_spec(#[trigger] pseq[j])
            is Some by {}
        let m = segs@.map_values(|g: PathSeg| g.deep());
        assert(parse_path_spec(path@) == Some(Seq::new(pseq.len(), |i: int|
            parse_seg_spec(pseq[i]).unwrap())));
        assert(m =~= Seq::new(pseq.len(), |i: int| parse_seg_spec(pseq[i]).unwrap()));
    }
    Some(segs)
}

/// Dotted/indexed path lookup (`get` semantics): walk the parsed path; an
/// absent field, a non-object, a non-array or an out-of-range index leaves
/// the current value unchanged, so an unresolved path silently returns the
/// root. Returns `None` exactly when the path text itself is malformed.
pub fn get_value_in_object(object: &Json, path_parts: &str) -> (r: Option<Json>)
    ensures
        match r {
            Some(v) => parse_path_spec(path_parts@) is Some && v.deep() == jv_get_path(
                object.deep(),
                parse_path_spec(path_parts@).unwrap(),
            ),
            None => parse_path_spec(path_parts@) is None,
        },
{
    let segs = match parse_path(path_parts) {
        Some(segs) => segs,
        None => {
            return None;
        },
    };
    let ghost model = segs@.map_values(|g: PathSeg| g.deep());
    let mut cur: Json = object.duplicate();
    let mut i: usize = 0;
    while i < segs.len()
        invariant
            i <= segs@.len(),
            model == segs@.map_values(|g: PathSeg| g.deep()),
            cur.deep() == jv_get_path(object.deep(), model.take(i as int)),
        decreases segs@.len() - i,
    {
        proof {
            assert(model.take(i as int + 1).drop_last() =~= model.take(i as int));
            assert(model.take(i as int + 1).last() == model[i as int]);
            assert(model[i as int] == segs@[i as int].deep());
        }
        let ghost before = cur.deep();
        // Field lookup.
        let next: Option<Json> = match &cur {
            Json::Obj(fields) => match obj_find(fields, segs[i].name.as_str()) {
                Some(j) => Some(fields[j].1.duplicate()),
                None => None,
            },
            _ => None,
        };
        if let Some(nv) = next {
            cur = nv;
        }
        proof {
            assert(cur.deep() == jv_get_field(before, model[i as int].0));
        }
        // Indices, left to right.
        let ghost fielded = cur.deep();
        let ghost idxs = model[i as int].1;
        let mut t: usize = 0;
        while t < segs[i].indices.len()
            invariant
                i < segs@.len(),
                t <= segs@[i as int].indices@.len(),
                idxs == segs@[i as int].indices@.map_values(|u: usize| u as int),
                cur.deep() == jv_apply_indices(fielded, idxs.take(t as int)),
            decreases segs@[i as int].indices@.len() - t,
        {
            proof {
                assert(idxs.take(t as int + 1).drop_last() =~= idxs.take(t as int));
                assert(idxs.take(t as int + 1).last() == idxs[t as int]);
                assert(idxs[t as int] == segs@[i as int].indices@[t as int] as int);
            }
            let idx = segs[i].indices[t];
            let ghost prev = cur.deep();
            let next: Option<Json> = match &cur {
                Json::Arr(elems) => {
                    proof {
                        broadcast use lemma_deep_elems_len;

                        assert(prev == JsonV::Arr(deep_elems(elems@)));
                        assert(deep_elems(elems@).len() == elems@.len());
                    }
                    if idx < elems.len() {
                        let d = elems[idx].duplicate();
                        proof {
                            assert(d.deep() == deep_elems(elems@)[idx as int]);
                            assert(jv_index(prev, idx as int) == deep_elems(elems@)[idx as int]);
                        }
                        Some(d)
                    } else {
                        proof {
                            assert(jv_index(prev, idx as int) == prev);
                        }
                        None
                    }
                },
                _ => {
                    proof {
                        assert(jv_index(prev, idx as int) == prev);
                    }
                    None
                },
            };
            if let Some(nv) = next {
                cur = nv;
            }
            proof {
                assert(cur.deep() == jv_index(prev, idxs[t as int]));
            }
            t += 1;
        }
        proof {
            assert(idxs.take(idxs.len() as int) =~= idxs);
            assert(cur.deep() == jv_apply_seg(before, model[i as int]));
        }
        i += 1;
    }
    proof {
        assert(model.take(model.len() as int) =~= model);
    }
    Some(cur)
}

/// Extending the merged prefix of `af` by one field.
proof fn lemma_merge_into_push(af: Seq<(Seq<char>, JsonV)>, bf: Seq<(Seq<char>, JsonV)>, i: int)
    requires
        0 <= i < af.len(),
    ensures
        merge_into(af.take(i + 1), bf) =~= merge_into(af.take(i), bf).push(
            match jv_find(bf, af[i].0) {
                Some(v) => (af[i].0, spec_merge(af[i].1, v)),
                None => af[i],
            },
        ),
    decreases i,
{
    if i == 0 {
        assert(af.take(1).skip(1) =~= Seq::<(Seq<char>, JsonV)>::empty());
        assert(af.take(1)[0] == af[0]);
        assert(merge_into(af.take(0), bf) =~= Seq::<(Seq<char>, JsonV)>::empty());
        assert(merge_into(af.take(1).skip(1), bf) =~= Seq::<(Seq<char>, JsonV)>::empty());
    } else {
        assert(af.take(i + 1).skip(1) =~= af.skip(1).take(i));
        assert(af.take(i).skip(1) =~= af.skip(1).take(i - 1));
        assert(af.take(i + 1)[0] == af[0]);
        assert(af.take(i)[0] == af[0]);
        lemma_merge_into_push(af.skip(1), bf, i - 1);
        assert(af.skip(1)[i - 1] == af[i]);
        assert(af.take(i + 1).len() > 0);
        assert(af.take(i).len() > 0);
    }
}

} // verus!
