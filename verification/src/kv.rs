//! An ordered string-keyed map used for header maps and the per-request
//! store. Entries keep their insertion order (the wire codec walks them in
//! that order); keys are unique.

use vstd::prelude::*;

use crate::strutil::str_eq;

verus! {

/// Lookup in an entry sequence: the value of the first entry whose key is
/// `k`, if any.
pub open spec fn seq_find(es: Seq<(Seq<char>, Seq<char>)>, k: Seq<char>) -> Option<Seq<char>>
    decreases es.len(),
{
    if es.len() == 0 {
        None
    } else if es[0].0 == k {
        Some(es[0].1)
    } else {
        seq_find(es.skip(1), k)
    }
}

/// Upsert in an entry sequence: replace the value of the first entry whose
/// key is `k`, or append a new entry at the end.
pub open spec fn seq_upsert(
    es: Seq<(Seq<char>, Seq<char>)>,
    k: Seq<char>,
    v: Seq<char>,
) -> Seq<(Seq<char>, Seq<char>)>
    decreases es.len(),
{
    if es.len() == 0 {
        seq![(k, v)]
    } else if es[0].0 == k {
        es.update(0, (k, v))
    } else {
        seq![es[0]] + seq_upsert(es.skip(1), k, v)
    }
}

/// A string-keyed map with unique keys and stable entry order.
pub struct StrMap {
    pub pairs: Vec<(String, String)>,
}

impl StrMap {
    /// The entries as a sequence of key/value character sequences.
    pub open spec fn entries(self) -> Seq<(Seq<char>, Seq<char>)> {
        self.pairs@.map_values(|p: (String, String)| (p.0@, p.1@))
    }

    /// The value bound to `k`, if any.
    pub open spec fn spec_get(self, k: Seq<char>) -> Option<Seq<char>> {
        seq_find(self.entries(), k)
    }

    /// Keys are unique.
    pub open spec fn wf(self) -> bool {
        forall|i: int, j: int|
            0 <= i < j < self.entries().len() ==> (#[trigger] self.entries()[i]).0 != (
            #[trigger] self.entries()[j]).0
    }

    pub fn new() -> (r: StrMap)
        ensures
            r.entries() == Seq::<(Seq<char>, Seq<char>)>::empty(),
            r.wf(),
    {
        let r = StrMap { pairs: Vec::new() };
        proof {
            assert(r.entries() =~= Seq::<(Seq<char>, Seq<char>)>::empty());
        }
        r
    }

    pub fn len(&self) -> (r: usize)
        ensures
            r == self.entries().len(),
    {
        self.pairs.len()
    }

    pub fn key_at(&self, i: usize) -> (r: &String)
        requires
            i < self.entries().len(),
        ensures
            r@ == self.entries()[i as int].0,
    {
        &self.pairs[i].0
    }

    pub fn val_at(&self, i: usize) -> (r: &String)
        requires
            i < self.entries().len(),
        ensures
            r@ == self.entries()[i as int].1,
    {
        &self.pairs[i].1
    }

    /// The index of the first entry with key `k`, if any.
    fn find_index(&self, k: &str) -> (r: Option<usize>)
        ensures
            match r {
                Some(i) => i < self.entries().len() && self.entries()[i as int].0 == k@ && forall|
                    j: int,
                |
                    0 <= j < i ==> (#[trigger] self.entries()[j]).0 != k@,
                None => forall|j: int|
                    0 <= j < self.entries().len() ==> (#[trigger] self.entries()[j]).0 != k@,
            },
    {
        let mut i: usize = 0;
        while i < self.pairs.len()
            invariant
                i <= self.entries().len(),
                self.entries().len() == self.pairs@.len(),
                forall|j: int| 0 <= j < i ==> (#[trigger] self.entries()[j]).0 != k@,
            decreases self.pairs.len() - i,
        {
            if str_eq(self.pairs[i].0.as_str(), k) {
                return Some(i);
            }
            i += 1;
        }
        None
    }

    pub fn contains_key(&self, k: &str) -> (r: bool)
        ensures
            r == (self.spec_get(k@) is Some),
    {
        proof {
            lemma_seq_find_first(self.entries(), k@);
        }
        match self.find_index(k) {
            Some(_) => true,
            None => false,
        }
    }

    pub fn get(&self, k: &str) -> (r: Option<&String>)
        ensures
            match r {
                Some(v) => self.spec_get(k@) == Some(v@),
                None => self.spec_get(k@) is None,
            },
    {
        proof {
            lemma_seq_find_first(self.entries(), k@);
        }
        match self.find_index(k) {
            Some(i) => Some(&self.pairs[i].1),
            None => None,
        }
    }

    /// Bind `k` to `v`: replace the first entry with key `k`, or append.
    pub fn insert(&mut self, k: String, v: String)
        requires
            old(self).wf(),
        ensures
            final(self).entries() == seq_upsert(old(self).entries(), k@, v@),
            final(self).spec_get(k@) == Some(v@),
            forall|k2: Seq<char>|
                k2 != k@ ==> final(self).spec_get(k2) == old(self).spec_get(k2),
            final(self).wf(),
    {
        proof {
            lemma_seq_find_first(self.entries(), k@);
        }
        let ghost es = self.entries();
        match self.find_index(k.as_str()) {
            Some(i) => {
                self.pairs.set(i, (k, v));
                proof {
                    lemma_seq_upsert_at(es, k@, v@, i as int);
                    assert(final(self).entries() =~= es.update(i as int, (k@, v@)));
                    lemma_upsert_props(es, k@, v@);
                }
            },
            None => {
                self.pairs.push((k, v));
                proof {
                    lemma_seq_upsert_absent(es, k@, v@);
                    assert(final(self).entries() =~= es.push((k@, v@)));
                    lemma_upsert_props(es, k@, v@);
                }
            },
        }
    }

    /// A copy with the same entries.
    pub fn duplicate(&self) -> (r: StrMap)
        ensures
            r.entries() == self.entries(),
    {
        let mut pairs: Vec<(String, String)> = Vec::new();
        let mut i: usize = 0;
        while i < self.pairs.len()
            invariant
                i <= self.pairs@.len(),
                pairs@.len() == i,
                pairs@.map_values(|q: (String, String)| (q.0@, q.1@)) =~= self.entries().take(
                    i as int,
                ),
            decreases self.pairs@.len() - i,
        {
            let p = (self.pairs[i].0.clone(), self.pairs[i].1.clone());
            let ghost p0 = p;
            let ghost before = pairs@;
            pairs.push(p);
            proof {
                assert(p0.0@ == self.pairs@[i as int].0@ && p0.1@ == self.pairs@[i as int].1@);
                assert forall|j: int| 0 <= j <= i implies pairs@.map_values(
                    |q: (String, String)| (q.0@, q.1@),
                )[j] == self.entries()[j] by {
                    if j < i {
                        assert(pairs@[j] == before[j]);
                        assert(before.map_values(|q: (String, String)| (q.0@, q.1@))[j]
                            == self.entries().take(i as int)[j]);
                    } else {
                        assert(pairs@[j] == p0);
                    }
                }
                assert(pairs@.map_values(|q: (String, String)| (q.0@, q.1@)) =~= self.entries().take(
                    i as int + 1,
                ));
            }
            i += 1;
        }
        let r = StrMap { pairs };
        proof {
            assert(self.entries().take(self.pairs@.len() as int) =~= self.entries());
            assert(r.entries() =~= self.entries());
        }
        r
    }

    /// The entries whose keys occur in `allowed`, in their original order.
    pub fn retain_keys(&self, allowed: &Vec<String>) -> (r: StrMap)
        ensures
            r.entries() == self.entries().filter(
                |p: (Seq<char>, Seq<char>)| allowed@.map_values(|a: String| a@).contains(p.0),
            ),
            self.wf() ==> r.wf(),
    {
        let ghost keep = |p: (Seq<char>, Seq<char>)| allowed@.map_values(|a: String| a@).contains(
            p.0,
        );
        let mut r: Vec<(String, String)> = Vec::new();
        let mut i: usize = 0;
        while i < self.pairs.len()
            invariant
                i <= self.pairs@.len(),
                self.entries().len() == self.pairs@.len(),
                keep == (|p: (Seq<char>, Seq<char>)|
                    allowed@.map_values(|a: String| a@).contains(p.0)),
                r@.map_values(|p: (String, String)| (p.0@, p.1@)) == self.entries().take(
                    i as int,
                ).filter(keep),
            decreases self.pairs.len() - i,
        {
            proof {
                assert(self.entries().take(i as int + 1).drop_last() =~= self.entries().take(
                    i as int,
                ));
                reveal_with_fuel(Seq::filter, 2);
            }
            let mut found = false;
            let mut j: usize = 0;
            while j < allowed.len()
                invariant
                    i < self.pairs@.len(),
                    self.entries().len() == self.pairs@.len(),
                    j <= allowed@.len(),
                    found <==> exists|t: int|
                        0 <= t < j && (#[trigger] allowed@[t])@ == self.entries()[i as int].0,
                decreases allowed.len() - j,
            {
                if str_eq(allowed[j].as_str(), self.pairs[i].0.as_str()) {
                    found = true;
                }
                j += 1;
            }
            if found {
                let p = (self.pairs[i].0.clone(), self.pairs[i].1.clone());
                r.push(p);
            }
            proof {
                assert forall|t: int| 0 <= t < allowed@.len() implies allowed@.map_values(
                    |a: String| a@,
                )[t] == (#[trigger] allowed@[t])@ by {}
                if found {
                    let t = choose|t: int|
                        0 <= t < allowed@.len() && (#[trigger] allowed@[t])@ == self.entries()[
                        i as int].0;
                    assert(allowed@.map_values(|a: String| a@)[t] == self.entries()[i as int].0);
                    assert(keep(self.entries()[i as int]));
                } else {
                    assert(!allowed@.map_values(|a: String| a@).contains(
                        self.entries()[i as int].0,
                    ));
                }
            }
            i += 1;
        }
        proof {
            assert(self.entries().take(self.pairs@.len() as int) =~= self.entries());
        }
        let out = StrMap { pairs: r };
        proof {
            if self.wf() {
                lemma_filter_wf(self.entries(), keep);
            }
        }
        out
    }
}

/// `seq_find` agrees with the first index whose key matches.
#[verifier::rlimit(50)]
proof fn lemma_seq_find_first(es: Seq<(Seq<char>, Seq<char>)>, k: Seq<char>)
    ensures
        (seq_find(es, k) is Some) <==> exists|i: int| 0 <= i < es.len() && (#[trigger] es[i]).0 == k,
        forall|i: int|
            (0 <= i < es.len() && (#[trigger] es[i]).0 == k && (forall|j: int|
                0 <= j < i ==> (#[trigger] es[j]).0 != k)) ==> seq_find(es, k) == Some(es[i].1),
    decreases es.len(),
{
    if es.len() > 0 {
        lemma_seq_find_first(es.skip(1), k);
        assert forall|i: int|
            (0 <= i < es.len() && (#[trigger] es[i]).0 == k && (forall|j: int|
                0 <= j < i ==> (#[trigger] es[j]).0 != k)) implies seq_find(es, k) == Some(
            es[i].1,
        ) by {
            if i > 0 {
                assert(es[0].0 != k);
                assert(es.skip(1)[i - 1].0 == k);
                assert(forall|j: int| 0 <= j < i - 1 ==> (#[trigger] es.skip(1)[j]).0 != k);
            }
        }
        if seq_find(es, k) is Some {
            if es[0].0 == k {
            } else {
                let i = choose|i: int| 0 <= i < es.skip(1).len() && (#[trigger] es.skip(1)[i]).0
                    == k;
                assert(es[i + 1].0 == k);
            }
        }
        if exists|i: int| 0 <= i < es.len() && (#[trigger] es[i]).0 == k {
            let i = choose|i: int| 0 <= i < es.len() && (#[trigger] es[i]).0 == k;
            if i > 0 {
                assert(es.skip(1)[i - 1].0 == k);
            }
        }
    }
}

/// Properties of `seq_upsert`: the key is bound to the new value, all other
/// keys keep their binding, and key uniqueness is preserved.
proof fn lemma_upsert_props(es: Seq<(Seq<char>, Seq<char>)>, k: Seq<char>, v: Seq<char>)
    ensures
        seq_find(seq_upsert(es, k, v), k) == Some(v),
        forall|k2: Seq<char>| k2 != k ==> seq_find(seq_upsert(es, k, v), k2) == seq_find(es, k2),
        (forall|i: int, j: int| 0 <= i < j < es.len() ==> (#[trigger] es[i]).0 != (#[trigger] es[j]).0)
            ==> (forall|i: int, j: int|
            0 <= i < j < seq_upsert(es, k, v).len() ==> (#[trigger] seq_upsert(es, k, v)[i]).0 != (
            #[trigger] seq_upsert(es, k, v)[j]).0),
    decreases es.len(),
{
    if es.len() == 0 {
        assert(seq_upsert(es, k, v) =~= seq![(k, v)]);
        assert(seq_find(seq_upsert(es, k, v), k) == Some(v));
        assert forall|k2: Seq<char>| k2 != k implies seq_find(seq_upsert(es, k, v), k2) == seq_find(
            es,
            k2,
        ) by {
            assert(seq_upsert(es, k, v).skip(1) =~= es);
        }
    } else if es[0].0 == k {
        let up = es.update(0, (k, v));
        assert(up[0].0 == k);
        assert forall|k2: Seq<char>| k2 != k implies seq_find(up, k2) == seq_find(es, k2) by {
            assert(up.skip(1) =~= es.skip(1));
        }
    } else {
        lemma_upsert_props(es.skip(1), k, v);
        let up = seq_upsert(es, k, v);
        assert(up =~= seq![es[0]] + seq_upsert(es.skip(1), k, v));
        assert(up[0] == es[0]);
        assert(up.skip(1) =~= seq_upsert(es.skip(1), k, v));
        assert forall|k2: Seq<char>| k2 != k implies seq_find(up, k2) == seq_find(es, k2) by {
            if up[0].0 != k2 {
                assert(seq_find(up, k2) == seq_find(up.skip(1), k2));
                assert(seq_find(es, k2) == seq_find(es.skip(1), k2));
            }
        }
        if (forall|i: int, j: int|
            0 <= i < j < es.len() ==> (#[trigger] es[i]).0 != (#[trigger] es[j]).0) {
            assert(forall|i: int, j: int|
                0 <= i < j < es.skip(1).len() ==> (#[trigger] es.skip(1)[i]).0 != (
                #[trigger] es.skip(1)[j]).0);
            lemma_upsert_keys(es.skip(1), k, v);
            assert forall|i: int, j: int|
                0 <= i < j < up.len() implies (#[trigger] up[i]).0 != (#[trigger] up[j]).0 by {
                if i == 0 {
                    let tail = seq_upsert(es.skip(1), k, v);
                    assert(up[j] == tail[j - 1]);
                    if tail[j - 1].0 == k {
                    } else {
                        assert(seq_find(es.skip(1), tail[j - 1].0) == seq_find(
                            tail,
                            tail[j - 1].0,
                        ));
                        assert(seq_find(tail, tail[j - 1].0) is Some) by {
                            lemma_seq_find_first(tail, tail[j - 1].0);
                        }
                        lemma_seq_find_first(es.skip(1), tail[j - 1].0);
                        let t = choose|t: int|
                            0 <= t < es.skip(1).len() && (#[trigger] es.skip(1)[t]).0 == tail[j
                                - 1].0;
                        assert(es[t + 1].0 == tail[j - 1].0);
                        assert(es[0].0 != es[t + 1].0);
                    }
                } else {
                    assert(up[i] == seq_upsert(es.skip(1), k, v)[i - 1]);
                    assert(up[j] == seq_upsert(es.skip(1), k, v)[j - 1]);
                }
            }
        }
    }
}

/// Every key of `seq_upsert(es, k, v)` is `k` or a key of `es`.
proof fn lemma_upsert_keys(es: Seq<(Seq<char>, Seq<char>)>, k: Seq<char>, v: Seq<char>)
    ensures
        forall|i: int|
            0 <= i < seq_upsert(es, k, v).len() ==> (#[trigger] seq_upsert(es, k, v)[i]).0 == k
                || seq_find(es, seq_upsert(es, k, v)[i].0) is Some,
    decreases es.len(),
{
    if es.len() == 0 {
    } else if es[0].0 == k {
        let up = es.update(0, (k, v));
        assert forall|i: int|
            0 <= i < up.len() implies (#[trigger] up[i]).0 == k || seq_find(es, up[i].0) is Some by {
            if i > 0 {
                lemma_seq_find_first(es, up[i].0);
                assert(es[i].0 == up[i].0);
            }
        }
    } else {
        lemma_upsert_keys(es.skip(1), k, v);
        let up = seq_upsert(es, k, v);
        assert(up =~= seq![es[0]] + seq_upsert(es.skip(1), k, v));
        assert forall|i: int|
            0 <= i < up.len() implies (#[trigger] up[i]).0 == k || seq_find(es, up[i].0) is Some by {
            if i == 0 {
                lemma_seq_find_first(es, es[0].0);
            } else {
                let tail = seq_upsert(es.skip(1), k, v);
                assert(up[i] == tail[i - 1]);
                if tail[i - 1].0 != k {
                    lemma_seq_find_first(es.skip(1), tail[i - 1].0);
                    let t = choose|t: int|
                        0 <= t < es.skip(1).len() && (#[trigger] es.skip(1)[t]).0 == tail[i - 1].0;
                    assert(es[t + 1].0 == tail[i - 1].0);
                    lemma_seq_find_first(es, tail[i - 1].0);
                }
            }
        }
    }
}

/// Upsert of a present key is a pointwise update at its first index.
proof fn lemma_seq_upsert_at(es: Seq<(Seq<char>, Seq<char>)>, k: Seq<char>, v: Seq<char>, i: int)
    requires
        0 <= i < es.len(),
        es[i].0 == k,
        forall|j: int| 0 <= j < i ==> (#[trigger] es[j]).0 != k,
    ensures
        seq_upsert(es, k, v) == es.update(i, (k, v)),
    decreases es.len(),
{
    if i == 0 {
        assert(es.update(0, (k, v)) =~= es.update(0, (k, v)));
    } else {
        assert(es.skip(1)[i - 1].0 == k);
        assert(forall|j: int| 0 <= j < i - 1 ==> (#[trigger] es.skip(1)[j]).0 != k);
        lemma_seq_upsert_at(es.skip(1), k, v, i - 1);
        assert(seq_upsert(es, k, v) =~= seq![es[0]] + es.skip(1).update(i - 1, (k, v)));
        assert(seq![es[0]] + es.skip(1).update(i - 1, (k, v)) =~= es.update(i, (k, v)));
    }
}

/// Upsert of an absent key appends the entry.
proof fn lemma_seq_upsert_absent(es: Seq<(Seq<char>, Seq<char>)>, k: Seq<char>, v: Seq<char>)
    requires
        forall|j: int| 0 <= j < es.len() ==> (#[trigger] es[j]).0 != k,
    ensures
        seq_upsert(es, k, v) == es.push((k, v)),
    decreases es.len(),
{
    if es.len() == 0 {
        assert(seq_upsert(es, k, v) =~= es.push((k, v)));
    } else {
        assert(forall|j: int| 0 <= j < es.skip(1).len() ==> (#[trigger] es.skip(1)[j]).0 != k);
        lemma_seq_upsert_absent(es.skip(1), k, v);
        assert(seq_upsert(es, k, v) =~= seq![es[0]] + es.skip(1).push((k, v)));
        assert(seq![es[0]] + es.skip(1).push((k, v)) =~= es.push((k, v)));
    }
}

/// Filtering keeps key uniqueness.
proof fn lemma_filter_wf(
    es: Seq<(Seq<char>, Seq<char>)>,
    keep: spec_fn((Seq<char>, Seq<char>)) -> bool,
)
    requires
        forall|i: int, j: int| 0 <= i < j < es.len() ==> (#[trigger] es[i]).0 != (#[trigger] es[j]).0,
    ensures
        forall|i: int, j: int|
            0 <= i < j < es.filter(keep).len() ==> (#[trigger] es.filter(keep)[i]).0 != (
            #[trigger] es.filter(keep)[j]).0,
{
    let f = es.filter(keep);
    assert forall|i: int, j: int| 0 <= i < j < f.len() implies (#[trigger] f[i]).0 != (
    #[trigger] f[j]).0 by {
        lemma_filter_distinct(es, keep, i, j);
    }
}

proof fn lemma_filter_distinct(
    es: Seq<(Seq<char>, Seq<char>)>,
    keep: spec_fn((Seq<char>, Seq<char>)) -> bool,
    i: int,
    j: int,
)
    requires
        forall|a: int, b: int| 0 <= a < b < es.len() ==> (#[trigger] es[a]).0 != (#[trigger] es[b]).0,
        0 <= i < j < es.filter(keep).len(),
    ensures
        es.filter(keep)[i].0 != es.filter(keep)[j].0,
    decreases es.len(),
{
    broadcast use vstd::seq_lib::group_filter_ensures;

    if es.len() > 0 {
        reveal_with_fuel(Seq::filter, 2);
        assert(es.drop_last().filter(keep).len() <= es.drop_last().len());
        if keep(es.last()) && j == es.filter(keep).len() - 1 {
            let f = es.filter(keep);
            assert(f[j] == es.last());
            assert(f.drop_last() =~= es.drop_last().filter(keep));
            assert(es.drop_last().filter(keep)[i] == f[i]);
            lemma_filter_member(es.drop_last(), keep, i);
            let t = choose|t: int|
                0 <= t < es.drop_last().len() && #[trigger] es.drop_last()[t] == es.drop_last().filter(
                    keep,
                )[i];
            assert(es[t] == f[i]);
            assert(es[t].0 != es[es.len() - 1].0);
        } else {
            assert(es.filter(keep)[i] == es.drop_last().filter(keep)[i] && es.filter(keep)[j]
                == es.drop_last().filter(keep)[j]) by {
                if keep(es.last()) {
                    assert(es.filter(keep).drop_last() =~= es.drop_last().filter(keep));
                } else {
                    assert(es.filter(keep) =~= es.drop_last().filter(keep));
                }
            }
            lemma_filter_distinct(es.drop_last(), keep, i, j);
        }
    }
}

/// Every filtered element is an element of the original sequence.
proof fn lemma_filter_member(
    es: Seq<(Seq<char>, Seq<char>)>,
    keep: spec_fn((Seq<char>, Seq<char>)) -> bool,
    i: int,
)
    requires
        0 <= i < es.filter(keep).len(),
    ensures
        exists|t: int| 0 <= t < es.len() && #[trigger] es[t] == es.filter(keep)[i],
    decreases es.len(),
{
    broadcast use vstd::seq_lib::group_filter_ensures;

    if es.len() > 0 {
        reveal_with_fuel(Seq::filter, 2);
        if keep(es.last()) && i == es.filter(keep).len() - 1 {
            assert(es[es.len() - 1] == es.filter(keep)[i]);
        } else {
            assert(es.filter(keep)[i] == es.drop_last().filter(keep)[i]) by {
                if keep(es.last()) {
                    assert(es.filter(keep).drop_last() =~= es.drop_last().filter(keep));
                } else {
                    assert(es.filter(keep) =~= es.drop_last().filter(keep));
                }
            }
            lemma_filter_member(es.drop_last(), keep, i);
            let t = choose|t: int|
                0 <= t < es.drop_last().len() && #[trigger] es.drop_last()[t] == es.drop_last().filter(
                    keep,
                )[i];
            assert(es[t] == es.filter(keep)[i]);
        }
    }
}

} // verus!
