//! The routing trie: a `/`-segment tree mapping configured paths to
//! components, searched with longest-prefix-then-stop semantics.

use vstd::prelude::*;

use crate::model::Component;
use crate::strutil::{join_seq, path_segs, split_path, str_eq};

verus! {

/// The mathematical view of a trie node.
#[verifier::ext_equal]
pub struct NodeV {
    pub next: Seq<(Seq<char>, NodeV)>,
    pub value: Option<Component>,
}

/// A trie node: children keyed by path segment, and an optional component at
/// this exact path.
pub struct Node {
    pub next: Vec<(String, Node)>,
    pub value: Option<Component>,
}

/// The deep views of a child list.
pub open spec fn deep_children(cs: Seq<(String, Node)>) -> Seq<(Seq<char>, NodeV)>
    decreases cs,
{
    if cs.len() == 0 {
        Seq::<(Seq<char>, NodeV)>::empty()
    } else {
        deep_children(cs.drop_last()).push((cs.last().0@, cs.last().1.deep()))
    }
}

pub broadcast proof fn lemma_deep_children_len(cs: Seq<(String, Node)>)
    ensures
        (#[trigger] deep_children(cs)).len() == cs.len(),
        forall|i: int|
            0 <= i < cs.len() ==> deep_children(cs)[i] == ((#[trigger] cs[i]).0@,
            cs[i].1.deep()),
    decreases cs,
{
    if cs.len() > 0 {
        lemma_deep_children_len(cs.drop_last());
        assert forall|i: int| 0 <= i < cs.len() implies deep_children(cs)[i] == ((
        #[trigger] cs[i]).0@, cs[i].1.deep()) by {
            if i < cs.len() - 1 {
                assert(cs.drop_last()[i] == cs[i]);
            } else {
                assert(cs.last() == cs[i]);
            }
        }
    }
}

/// The child for a segment: the first entry with that key.
pub open spec fn nv_find(cs: Seq<(Seq<char>, NodeV)>, seg: Seq<char>) -> Option<NodeV>
    decreases cs,
{
    if cs.len() == 0 {
        None
    } else if cs[0].0 == seg {
        Some(cs[0].1)
    } else {
        nv_find(cs.skip(1), seg)
    }
}

/// Replace the first child keyed `seg`, or append a new one.
pub open spec fn nv_upsert(
    cs: Seq<(Seq<char>, NodeV)>,
    seg: Seq<char>,
    c: NodeV,
) -> Seq<(Seq<char>, NodeV)>
    decreases cs,
{
    if cs.len() == 0 {
        seq![(seg, c)]
    } else if cs[0].0 == seg {
        cs.update(0, (seg, c))
    } else {
        seq![cs[0]] + nv_upsert(cs.skip(1), seg, c)
    }
}

/// A node with no children and no value.
pub open spec fn nv_empty() -> NodeV {
    NodeV { next: Seq::<(Seq<char>, NodeV)>::empty(), value: None }
}

/// Insert: walk (and create) nodes for each segment, and set the value of
/// the final node, overwriting any prior value at that exact path.
pub open spec fn spec_insert(n: NodeV, parts: Seq<Seq<char>>, value: Option<Component>) -> NodeV
    decreases parts.len(),
{
    if parts.len() == 0 {
        NodeV { next: n.next, value }
    } else {
        let sub = match nv_find(n.next, parts[0]) {
            Some(c) => c,
            None => nv_empty(),
        };
        NodeV { next: nv_upsert(n.next, parts[0], spec_insert(sub, parts.skip(1), value)), value: n.value }
    }
}

/// Search: walk as far as matching segments exist; the deepest matched node
/// and the unconsumed remainder, without backtracking.
pub open spec fn spec_search(n: NodeV, parts: Seq<Seq<char>>) -> (NodeV, Seq<Seq<char>>)
    decreases parts.len(),
{
    if parts.len() == 0 {
        (n, parts)
    } else {
        match nv_find(n.next, parts[0]) {
            Some(c) => spec_search(c, parts.skip(1)),
            None => (n, parts),
        }
    }
}

/// After an upsert, the segment finds exactly the new child.
proof fn lemma_nv_upsert_find(cs: Seq<(Seq<char>, NodeV)>, seg: Seq<char>, c: NodeV)
    ensures
        nv_find(nv_upsert(cs, seg, c), seg) == Some(c),
    decreases cs,
{
    if cs.len() == 0 {
        assert(nv_upsert(cs, seg, c) =~= seq![(seg, c)]);
    } else if cs[0].0 == seg {
        assert(nv_upsert(cs, seg, c)[0] == (seg, c));
    } else {
        lemma_nv_upsert_find(cs.skip(1), seg, c);
        let up = nv_upsert(cs, seg, c);
        assert(up =~= seq![cs[0]] + nv_upsert(cs.skip(1), seg, c));
        assert(up[0] == cs[0]);
        assert(up.skip(1) =~= nv_upsert(cs.skip(1), seg, c));
    }
}

/// Law: searching exactly the inserted path finds the inserted value with an
/// empty remainder.
pub proof fn lemma_search_after_insert(n: NodeV, parts: Seq<Seq<char>>, value: Option<Component>)
    ensures
        spec_search(spec_insert(n, parts, value), parts).0.value == value,
        spec_search(spec_insert(n, parts, value), parts).1 == Seq::<Seq<char>>::empty(),
    decreases parts.len(),
{
    if parts.len() == 0 {
        assert(spec_search(spec_insert(n, parts, value), parts).1 =~= Seq::<Seq<char>>::empty());
    } else {
        let sub = match nv_find(n.next, parts[0]) {
            Some(c) => c,
            None => nv_empty(),
        };
        let child = spec_insert(sub, parts.skip(1), value);
        lemma_nv_upsert_find(n.next, parts[0], child);
        lemma_search_after_insert(sub, parts.skip(1), value);
    }
}

/// Law: in a tree holding one freshly inserted route, searching the route
/// followed by any suffix stops at the route's node — which carries the
/// inserted value — and returns the suffix unconsumed.
pub proof fn lemma_fresh_insert_longest_prefix(
    parts: Seq<Seq<char>>,
    suffix: Seq<Seq<char>>,
    value: Option<Component>,
)
    ensures
        spec_search(spec_insert(nv_empty(), parts, value), parts + suffix).0.value == value,
        spec_search(spec_insert(nv_empty(), parts, value), parts + suffix).1 == suffix,
    decreases parts.len(),
{
    let t = spec_insert(nv_empty(), parts, value);
    if parts.len() == 0 {
        assert(parts + suffix =~= suffix);
        assert(t.next =~= Seq::<(Seq<char>, NodeV)>::empty());
        if suffix.len() > 0 {
            assert(nv_find(t.next, suffix[0]) is None);
        }
    } else {
        let child = spec_insert(nv_empty(), parts.skip(1), value);
        assert(nv_find(nv_empty().next, parts[0]) is None);
        assert(t.next =~= seq![(parts[0], child)]);
        assert((parts + suffix)[0] == parts[0]);
        assert(nv_find(t.next, parts[0]) == Some(child));
        assert((parts + suffix).skip(1) =~= parts.skip(1) + suffix);
        lemma_fresh_insert_longest_prefix(parts.skip(1), suffix, value);
    }
}

impl Node {
    /// The deep mathematical view.
    pub open spec fn deep(self) -> NodeV
        decreases self,
    {
        NodeV { next: deep_children(self.next@), value: self.value }
    }

    /// A node with no children and no value.
    pub fn new() -> (r: Node)
        ensures
            r.deep() == nv_empty(),
    {
        let r = Node { next: Vec::new(), value: None };
        proof {
            assert(deep_children(r.next@) =~= Seq::<(Seq<char>, NodeV)>::empty());
            assert(r.deep() =~= nv_empty());
        }
        r
    }

    /// The index of the first child keyed `seg`, if any.
    fn find_child(&self, seg: &str) -> (r: Option<usize>)
        ensures
            match r {
                Some(i) => i < self.next@.len() && self.next@[i as int].0@ == seg@ && (forall|
                    j: int,
                |
                    0 <= j < i ==> (#[trigger] self.next@[j]).0@ != seg@) && nv_find(
                    self.deep().next,
                    seg@,
                ) == Some(self.next@[i as int].1.deep()),
                None => nv_find(self.deep().next, seg@) is None,
            },
    {
        broadcast use lemma_deep_children_len;

        let mut i: usize = 0;
        while i < self.next.len()
            invariant
                i <= self.next@.len(),
                forall|j: int| 0 <= j < i ==> (#[trigger] self.next@[j]).0@ != seg@,
            decreases self.next@.len() - i,
        {
            broadcast use lemma_deep_children_len;

            if str_eq(self.next[i].0.as_str(), seg) {
                proof {
                    lemma_nv_find_first(deep_children(self.next@), seg@);
                    assert(deep_children(self.next@)[i as int].0 == seg@);
                    assert forall|j: int| 0 <= j < i implies (#[trigger] deep_children(
                        self.next@,
                    )[j]).0 != seg@ by {
                        assert(deep_children(self.next@)[j] == (self.next@[j].0@,
                        self.next@[j].1.deep()));
                    }
                }
                return Some(i);
            }
            i += 1;
        }
        proof {
            lemma_nv_find_first(deep_children(self.next@), seg@);
            assert forall|j: int| 0 <= j < deep_children(self.next@).len() implies (
            #[trigger] deep_children(self.next@)[j]).0 != seg@ by {
                assert(deep_children(self.next@)[j] == (self.next@[j].0@, self.next@[j].1.deep()));
            }
        }
        None
    }

    /// Insert the component at the path given by `parts[i..]`.
    fn insert_at(&mut self, parts: &Vec<String>, i: usize, value: Component)
        requires
            i <= parts@.len(),
        ensures
            final(self).deep() == spec_insert(
                old(self).deep(),
                parts@.map_values(|t: String| t@).skip(i as int),
                Some(value),
            ),
        decreases parts@.len() - i,
    {
        broadcast use lemma_deep_children_len;

        let ghost segs = parts@.map_values(|t: String| t@).skip(i as int);
        if i == parts.len() {
            proof {
                assert(segs =~= Seq::<Seq<char>>::empty());
            }
            self.value = Some(value);
        } else {
            proof {
                assert(segs[0] == parts@[i as int]@);
                assert(segs.skip(1) =~= parts@.map_values(|t: String| t@).skip(i as int + 1));
            }
            let ghost oldnext = self.next@;
            match self.find_child(parts[i].as_str()) {
                Some(j) => {
                    let (k, mut child) = self.next.remove(j);
                    let ghost childv = child.deep();
                    child.insert_at(parts, i + 1, value);
                    self.next.insert(j, (k, child));
                    proof {
                        assert(self.next@ =~= oldnext.update(j as int, (k, child)));
                        assert(deep_children(oldnext)[j as int].0 == segs[0]);
                        assert forall|t: int| 0 <= t < j implies (#[trigger] deep_children(
                            oldnext,
                        )[t]).0 != segs[0] by {
                            assert(deep_children(oldnext)[t] == (oldnext[t].0@,
                            oldnext[t].1.deep()));
                        }
                        lemma_nv_upsert_at(deep_children(oldnext), segs[0], j as int, child.deep());
                        assert(deep_children(self.next@) =~= deep_children(oldnext).update(
                            j as int,
                            (segs[0], child.deep()),
                        )) by {
                            lemma_deep_children_update(oldnext, j as int, (k, child));
                        }
                        assert(nv_find(deep_children(oldnext), segs[0]) == Some(childv));
                    }
                },
                None => {
                    let mut child = Node::new();
                    child.insert_at(parts, i + 1, value);
                    let k = parts[i].clone();
                    let ghost out0 = self.next@;
                    self.next.push((k, child));
                    proof {
                        lemma_deep_children_push(out0, (k, child));
                        lemma_nv_find_first(deep_children(oldnext), segs[0]);
                        assert(nv_find(deep_children(oldnext), segs[0]) is None);
                        assert forall|t: int| 0 <= t < deep_children(oldnext).len() implies (
                        #[trigger] deep_children(oldnext)[t]).0 != segs[0] by {
                            if deep_children(oldnext)[t].0 == segs[0] {
                                assert(exists|e: int|
                                    0 <= e < deep_children(oldnext).len() && (
                                    #[trigger] deep_children(oldnext)[e]).0 == segs[0]);
                            }
                        }
                        lemma_nv_upsert_absent(deep_children(oldnext), segs[0], child.deep());
                    }
                },
            }
        }
    }

    /// Insert at a raw segment list.
    pub fn raw_insert(&mut self, parts: Vec<String>, value: Component)
        ensures
            final(self).deep() == spec_insert(
                old(self).deep(),
                parts@.map_values(|t: String| t@),
                Some(value),
            ),
    {
        proof {
            assert(parts@.map_values(|t: String| t@).skip(0) =~= parts@.map_values(
                |t: String| t@,
            ));
        }
        self.insert_at(&parts, 0, value);
    }

    /// Insert the component at a `/`-separated path (empty segments are
    /// discarded), overwriting any prior value at that exact path.
    pub fn insert(&mut self, path: String, value: Component)
        ensures
            final(self).deep() == spec_insert(old(self).deep(), path_segs(path@), Some(value)),
    {
        let ghost p = path@;
        let parts = split_path(path);
        self.raw_insert(parts, value);
    }

    /// Search along `parts[i..]`: the deepest matched node and the index at
    /// which matching stopped.
    fn search_at<'a>(&'a self, parts: &Vec<String>, i: usize) -> (r: (&'a Node, usize))
        requires
            i <= parts@.len(),
        ensures
            i <= r.1 <= parts@.len(),
            spec_search(self.deep(), parts@.map_values(|t: String| t@).skip(i as int)) == (
            r.0.deep(), parts@.map_values(|t: String| t@).skip(r.1 as int)),
        decreases parts@.len() - i,
    {
        let ghost segs = parts@.map_values(|t: String| t@).skip(i as int);
        if i == parts.len() {
            proof {
                assert(segs =~= Seq::<Seq<char>>::empty());
            }
            return (self, i);
        }
        proof {
            assert(segs[0] == parts@[i as int]@);
            assert(segs.skip(1) =~= parts@.map_values(|t: String| t@).skip(i as int + 1));
        }
        match self.find_child(parts[i].as_str()) {
            Some(j) => {
                proof {
                    assert(nv_find(self.deep().next, segs[0]) == Some(
                        self.next@[j as int].1.deep(),
                    ));
                }
                self.next[j].1.search_at(parts, i + 1)
            },
            None => (self, i),
        }
    }

    /// Search at a raw segment list: the deepest matched node and the
    /// unconsumed remainder joined by `/`.
    pub fn raw_search<'a>(&'a self, parts: Vec<String>) -> (r: (&'a Node, String))
        ensures
            r.0.deep() == spec_search(self.deep(), parts@.map_values(|t: String| t@)).0,
            r.1@ == join_seq(spec_search(self.deep(), parts@.map_values(|t: String| t@)).1, '/'),
    {
        proof {
            assert(parts@.map_values(|t: String| t@).skip(0) =~= parts@.map_values(
                |t: String| t@,
            ));
        }
        let (node, j) = self.search_at(&parts, 0);
        let rest = crate::strutil::join_from(&parts, j, '/');
        (node, rest)
    }

    /// Search a `/`-separated path: walk as far as matching segments exist;
    /// the deepest matched node and the unconsumed remainder of the path,
    /// joined by `/`. A route `/a/b` searched with `/a/b/c/d` yields the
    /// node at `a/b` and the remainder `c/d`.
    pub fn search<'a>(&'a self, path: String) -> (r: (&'a Node, String))
        ensures
            r.0.deep() == spec_search(self.deep(), path_segs(path@)).0,
            r.1@ == join_seq(spec_search(self.deep(), path_segs(path@)).1, '/'),
    {
        let parts = split_path(path);
        self.raw_search(parts)
    }
}

/// `nv_find` finds the first index whose key matches.
proof fn lemma_nv_find_first(cs: Seq<(Seq<char>, NodeV)>, seg: Seq<char>)
    ensures
        (nv_find(cs, seg) is Some) <==> exists|i: int|
            0 <= i < cs.len() && (#[trigger] cs[i]).0 == seg,
        forall|i: int|
            (0 <= i < cs.len() && (#[trigger] cs[i]).0 == seg && (forall|j: int|
                0 <= j < i ==> (#[trigger] cs[j]).0 != seg)) ==> nv_find(cs, seg) == Some(cs[i].1),
    decreases cs,
{
    if cs.len() > 0 {
        lemma_nv_find_first(cs.skip(1), seg);
        assert forall|i: int|
            (0 <= i < cs.len() && (#[trigger] cs[i]).0 == seg && (forall|j: int|
                0 <= j < i ==> (#[trigger] cs[j]).0 != seg)) implies nv_find(cs, seg) == Some(
            cs[i].1,
        ) by {
            if i > 0 {
                assert(cs[0].0 != seg);
                assert(cs.skip(1)[i - 1].0 == seg);
                assert(forall|j: int| 0 <= j < i - 1 ==> (#[trigger] cs.skip(1)[j]).0 != seg);
            }
        }
        if nv_find(cs, seg) is Some && cs[0].0 != seg {
            let i = choose|i: int| 0 <= i < cs.skip(1).len() && (#[trigger] cs.skip(1)[i]).0 == seg;
            assert(cs[i + 1].0 == seg);
        }
        if exists|i: int| 0 <= i < cs.len() && (#[trigger] cs[i]).0 == seg {
            let i = choose|i: int| 0 <= i < cs.len() && (#[trigger] cs[i]).0 == seg;
            if i > 0 {
                assert(cs.skip(1)[i - 1].0 == seg);
            }
        }
    }
}

/// Upsert of a present key is a pointwise update at its first index.
proof fn lemma_nv_upsert_at(cs: Seq<(Seq<char>, NodeV)>, seg: Seq<char>, i: int, c: NodeV)
    requires
        0 <= i < cs.len(),
        cs[i].0 == seg,
        forall|j: int| 0 <= j < i ==> (#[trigger] cs[j]).0 != seg,
    ensures
        nv_upsert(cs, seg, c) == cs.update(i, (seg, c)),
    decreases cs,
{
    if i == 0 {
    } else {
        assert(cs.skip(1)[i - 1].0 == seg);
        assert(forall|j: int| 0 <= j < i - 1 ==> (#[trigger] cs.skip(1)[j]).0 != seg);
        lemma_nv_upsert_at(cs.skip(1), seg, i - 1, c);
        assert(nv_upsert(cs, seg, c) =~= seq![cs[0]] + cs.skip(1).update(i - 1, (seg, c)));
        assert(seq![cs[0]] + cs.skip(1).update(i - 1, (seg, c)) =~= cs.update(i, (seg, c)));
    }
}

/// Upsert of an absent key appends the entry.
proof fn lemma_nv_upsert_absent(cs: Seq<(Seq<char>, NodeV)>, seg: Seq<char>, c: NodeV)
    requires
        forall|j: int| 0 <= j < cs.len() ==> (#[trigger] cs[j]).0 != seg,
    ensures
        nv_upsert(cs, seg, c) == cs.push((seg, c)),
    decreases cs,
{
    if cs.len() == 0 {
        assert(nv_upsert(cs, seg, c) =~= cs.push((seg, c)));
    } else {
        assert(forall|j: int| 0 <= j < cs.skip(1).len() ==> (#[trigger] cs.skip(1)[j]).0 != seg);
        lemma_nv_upsert_absent(cs.skip(1), seg, c);
        assert(nv_upsert(cs, seg, c) =~= seq![cs[0]] + cs.skip(1).push((seg, c)));
        assert(seq![cs[0]] + cs.skip(1).push((seg, c)) =~= cs.push((seg, c)));
    }
}

/// The deep view of a pointwise child update.
proof fn lemma_deep_children_update(cs: Seq<(String, Node)>, i: int, p: (String, Node))
    requires
        0 <= i < cs.len(),
    ensures
        deep_children(cs.update(i, p)) == deep_children(cs).update(i, (p.0@, p.1.deep())),
    decreases cs,
{
    broadcast use lemma_deep_children_len;

    assert(deep_children(cs.update(i, p)) =~= deep_children(cs).update(i, (p.0@, p.1.deep()))) by {
        assert forall|t: int| 0 <= t < cs.len() implies deep_children(cs.update(i, p))[t]
            == deep_children(cs).update(i, (p.0@, p.1.deep()))[t] by {
            assert(deep_children(cs.update(i, p))[t] == (cs.update(i, p)[t].0@,
            cs.update(i, p)[t].1.deep()));
            if t != i {
                assert(cs.update(i, p)[t] == cs[t]);
            }
        }
    }
}

/// The deep view of an appended child.
proof fn lemma_deep_children_push(cs: Seq<(String, Node)>, p: (String, Node))
    ensures
        deep_children(cs.push(p)) == deep_children(cs).push((p.0@, p.1.deep())),
{
    assert(cs.push(p).drop_last() =~= cs);
    assert(cs.push(p).last() == p);
}

} // verus!
