//! The parse result: a mapping from identifier to list of integers, stored
//! as entries in insertion order with unique keys.

use vstd::prelude::*;
use vstd::string::StringExecFns;
use crate::engine::{doc_map, doc_values_ok};
use crate::grammar::{doc_wf, is_identifier};
use crate::numbers::{dec_of, render_i32};
use crate::render::{lemma_render_round_trip, render_doc, render_line, render_vals};
use crate::text::{push_char, str_eq};

verus! {

/// A vector of 32-bit integers, read as a sequence of mathematical ones.
pub open spec fn int_values(v: Seq<i32>) -> Seq<int> {
    v.map_values(|x: i32| x as int)
}

/// Last-write-wins fold of an entry sequence into a mapping.
pub open spec fn map_of_entries(es: Seq<(Seq<char>, Seq<int>)>) -> Map<Seq<char>, Seq<int>>
    decreases es.len(),
{
    if es.len() == 0 {
        Map::empty()
    } else {
        map_of_entries(es.drop_last()).insert(es.last().0, es.last().1)
    }
}

/// A key is present in the fold exactly when some entry carries it.
pub proof fn lemma_map_of_entries_contains(es: Seq<(Seq<char>, Seq<int>)>, k: Seq<char>)
    ensures
        map_of_entries(es).contains_key(k) <==> exists|i: int|
            0 <= i < es.len() && (#[trigger] es[i]).0 == k,
    decreases es.len(),
{
    if es.len() > 0 {
        lemma_map_of_entries_contains(es.drop_last(), k);
        if map_of_entries(es).contains_key(k) {
            if es.last().0 == k {
                assert(es[es.len() - 1].0 == k);
            } else {
                let i = choose|i: int|
                    0 <= i < es.drop_last().len() && (#[trigger] es.drop_last()[i]).0 == k;
                assert(es[i].0 == k);
            }
        }
        if exists|i: int| 0 <= i < es.len() && (#[trigger] es[i]).0 == k {
            let i = choose|i: int| 0 <= i < es.len() && (#[trigger] es[i]).0 == k;
            if i < es.len() - 1 {
                assert(es.drop_last()[i].0 == k);
            }
        }
    }
}

/// Among entries with the same key, the last one written decides the value.
pub proof fn lemma_last_write_wins(es: Seq<(Seq<char>, Seq<int>)>, i: int)
    requires
        0 <= i < es.len(),
        forall|k: int| i < k < es.len() ==> (#[trigger] es[k]).0 != es[i].0,
    ensures
        map_of_entries(es).contains_key(es[i].0),
        map_of_entries(es)[es[i].0] == es[i].1,
    decreases es.len(),
{
    if i < es.len() - 1 {
        assert(es.drop_last()[i] == es[i]);
        lemma_last_write_wins(es.drop_last(), i);
    }
}

/// Updating the entry that holds a key acts on the fold as a plain map
/// insertion, provided keys are unique.
proof fn lemma_map_of_entries_update(es: Seq<(Seq<char>, Seq<int>)>, i: int, v: Seq<int>)
    requires
        0 <= i < es.len(),
        forall|a: int, b: int|
            0 <= a < b < es.len() ==> (#[trigger] es[a]).0 != (#[trigger] es[b]).0,
    ensures
        map_of_entries(es.update(i, (es[i].0, v))) == map_of_entries(es).insert(es[i].0, v),
    decreases es.len(),
{
    let es2 = es.update(i, (es[i].0, v));
    if i == es.len() - 1 {
        assert(es2.drop_last() =~= es.drop_last());
        assert(map_of_entries(es2) =~= map_of_entries(es).insert(es[i].0, v));
    } else {
        assert(es.drop_last().update(i, (es.drop_last()[i].0, v)) =~= es2.drop_last());
        lemma_map_of_entries_update(es.drop_last(), i, v);
        assert(es2.last() == es.last());
        assert(es[i].0 != es.last().0);
        assert(map_of_entries(es2) =~= map_of_entries(es).insert(es[i].0, v));
    }
}

/// The parse result: unique identifier keys, each mapped to an ordered list
/// of 32-bit integers.  Abstractly, a `Map<Seq<char>, Seq<int>>`.
#[derive(Debug, PartialEq, Eq)]
pub struct KvMap {
    pairs: Vec<(String, Vec<i32>)>,
}

impl View for KvMap {
    type V = Map<Seq<char>, Seq<int>>;

    closed spec fn view(&self) -> Map<Seq<char>, Seq<int>> {
        map_of_entries(self.entries())
    }
}

impl KvMap {
    /// The entries in insertion order, each value list as a sequence of
    /// mathematical integers.
    pub closed spec fn entries(&self) -> Seq<(Seq<char>, Seq<int>)> {
        Seq::new(self.pairs@.len(), |i: int| (self.pairs@[i].0@, int_values(self.pairs@[i].1@)))
    }

    #[verifier::type_invariant]
    spec fn inv(&self) -> bool {
        &&& forall|a: int, b: int|
            0 <= a < b < self.pairs@.len() ==> (#[trigger] self.pairs@[a]).0@ != (
            #[trigger] self.pairs@[b]).0@
        &&& forall|i: int| 0 <= i < self.pairs@.len() ==> is_identifier((#[trigger] self.pairs@[i]).0@)
    }

    /// The empty mapping.
    pub fn new() -> (r: KvMap)
        ensures
            r@ == Map::<Seq<char>, Seq<int>>::empty(),
            r.entries() == Seq::<(Seq<char>, Seq<int>)>::empty(),
    {
        let r = KvMap { pairs: Vec::new() };
        proof {
            assert(r.entries() =~= Seq::<(Seq<char>, Seq<int>)>::empty());
        }
        r
    }

    /// Insert a pair; a later insertion with the same key overwrites the
    /// earlier one.
    #[verifier::loop_isolation(false)]
    pub fn insert(&mut self, key: String, values: Vec<i32>)
        requires
            is_identifier(key@),
        ensures
            final(self)@ == old(self)@.insert(key@, int_values(values@)),
    {
        proof {
            use_type_invariant(&*self);
        }
        let ghost es = self.entries();
        let ghost v = int_values(values@);
        let mut pairs: Vec<(String, Vec<i32>)> = Vec::new();
        core::mem::swap(&mut self.pairs, &mut pairs);
        let ghost ps = pairs@;
        proof {
            assert(es.len() == ps.len());
            assert(forall|k: int|
                0 <= k < ps.len() ==> (#[trigger] es[k]).0 == ps[k].0@ && es[k].1 == int_values(
                    ps[k].1@,
                ));
            assert(forall|a: int, b: int|
                0 <= a < b < ps.len() ==> (#[trigger] ps[a]).0@ != (#[trigger] ps[b]).0@);
            assert(forall|k: int| 0 <= k < ps.len() ==> is_identifier((#[trigger] ps[k]).0@));
        }
        let mut i: usize = 0;
        while i < pairs.len()
            invariant
                i <= pairs@.len(),
                pairs@ == ps,
                forall|k: int| 0 <= k < i ==> (#[trigger] ps[k]).0@ != key@,
            decreases pairs@.len() - i,
        {
            if str_eq(pairs[i].0.as_str(), key.as_str()) {
                assert(ps[i as int].0@ == key@);
                assert(es[i as int].0 == key@);
                pairs[i] = (key, values);
                proof {
                    assert forall|a: int, b: int|
                        0 <= a < b < pairs@.len() implies (#[trigger] pairs@[a]).0@ != (
                    #[trigger] pairs@[b]).0@ by {
                        assert(ps[a].0@ != ps[b].0@);
                        if a == i as int {
                            assert(pairs@[a].0@ == key@ && pairs@[b] == ps[b]);
                        } else if b == i as int {
                            assert(pairs@[a] == ps[a] && pairs@[b].0@ == key@);
                        } else {
                            assert(pairs@[a] == ps[a] && pairs@[b] == ps[b]);
                        }
                    }
                    assert forall|k: int|
                        0 <= k < pairs@.len() implies is_identifier(
                        (#[trigger] pairs@[k]).0@,
                    ) by {
                        if k == i as int {
                            assert(pairs@[k].0@ == key@);
                        } else {
                            assert(pairs@[k] == ps[k]);
                        }
                    }
                }
                self.pairs = pairs;
                proof {
                    assert(self.entries() =~= es.update(i as int, (es[i as int].0, v)));
                    lemma_map_of_entries_update(es, i as int, v);
                }
                return ;
            }
            i = i + 1;
        }
        pairs.push((key, values));
        proof {
            assert forall|a: int, b: int|
                0 <= a < b < pairs@.len() implies (#[trigger] pairs@[a]).0@ != (
            #[trigger] pairs@[b]).0@ by {
                if b == ps.len() as int {
                    assert(pairs@[a] == ps[a] && pairs@[b].0@ == key@);
                    assert(ps[a].0@ != key@);
                } else {
                    assert(pairs@[a] == ps[a] && pairs@[b] == ps[b]);
                    assert(ps[a].0@ != ps[b].0@);
                }
            }
            assert forall|k: int|
                0 <= k < pairs@.len() implies is_identifier((#[trigger] pairs@[k]).0@) by {
                if k == ps.len() as int {
                    assert(pairs@[k].0@ == key@);
                } else {
                    assert(pairs@[k] == ps[k]);
                }
            }
        }
        self.pairs = pairs;
        proof {
            assert(self.entries() =~= es.push((key@, v)));
            assert(es.push((key@, v)).drop_last() =~= es);
        }
    }

    /// Look a key up; the reported value list is the one the mapping holds.
    #[verifier::loop_isolation(false)]
    pub fn get(&self, key: &str) -> (r: Option<&Vec<i32>>)
        ensures
            match r {
                Some(values) => self@.contains_key(key@) && self@[key@] == int_values(values@),
                None => !self@.contains_key(key@),
            },
    {
        proof {
            use_type_invariant(self);
        }
        let ghost es = self.entries();
        proof {
            assert(es.len() == self.pairs@.len());
        }
        let mut i: usize = 0;
        while i < self.pairs.len()
            invariant
                i <= self.pairs@.len(),
                es == self.entries(),
                forall|k: int| 0 <= k < i ==> (#[trigger] self.pairs@[k]).0@ != key@,
            decreases self.pairs@.len() - i,
        {
            if str_eq(self.pairs[i].0.as_str(), key) {
                proof {
                    assert forall|k: int| i < k < es.len() implies (#[trigger] es[k]).0 != es[
                        i as int].0 by {
                        assert(self.pairs@[i as int].0@ != self.pairs@[k].0@);
                    }
                    lemma_last_write_wins(es, i as int);
                }
                return Some(&self.pairs[i].1);
            }
            i = i + 1;
        }
        proof {
            lemma_map_of_entries_contains(es, key@);
        }
        None
    }

    /// Render the mapping in the documented textual format, one
    /// `key: [v1, v2]` line per entry.  The result always parses back to
    /// this very mapping.
    #[verifier::loop_isolation(false)]
    pub fn to_text(&self) -> (s: String)
        ensures
            doc_wf(s@),
            doc_values_ok(s@),
            doc_map(s@) == self@,
    {
        proof {
            use_type_invariant(self);
        }
        let ghost es = self.entries();
        proof {
            reveal_strlit(": [");
            reveal_strlit("]");
            reveal_strlit(", ");
            assert(es.len() == self.pairs@.len());
            assert(": ["@ =~= seq![':', ' ', '[']);
            assert(", "@ =~= seq![',', ' ']);
            assert("]"@ =~= seq![']']);
        }
        let mut s = String::new();
        let mut pi: usize = 0;
        while pi < self.pairs.len()
            invariant
                pi <= self.pairs@.len(),
                s@ == render_doc(es.take(pi as int)),
            decreases self.pairs@.len() - pi,
        {
            let ghost line_start = s@;
            let ghost key = es[pi as int].0;
            let ghost vs = es[pi as int].1;
            s.append(self.pairs[pi].0.as_str());
            s.append(": [");
            proof {
                assert(key == self.pairs@[pi as int].0@);
                assert(s@ =~= line_start + key + seq![':', ' ', '[']);
                assert(render_vals(vs.take(0)) == Seq::<char>::empty());
                assert(s@ =~= line_start + key + seq![':', ' ', '['] + render_vals(vs.take(0)));
            }
            let n_vals = self.pairs[pi].1.len();
            let mut q: usize = 0;
            while q < n_vals
                invariant
                    q <= n_vals,
                    pi < self.pairs@.len(),
                    n_vals == self.pairs@[pi as int].1@.len(),
                    s@ == line_start + key + seq![':', ' ', '['] + render_vals(vs.take(q as int)),
                decreases n_vals - q,
            {
                if q > 0 {
                    s.append(", ");
                }
                let d = render_i32(self.pairs[pi].1[q]);
                s.append(d.as_str());
                proof {
                    assert(vs.len() == n_vals);
                    assert(vs[q as int] == self.pairs@[pi as int].1@[q as int] as int);
                    assert(vs.take(q + 1).drop_last() =~= vs.take(q as int));
                    assert(vs.take(q + 1).last() == vs[q as int]);
                    if q == 0 {
                        assert(vs.take(1).len() == 1);
                        assert(render_vals(vs.take(1)) == dec_of(vs.take(1)[0]));
                        assert(s@ =~= line_start + key + seq![':', ' ', '['] + render_vals(
                            vs.take(q + 1),
                        ));
                    } else {
                        assert(render_vals(vs.take(q + 1)) == render_vals(vs.take(q as int))
                            + seq![',', ' '] + dec_of(vs[q as int]));
                        assert(s@ =~= line_start + key + seq![':', ' ', '['] + render_vals(
                            vs.take(q + 1),
                        ));
                    }
                }
                q = q + 1;
            }
            s.append("]");
            push_char(&mut s, '\n');
            proof {
                assert(vs.take(n_vals as int) =~= vs);
                assert(es.take(pi + 1).drop_last() =~= es.take(pi as int));
                assert(es.take(pi + 1).last() == es[pi as int]);
                assert(render_doc(es.take(pi + 1)) == render_doc(es.take(pi as int)) + render_line(
                    key,
                    vs,
                ) + seq!['\n']);
                assert(s@ =~= render_doc(es.take(pi + 1)));
            }
            pi = pi + 1;
        }
        proof {
            assert(es.take(es.len() as int) =~= es);
            assert forall|n: int| 0 <= n < es.len() implies is_identifier((#[trigger] es[n]).0) by {
                assert(es[n].0 == self.pairs@[n].0@);
            }
            assert forall|n: int, q: int|
                0 <= n < es.len() && 0 <= q < es[n].1.len() implies i32::MIN <= #[trigger] es[n].1[q]
                <= i32::MAX by {
                assert(es[n].1[q] == self.pairs@[n].1@[q] as int);
            }
            lemma_render_round_trip(es);
        }
        s
    }

    /// How many keys the mapping holds.
    pub fn len(&self) -> (n: usize)
        ensures
            n == self@.dom().len(),
    {
        proof {
            use_type_invariant(self);
            let es = self.entries();
            assert(es.len() == self.pairs@.len());
            assert forall|a: int, b: int|
                0 <= a < b < es.len() implies (#[trigger] es[a]).0 != (#[trigger] es[b]).0 by {
                assert(self.pairs@[a].0@ != self.pairs@[b].0@);
            }
            lemma_map_of_entries_card(es);
        }
        self.pairs.len()
    }
}

proof fn lemma_map_of_entries_card(es: Seq<(Seq<char>, Seq<int>)>)
    requires
        forall|a: int, b: int|
            0 <= a < b < es.len() ==> (#[trigger] es[a]).0 != (#[trigger] es[b]).0,
    ensures
        map_of_entries(es).dom().finite(),
        map_of_entries(es).dom().len() == es.len(),
    decreases es.len(),
{
    broadcast use vstd::set::axiom_set_insert_len;

    if es.len() > 0 {
        let init = es.drop_last();
        assert(forall|x: int| 0 <= x < init.len() ==> init[x] == #[trigger] es[x]);
        lemma_map_of_entries_card(init);
        let k = es.last().0;
        lemma_map_of_entries_contains(init, k);
        assert(forall|i: int| 0 <= i < init.len() ==> (#[trigger] init[i]).0 != k);
        assert(!map_of_entries(init).dom().contains(k));
        assert(map_of_entries(es).dom() =~= map_of_entries(init).dom().insert(k));
    }
}

} // verus!
