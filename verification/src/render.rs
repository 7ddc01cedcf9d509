//! Rendering a mapping back to the textual format, and the proof that the
//! rendered document parses to exactly the mapping it came from.

use vstd::prelude::*;
use crate::engine::{doc_entries, doc_map, doc_values_ok, entry_of_pair, pair_values_ok};
use crate::grammar::{
    classify_line, doc_pairs, doc_wf, is_elem_char, is_ident_char, is_identifier, is_space,
    lemma_scan_from_is, lemma_split_lines_snoc, line_ok, pairs_of, parse_elems, parse_list,
    skip_spaces, split_lines, LineShape,
};
use crate::mapping::map_of_entries;
use crate::numbers::{convertible, dec_of, lemma_dec_of_round_trip, lit_val};

verus! {

/// Rendering of a value list: decimal elements joined by a comma and space.
pub open spec fn render_vals(vs: Seq<int>) -> Seq<char>
    decreases vs.len(),
{
    if vs.len() == 0 {
        Seq::empty()
    } else if vs.len() == 1 {
        dec_of(vs[0])
    } else {
        render_vals(vs.drop_last()) + seq![',', ' '] + dec_of(vs.last())
    }
}

/// Rendering of one pair as a line of the document.
pub open spec fn render_line(key: Seq<char>, vs: Seq<int>) -> Seq<char> {
    key + seq![':', ' ', '['] + render_vals(vs) + seq![']']
}

/// Rendering of a whole entry sequence, one line per entry, each line
/// terminated by a line break.
pub open spec fn render_doc(es: Seq<(Seq<char>, Seq<int>)>) -> Seq<char>
    decreases es.len(),
{
    if es.len() == 0 {
        Seq::empty()
    } else {
        render_doc(es.drop_last()) + render_line(es.last().0, es.last().1) + seq!['\n']
    }
}

/// The lines a rendered document consists of, without the final empty line.
pub open spec fn rendered_lines(es: Seq<(Seq<char>, Seq<int>)>) -> Seq<Seq<char>> {
    Seq::new(es.len(), |n: int| render_line(es[n].0, es[n].1))
}

proof fn lemma_dec_of_elem(v: int)
    ensures
        dec_of(v).len() >= 1,
        forall|q: int| 0 <= q < dec_of(v).len() ==> is_elem_char(#[trigger] dec_of(v)[q]),
{
    if v < 0 {
        crate::numbers::lemma_dec_digits_are_digits(-v);
        assert forall|q: int| 0 <= q < dec_of(v).len() implies is_elem_char(
            #[trigger] dec_of(v)[q],
        ) by {
            if q == 0 {
                assert(dec_of(v)[0] == '-');
            } else {
                assert(dec_of(v)[q] == crate::numbers::dec_digits(-v)[q - 1]);
            }
        }
    } else {
        crate::numbers::lemma_dec_digits_are_digits(v);
    }
}

proof fn lemma_render_vals_front(vs: Seq<int>)
    requires
        vs.len() >= 2,
    ensures
        render_vals(vs) == dec_of(vs[0]) + seq![',', ' '] + render_vals(vs.drop_first()),
    decreases vs.len(),
{
    if vs.len() == 2 {
        assert(vs.drop_last().len() == 1 && vs.drop_last()[0] == vs[0]);
        assert(vs.drop_first().len() == 1 && vs.drop_first()[0] == vs[1]);
        assert(render_vals(vs.drop_last()) == dec_of(vs[0]));
        assert(render_vals(vs.drop_first()) == dec_of(vs[1]));
        assert(render_vals(vs) == render_vals(vs.drop_last()) + seq![',', ' '] + dec_of(vs.last()));
        assert(render_vals(vs) =~= dec_of(vs[0]) + seq![',', ' '] + render_vals(vs.drop_first()));
    } else {
        lemma_render_vals_front(vs.drop_last());
        assert(vs.drop_last().drop_first() =~= vs.drop_first().drop_last());
        assert(vs.drop_last()[0] == vs[0]);
        assert(vs.drop_first().last() == vs.last());
        assert(vs.drop_first().len() >= 2);
        assert(render_vals(vs) =~= dec_of(vs[0]) + seq![',', ' '] + render_vals(vs.drop_first()));
    }
}

/// The grammar's element parser accepts a rendered value list.  `s0` is
/// where the rendered text starts: the whitespace scan from `i` ends there,
/// and the closing bracket follows the rendered elements.
proof fn lemma_parse_rendered_elems(l: Seq<char>, i: int, s0: int, vs: Seq<int>)
    requires
        vs.len() >= 1,
        forall|n: int| 0 <= n < vs.len() ==> i32::MIN <= #[trigger] vs[n] <= i32::MAX,
        0 <= i <= s0,
        skip_spaces(l, i) == s0,
        s0 + render_vals(vs).len() + 1 <= l.len(),
        l.subrange(s0, s0 + render_vals(vs).len() + 1) == render_vals(vs).push(']'),
    ensures
        parse_elems(l, i) matches Ok(pr) && pr.0.len() == vs.len() && (forall|n: int|
            0 <= n < vs.len() ==> pr.0[n] == dec_of(#[trigger] vs[n])) && pr.1 == s0
            + render_vals(vs).len() + 1,
    decreases vs.len(),
{
    let d0 = dec_of(vs[0]);
    lemma_dec_of_elem(vs[0]);
    let rl = render_vals(vs).len() as int;
    let k = s0 + d0.len();
    let whole = render_vals(vs).push(']');
    assert forall|p: int| s0 <= p < s0 + rl + 1 implies l[p] == whole[p - s0] by {
        assert(l.subrange(s0, s0 + rl + 1)[p - s0] == whole[p - s0]);
    }
    if vs.len() == 1 {
        assert(forall|q: int| 0 <= q < d0.len() ==> whole[q] == #[trigger] d0[q]);
        assert(whole[d0.len() as int] == ']');
        assert forall|p: int| s0 <= p < k implies is_elem_char(l[p]) by {
            assert(l[p] == whole[p - s0] && whole[p - s0] == d0[p - s0]);
        }
        assert(l[k] == ']');
        lemma_scan_from_is(l, s0, k, |c: char| is_elem_char(c));
        lemma_scan_from_is(l, k, k, |c: char| is_space(c));
        assert(l.subrange(s0, k) =~= d0);
        assert(parse_elems(l, i) == Ok::<(Seq<Seq<char>>, int), crate::grammar::Expected>(
            (seq![d0], k + 1),
        ));
    } else {
        lemma_render_vals_front(vs);
        let rest = vs.drop_first();
        let rrest = render_vals(rest);
        assert(render_vals(vs) == d0 + seq![',', ' '] + rrest);
        assert(forall|q: int| 0 <= q < d0.len() ==> whole[q] == #[trigger] d0[q]);
        assert(whole[d0.len() as int] == ',');
        assert(whole[d0.len() as int + 1] == ' ');
        assert(forall|q: int|
            0 <= q < rrest.len() ==> whole[d0.len() as int + 2 + q] == #[trigger] rrest[q]);
        assert forall|p: int| s0 <= p < k implies is_elem_char(l[p]) by {
            assert(l[p] == whole[p - s0] && whole[p - s0] == d0[p - s0]);
        }
        assert(l[k] == ',');
        lemma_scan_from_is(l, s0, k, |c: char| is_elem_char(c));
        lemma_scan_from_is(l, k, k, |c: char| is_space(c));
        // the element after the separator starts with a non-space character
        lemma_dec_of_elem(rest[0]);
        if rest.len() >= 2 {
            lemma_render_vals_front(rest);
            assert(rrest[0] == dec_of(rest[0])[0]);
        } else {
            assert(rrest == dec_of(rest[0]));
        }
        assert(is_elem_char(rrest[0]));
        assert(l[k + 1] == whole[k + 1 - s0] && whole[d0.len() as int + 1] == ' ');
        assert(l[k + 2] == whole[d0.len() as int + 2] && whole[d0.len() as int + 2] == rrest[0]);
        lemma_scan_from_is(l, k + 1, k + 2, |c: char| is_space(c));
        assert forall|p: int|
            0 <= p < rrest.len() + 1 implies l.subrange(k + 2, k + 2 + rrest.len() + 1)[p]
            == rrest.push(']')[p] by {
            assert(l.subrange(k + 2, k + 2 + rrest.len() + 1)[p] == l[k + 2 + p]);
            assert(l[k + 2 + p] == whole[d0.len() as int + 2 + p]);
            if p < rrest.len() {
                assert(whole[d0.len() as int + 2 + p] == rrest[p]);
            } else {
                assert(d0.len() as int + 2 + p == rl);
                assert(whole[rl] == ']');
            }
        }
        assert(l.subrange(k + 2, k + 2 + rrest.len() + 1) =~= rrest.push(']'));
        lemma_parse_rendered_elems(l, k + 1, k + 2, rest);
        match parse_elems(l, k + 1) {
            Ok(prr) => {
                let sub = l.subrange(s0, k);
                assert(sub =~= d0);
                let pr = (seq![sub] + prr.0, prr.1);
                assert(parse_elems(l, i) == Ok::<(Seq<Seq<char>>, int), crate::grammar::Expected>(
                    pr,
                ));
                assert forall|n: int| 0 <= n < vs.len() implies pr.0[n] == dec_of(
                    #[trigger] vs[n],
                ) by {
                    if n == 0 {
                        assert(pr.0[0] == sub);
                    } else {
                        assert(pr.0[n] == prr.0[n - 1]);
                        assert(rest[n - 1] == vs[n]);
                    }
                }
                assert(pr.1 == s0 + rl + 1);
            },
            Err(_) => {
                assert(false);
            },
        }
    }
}

/// Classification of a rendered line: exactly the pair it was made from,
/// with each value as its decimal literal.
proof fn lemma_classify_render_line(key: Seq<char>, vs: Seq<int>)
    requires
        is_identifier(key),
        forall|n: int| 0 <= n < vs.len() ==> i32::MIN <= #[trigger] vs[n] <= i32::MAX,
    ensures
        classify_line(render_line(key, vs)) == (LineShape::Pair {
            key,
            elems: Seq::new(vs.len(), |n: int| dec_of(vs[n])),
        }),
{
    let l = render_line(key, vs);
    let kl = key.len() as int;
    let rl = render_vals(vs).len() as int;
    assert(l.len() == kl + 3 + rl + 1);
    assert(forall|q: int| 0 <= q < kl ==> l[q] == #[trigger] key[q]);
    assert(l[kl] == ':');
    assert(l[kl + 1] == ' ');
    assert(l[kl + 2] == '[');
    assert(forall|q: int| 0 <= q < rl ==> l[kl + 3 + q] == #[trigger] render_vals(vs)[q]);
    assert(l[kl + 3 + rl] == ']');
    lemma_scan_from_is(l, 0, 0, |c: char| is_space(c));
    lemma_scan_from_is(l, 0, kl, |c: char| is_ident_char(c));
    lemma_scan_from_is(l, kl, kl, |c: char| is_space(c));
    lemma_scan_from_is(l, kl + 1, kl + 2, |c: char| is_space(c));
    assert(l.subrange(0, kl) =~= key);
    if vs.len() == 0 {
        assert(l[kl + 3] == ']');
        lemma_scan_from_is(l, kl + 3, kl + 3, |c: char| is_space(c));
        assert(parse_list(l, kl + 3) == Ok::<(Seq<Seq<char>>, int), crate::grammar::Expected>(
            (Seq::empty(), kl + 4),
        ));
        lemma_scan_from_is(l, kl + 4, l.len() as int, |c: char| is_space(c));
        assert(Seq::<Seq<char>>::empty() =~= Seq::new(vs.len(), |n: int| dec_of(vs[n])));
    } else {
        lemma_dec_of_elem(vs[0]);
        if vs.len() >= 2 {
            lemma_render_vals_front(vs);
            assert(render_vals(vs)[0] == dec_of(vs[0])[0]);
        } else {
            assert(render_vals(vs) == dec_of(vs[0]));
        }
        assert(is_elem_char(l[kl + 3]));
        lemma_scan_from_is(l, kl + 3, kl + 3, |c: char| is_space(c));
        assert(l.subrange(kl + 3, kl + 3 + rl + 1) =~= render_vals(vs).push(']'));
        lemma_parse_rendered_elems(l, kl + 3, kl + 3, vs);
        match parse_elems(l, kl + 3) {
            Ok(pr) => {
                assert(parse_list(l, kl + 3) == parse_elems(l, kl + 3));
                assert(pr.1 == l.len());
                lemma_scan_from_is(l, pr.1, l.len() as int, |c: char| is_space(c));
                assert(pr.0 =~= Seq::new(vs.len(), |n: int| dec_of(vs[n])));
            },
            Err(_) => {
                assert(false);
            },
        }
    }
}

/// Appending line-break-free text extends the current last line.
proof fn lemma_split_append_no_nl(s: Seq<char>, t: Seq<char>)
    requires
        forall|q: int| 0 <= q < t.len() ==> #[trigger] t[q] != '\n',
    ensures
        split_lines(s + t) == split_lines(s).drop_last().push(split_lines(s).last() + t),
    decreases t.len(),
{
    crate::grammar::lemma_split_lines_len(s);
    if t.len() == 0 {
        assert(s + t =~= s);
        assert(split_lines(s).last() + t =~= split_lines(s).last());
        assert(split_lines(s).drop_last().push(split_lines(s).last()) =~= split_lines(s));
    } else {
        lemma_split_append_no_nl(s, t.drop_last());
        assert(s + t =~= (s + t.drop_last()).push(t.last()));
        lemma_split_lines_snoc(s + t.drop_last(), t.last());
        assert(t.last() != '\n');
        assert(split_lines(s).last() + t.drop_last() + seq![t.last()] =~= split_lines(s).last()
            + t);
        assert(split_lines(s + t) =~~= split_lines(s).drop_last().push(split_lines(s).last() + t));
    }
}

/// The lines of a rendered document are the rendered lines, then one final
/// empty line from the trailing line break.
proof fn lemma_split_render_doc(es: Seq<(Seq<char>, Seq<int>)>)
    requires
        forall|n: int| 0 <= n < es.len() ==> is_identifier((#[trigger] es[n]).0),
    ensures
        split_lines(render_doc(es)) == rendered_lines(es).push(Seq::<char>::empty()),
    decreases es.len(),
{
    if es.len() == 0 {
        assert(split_lines(render_doc(es)) =~~= rendered_lines(es).push(Seq::<char>::empty()));
    } else {
        let dl = es.drop_last();
        assert(forall|n: int| 0 <= n < dl.len() ==> dl[n] == #[trigger] es[n]);
        lemma_split_render_doc(dl);
        let line = render_line(es.last().0, es.last().1);
        lemma_render_line_no_nl(es.last().0, es.last().1);
        lemma_split_append_no_nl(render_doc(dl), line);
        lemma_split_lines_snoc(render_doc(dl) + line, '\n');
        assert(render_doc(es) =~= (render_doc(dl) + line).push('\n'));
        assert(split_lines(render_doc(dl)).last() + line =~= line);
        assert(split_lines(render_doc(es)) =~~= rendered_lines(es).push(Seq::<char>::empty()));
    }
}

proof fn lemma_render_vals_chars(vs: Seq<int>)
    ensures
        forall|q: int|
            0 <= q < render_vals(vs).len() ==> (#[trigger] render_vals(vs)[q] == ','
                || render_vals(vs)[q] == ' ' || is_elem_char(render_vals(vs)[q])),
    decreases vs.len(),
{
    if vs.len() == 1 {
        lemma_dec_of_elem(vs[0]);
        assert(render_vals(vs) == dec_of(vs[0]));
    } else if vs.len() >= 2 {
        lemma_render_vals_chars(vs.drop_last());
        lemma_dec_of_elem(vs.last());
        let front = render_vals(vs.drop_last());
        let d = dec_of(vs.last());
        assert(render_vals(vs) == front + seq![',', ' '] + d);
        assert forall|q: int|
            0 <= q < render_vals(vs).len() implies (#[trigger] render_vals(vs)[q] == ','
            || render_vals(vs)[q] == ' ' || is_elem_char(render_vals(vs)[q])) by {
            if q < front.len() {
                assert(render_vals(vs)[q] == front[q]);
            } else if q < front.len() + 2 {
            } else {
                assert(render_vals(vs)[q] == d[q - front.len() - 2]);
            }
        }
    }
}

proof fn lemma_render_line_no_nl(key: Seq<char>, vs: Seq<int>)
    requires
        is_identifier(key),
    ensures
        forall|q: int| 0 <= q < render_line(key, vs).len() ==> #[trigger] render_line(key, vs)[q]
            != '\n',
{
    lemma_render_vals_chars(vs);
    let l = render_line(key, vs);
    assert forall|q: int| 0 <= q < l.len() implies #[trigger] l[q] != '\n' by {
        let kl = key.len() as int;
        let rl = render_vals(vs).len() as int;
        if q < kl {
            assert(l[q] == key[q]);
        } else if q < kl + 3 {
        } else if q < kl + 3 + rl {
            assert(l[q] == render_vals(vs)[q - kl - 3]);
        } else {
            assert(l[q] == ']');
        }
    }
}

/// The pairs of a rendered document, in order: its entries, each value as
/// its decimal literal.
proof fn lemma_pairs_of_rendered(es: Seq<(Seq<char>, Seq<int>)>)
    requires
        forall|n: int| 0 <= n < es.len() ==> is_identifier((#[trigger] es[n]).0),
        forall|n: int, q: int|
            0 <= n < es.len() && 0 <= q < es[n].1.len() ==> i32::MIN <= #[trigger] es[n].1[q]
                <= i32::MAX,
    ensures
        pairs_of(rendered_lines(es)).len() == es.len(),
        forall|n: int|
            0 <= n < es.len() ==> #[trigger] pairs_of(rendered_lines(es))[n] == (
            es[n].0,
            Seq::new(es[n].1.len(), |q: int| dec_of(es[n].1[q])),
        ),
    decreases es.len(),
{
    if es.len() > 0 {
        let dl = es.drop_last();
        assert(forall|n: int| 0 <= n < dl.len() ==> dl[n] == #[trigger] es[n]);
        lemma_pairs_of_rendered(dl);
        assert(rendered_lines(es).drop_last() =~= rendered_lines(dl));
        assert(rendered_lines(es).last() == render_line(es.last().0, es.last().1));
        lemma_classify_render_line(es.last().0, es.last().1);
        let n0 = es.len() - 1;
        assert forall|n: int|
            0 <= n < es.len() implies #[trigger] pairs_of(rendered_lines(es))[n] == (
            es[n].0,
            Seq::new(es[n].1.len(), |q: int| dec_of(es[n].1[q])),
        ) by {
            if n < n0 {
                assert(pairs_of(rendered_lines(es))[n] == pairs_of(rendered_lines(dl))[n]);
                assert(dl[n] == es[n]);
                assert(Seq::new(dl[n].1.len(), |q: int| dec_of(dl[n].1[q])) =~= Seq::new(
                    es[n].1.len(),
                    |q: int| dec_of(es[n].1[q]),
                ));
            } else {
                assert(Seq::new(es[n0].1.len(), |q: int| dec_of(vstd::prelude::Seq::last(es).1[q]))
                    =~= Seq::new(es[n0].1.len(), |q: int| dec_of(es[n0].1[q])));
            }
        }
    }
}

/// Round trip: rendering any entry sequence whose keys are identifiers and
/// whose values fit in 32 bits gives a well-formed document that parses
/// back to exactly the mapping those entries build.
pub proof fn lemma_render_round_trip(es: Seq<(Seq<char>, Seq<int>)>)
    requires
        forall|n: int| 0 <= n < es.len() ==> is_identifier((#[trigger] es[n]).0),
        forall|n: int, q: int|
            0 <= n < es.len() && 0 <= q < es[n].1.len() ==> i32::MIN <= #[trigger] es[n].1[q]
                <= i32::MAX,
    ensures
        doc_wf(render_doc(es)),
        doc_values_ok(render_doc(es)),
        doc_map(render_doc(es)) == map_of_entries(es),
{
    let s = render_doc(es);
    lemma_split_render_doc(es);
    lemma_scan_from_is(Seq::<char>::empty(), 0, 0, |c: char| is_space(c));
    assert(classify_line(Seq::<char>::empty()) is Blank);
    assert forall|n: int| 0 <= n < split_lines(s).len() implies line_ok(
        #[trigger] split_lines(s)[n],
    ) by {
        if n < es.len() {
            assert(split_lines(s)[n] == render_line(es[n].0, es[n].1));
            lemma_classify_render_line(es[n].0, es[n].1);
        } else {
            assert(split_lines(s)[n] == Seq::<char>::empty());
        }
    }
    assert(split_lines(s).drop_last() =~= rendered_lines(es));
    assert(classify_line(split_lines(s).last()) is Blank);
    assert(pairs_of(split_lines(s)) == pairs_of(rendered_lines(es)));
    lemma_pairs_of_rendered(es);
    assert forall|n: int| 0 <= n < doc_pairs(s).len() implies pair_values_ok(
        (#[trigger] doc_pairs(s)[n]).1,
    ) by {
        let elems = doc_pairs(s)[n].1;
        assert forall|q: int| 0 <= q < elems.len() implies convertible(#[trigger] elems[q]) by {
            assert(elems[q] == dec_of(es[n].1[q]));
            lemma_dec_of_round_trip(es[n].1[q]);
        }
    }
    assert forall|n: int| 0 <= n < es.len() implies #[trigger] doc_entries(s)[n] == es[n] by {
        let p = doc_pairs(s)[n];
        assert(p.0 == es[n].0);
        assert forall|q: int| 0 <= q < es[n].1.len() implies #[trigger] entry_of_pair(p).1[q]
            == es[n].1[q] by {
            assert(p.1[q] == dec_of(es[n].1[q]));
            lemma_dec_of_round_trip(es[n].1[q]);
        }
        assert(entry_of_pair(p).1 =~= es[n].1);
    }
    assert(doc_entries(s) =~~= es);
}

} // verus!
