//! The parse engine: drives the grammar over the input text, then converts
//! the matched literals and assembles the final mapping.
//!
//! A parse has two phases.  The structural phase classifies every line
//! against the grammar; any malformed line aborts the parse with a syntax
//! error.  Only then does the semantic phase convert each element to a
//! 32-bit integer and build the mapping, aborting on the first element that
//! does not denote one.

use vstd::prelude::*;
use crate::error::ParseError;
use crate::grammar::{
    bad_line_index, classify_line, doc_expected, doc_pairs, doc_wf, first_where, is_elem_char,
    is_ident_char, is_space, lemma_first_where, lemma_pairs_keys_identifiers, lemma_scan_from_is,
    line_ok, pairs_of, parse_elems, parse_list, shape_elems, shape_expected, shape_key, skip_elem,
    skip_ident, skip_spaces, split_lines, Expected,
};
use crate::mapping::{int_values, map_of_entries, KvMap};
use crate::numbers::{convert_elem, convertible, lit_val, reason_of, ConversionReason};
use crate::text::{chars_of, push_char};

verus! {

/// Every element of one pair's list denotes a 32-bit integer.
pub open spec fn pair_values_ok(elems: Seq<Seq<char>>) -> bool {
    forall|i: int| 0 <= i < elems.len() ==> convertible(#[trigger] elems[i])
}

/// Every element of every pair of the document converts.
pub open spec fn doc_values_ok(s: Seq<char>) -> bool {
    forall|n: int| 0 <= n < doc_pairs(s).len() ==> pair_values_ok((#[trigger] doc_pairs(s)[n]).1)
}

/// One pair with its elements converted to integers.
pub open spec fn entry_of_pair(p: (Seq<char>, Seq<Seq<char>>)) -> (Seq<char>, Seq<int>) {
    (p.0, Seq::new(p.1.len(), |i: int| lit_val(p.1[i])))
}

/// The document's entries, in document order, values converted.
pub open spec fn doc_entries(s: Seq<char>) -> Seq<(Seq<char>, Seq<int>)> {
    Seq::new(doc_pairs(s).len(), |n: int| entry_of_pair(doc_pairs(s)[n]))
}

/// The mapping a well-formed document denotes: later pairs overwrite
/// earlier ones with the same key.
pub open spec fn doc_map(s: Seq<char>) -> Map<Seq<char>, Seq<int>> {
    map_of_entries(doc_entries(s))
}

/// Index of the first pair with an inconvertible element.
pub open spec fn bad_pair_index(s: Seq<char>) -> int {
    first_where(doc_pairs(s), |p: (Seq<char>, Seq<Seq<char>>)| !pair_values_ok(p.1))
}

/// The key a conversion error reports: the first pair, in document order,
/// with an element that does not denote a 32-bit integer.
pub open spec fn conversion_key(s: Seq<char>) -> Seq<char> {
    doc_pairs(s)[bad_pair_index(s)].0
}

/// The reason a conversion error reports, taken from the first failing
/// element of that pair.
pub open spec fn conversion_reason(s: Seq<char>) -> ConversionReason {
    let elems = doc_pairs(s)[bad_pair_index(s)].1;
    reason_of(elems[first_where(elems, |t: Seq<char>| !convertible(t))])
}

fn scan_spaces_exec(l: &Vec<char>, i: usize) -> (j: usize)
    requires
        i <= l@.len(),
    ensures
        i <= j <= l@.len(),
        j as int == skip_spaces(l@, i as int),
{
    let mut j = i;
    loop
        invariant
            i <= j <= l@.len(),
            forall|k: int| i <= k < j ==> is_space(l@[k]),
        ensures
            i <= j <= l@.len(),
            forall|k: int| i <= k < j ==> is_space(l@[k]),
            j == l@.len() || !is_space(l@[j as int]),
        decreases l@.len() - j,
    {
        if j == l.len() {
            break ;
        }
        let c = l[j];
        if !(c == ' ' || c == '\t' || c == '\r') {
            break ;
        }
        j = j + 1;
    }
    proof {
        lemma_scan_from_is(l@, i as int, j as int, |c: char| is_space(c));
    }
    j
}

fn scan_ident_exec(l: &Vec<char>, i: usize) -> (j: usize)
    requires
        i <= l@.len(),
    ensures
        i <= j <= l@.len(),
        j as int == skip_ident(l@, i as int),
{
    let mut j = i;
    loop
        invariant
            i <= j <= l@.len(),
            forall|k: int| i <= k < j ==> is_ident_char(l@[k]),
        ensures
            i <= j <= l@.len(),
            forall|k: int| i <= k < j ==> is_ident_char(l@[k]),
            j == l@.len() || !is_ident_char(l@[j as int]),
        decreases l@.len() - j,
    {
        if j == l.len() {
            break ;
        }
        let c = l[j];
        let u = c as u32;
        if !((97 <= u && u <= 122) || (65 <= u && u <= 90) || (48 <= u && u <= 57) || c == '_') {
            assert(!is_ident_char(l@[j as int]));
            break ;
        }
        j = j + 1;
    }
    proof {
        lemma_scan_from_is(l@, i as int, j as int, |c: char| is_ident_char(c));
    }
    j
}

fn scan_elem_exec(l: &Vec<char>, i: usize) -> (j: usize)
    requires
        i <= l@.len(),
    ensures
        i <= j <= l@.len(),
        j as int == skip_elem(l@, i as int),
{
    let mut j = i;
    loop
        invariant
            i <= j <= l@.len(),
            forall|k: int| i <= k < j ==> is_elem_char(l@[k]),
        ensures
            i <= j <= l@.len(),
            forall|k: int| i <= k < j ==> is_elem_char(l@[k]),
            j == l@.len() || !is_elem_char(l@[j as int]),
        decreases l@.len() - j,
    {
        if j == l.len() {
            break ;
        }
        let c = l[j];
        let u = c as u32;
        if !((97 <= u && u <= 122) || (65 <= u && u <= 90) || (48 <= u && u <= 57) || c == '_' || c
            == '-') {
            assert(!is_elem_char(l@[j as int]));
            break ;
        }
        j = j + 1;
    }
    proof {
        lemma_scan_from_is(l@, i as int, j as int, |c: char| is_elem_char(c));
    }
    j
}

/// Split the document's characters into its lines.
#[verifier::loop_isolation(false)]
fn split_doc(chars: &Vec<char>) -> (lines: Vec<Vec<char>>)
    ensures
        lines@.len() == split_lines(chars@).len(),
        forall|k: int| 0 <= k < lines@.len() ==> (#[trigger] lines@[k])@ == split_lines(chars@)[k],
{
    let mut lines: Vec<Vec<char>> = Vec::new();
    let mut cur: Vec<char> = Vec::new();
    let mut i: usize = 0;
    while i < chars.len()
        invariant
            i <= chars@.len(),
            split_lines(chars@.take(i as int)).len() == lines@.len() + 1,
            forall|k: int|
                0 <= k < lines@.len() ==> (#[trigger] lines@[k])@ == split_lines(
                    chars@.take(i as int),
                )[k],
            split_lines(chars@.take(i as int)).last() == cur@,
        decreases chars@.len() - i,
    {
        let c = chars[i];
        proof {
            crate::grammar::lemma_split_lines_snoc(chars@.take(i as int), c);
            assert(chars@.take(i + 1) =~= chars@.take(i as int).push(c));
        }
        if c == '\n' {
            lines.push(cur);
            cur = Vec::new();
        } else {
            cur.push(c);
        }
        i = i + 1;
    }
    proof {
        assert(chars@.take(chars@.len() as int) =~= chars@);
    }
    lines.push(cur);
    lines
}

/// A copy of the characters `l[from..to]`.
#[verifier::loop_isolation(false)]
fn copy_range(l: &Vec<char>, from: usize, to: usize) -> (r: Vec<char>)
    requires
        from <= to <= l@.len(),
    ensures
        r@ == l@.subrange(from as int, to as int),
{
    let mut r: Vec<char> = Vec::new();
    let mut t = from;
    while t < to
        invariant
            from <= t <= to,
            r@ == l@.subrange(from as int, t as int),
        decreases to - t,
    {
        r.push(l[t]);
        proof {
            assert(l@.subrange(from as int, t + 1) =~= l@.subrange(from as int, t as int).push(
                l@[t as int],
            ));
        }
        t = t + 1;
    }
    r
}

/// Parse the element list after `[`, mirroring the grammar's `parse_elems`.
#[verifier::loop_isolation(false)]
fn parse_elems_exec(l: &Vec<char>, i: usize) -> (r: Result<(Vec<Vec<char>>, usize), Expected>)
    requires
        i <= l@.len(),
    ensures
        match r {
            Ok(p) => {
                &&& parse_elems(l@, i as int) matches Ok(pr)
                &&& pr.0.len() == p.0@.len()
                &&& (forall|n: int| 0 <= n < p.0@.len() ==> (#[trigger] p.0@[n])@ == pr.0[n])
                &&& pr.1 == p.1 as int
                &&& p.1 <= l@.len()
            },
            Err(e) => parse_elems(l@, i as int) == Err::<(Seq<Seq<char>>, int), Expected>(e),
        },
{
    let mut elems: Vec<Vec<char>> = Vec::new();
    let mut cur = i;
    loop
        invariant
            i <= cur <= l@.len(),
            parse_elems(l@, cur as int) matches Ok(pr) ==> parse_elems(l@, i as int) matches Ok(pr0)
                && pr0.1 == pr.1 && pr0.0.len() == elems@.len() + pr.0.len() && (forall|n: int|
                0 <= n < elems@.len() ==> pr0.0[n] == (#[trigger] elems@[n])@) && (forall|n: int|
                0 <= n < pr.0.len() ==> pr0.0[elems@.len() + n] == #[trigger] pr.0[n]),
            parse_elems(l@, cur as int) is Err ==> parse_elems(l@, i as int) == parse_elems(
                l@,
                cur as int,
            ),
        decreases l@.len() - cur,
    {
        let j = scan_spaces_exec(l, cur);
        let k = scan_elem_exec(l, j);
        if k == j {
            assert(parse_elems(l@, cur as int) == Err::<(Seq<Seq<char>>, int), Expected>(
                Expected::Value,
            ));
            return Err(Expected::Value);
        }
        let elem = copy_range(l, j, k);
        let m = scan_spaces_exec(l, k);
        let ghost sub = l@.subrange(j as int, k as int);
        let ghost old_elems = elems@;
        if m < l.len() && l[m] == ',' {
            elems.push(elem);
            proof {
                match parse_elems(l@, (m + 1) as int) {
                    Ok(prr) => {
                        let pr = (seq![sub] + prr.0, prr.1);
                        assert(parse_elems(l@, cur as int) == Ok::<(Seq<Seq<char>>, int), Expected>(
                            pr,
                        ));
                        match parse_elems(l@, i as int) {
                            Ok(pr0) => {
                                assert(pr0.0.len() == elems@.len() + prr.0.len());
                                assert forall|n: int|
                                    0 <= n < elems@.len() implies pr0.0[n] == (
                                #[trigger] elems@[n])@ by {
                                    if n < old_elems.len() {
                                        assert(elems@[n] == old_elems[n]);
                                    } else {
                                        assert(elems@[n] == elem);
                                        assert(pr0.0[old_elems.len() as int] == pr.0[0]);
                                        assert(pr.0[0] == sub);
                                    }
                                }
                                assert forall|n: int|
                                    0 <= n < prr.0.len() implies pr0.0[elems@.len() + n]
                                    == #[trigger] prr.0[n] by {
                                    assert(pr0.0[old_elems.len() + (n + 1)] == pr.0[n + 1]);
                                    assert(pr.0[n + 1] == prr.0[n]);
                                }
                            },
                            Err(_) => {
                                assert(false);
                            },
                        }
                    },
                    Err(e) => {
                        assert(parse_elems(l@, cur as int) == Err::<
                            (Seq<Seq<char>>, int),
                            Expected,
                        >(e));
                    },
                }
            }
            cur = m + 1;
        } else if m < l.len() && l[m] == ']' {
            elems.push(elem);
            proof {
                let pr = (seq![sub], (m + 1) as int);
                assert(parse_elems(l@, cur as int) == Ok::<(Seq<Seq<char>>, int), Expected>(pr));
                match parse_elems(l@, i as int) {
                    Ok(pr0) => {
                        assert(pr0.0.len() == elems@.len());
                        assert forall|n: int|
                            0 <= n < elems@.len() implies (#[trigger] elems@[n])@ == pr0.0[n] by {
                            if n < old_elems.len() {
                                assert(elems@[n] == old_elems[n]);
                            } else {
                                assert(elems@[n] == elem);
                                assert(pr0.0[old_elems.len() as int] == pr.0[0]);
                                assert(pr.0[0] == sub);
                            }
                        }
                    },
                    Err(_) => {
                        assert(false);
                    },
                }
            }
            return Ok((elems, m + 1));
        } else {
            assert(parse_elems(l@, cur as int) == Err::<(Seq<Seq<char>>, int), Expected>(
                Expected::CommaOrClose,
            ));
            return Err(Expected::CommaOrClose);
        }
    }
}

/// Parse the bracketed list, mirroring the grammar's `parse_list`.
#[verifier::loop_isolation(false)]
fn parse_list_exec(l: &Vec<char>, i: usize) -> (r: Result<(Vec<Vec<char>>, usize), Expected>)
    requires
        i <= l@.len(),
    ensures
        match r {
            Ok(p) => {
                &&& parse_list(l@, i as int) matches Ok(pr)
                &&& pr.0.len() == p.0@.len()
                &&& (forall|n: int| 0 <= n < p.0@.len() ==> (#[trigger] p.0@[n])@ == pr.0[n])
                &&& pr.1 == p.1 as int
                &&& p.1 <= l@.len()
            },
            Err(e) => parse_list(l@, i as int) == Err::<(Seq<Seq<char>>, int), Expected>(e),
        },
{
    let j = scan_spaces_exec(l, i);
    if j < l.len() && l[j] == ']' {
        let r: Vec<Vec<char>> = Vec::new();
        return Ok((r, j + 1));
    }
    parse_elems_exec(l, i)
}

/// Classify one line, handing back the pair's pieces when there is one.
#[verifier::loop_isolation(false)]
fn classify_exec(l: &Vec<char>) -> (r: Result<Option<(String, Vec<Vec<char>>)>, Expected>)
    ensures
        match r {
            Ok(opt) => match opt {
                None => classify_line(l@) is Blank || classify_line(l@) is Comment,
                Some(p) => {
                    &&& classify_line(l@) is Pair
                    &&& p.0@ == shape_key(classify_line(l@))
                    &&& p.1@.len() == shape_elems(classify_line(l@)).len()
                    &&& (forall|n: int|
                        0 <= n < p.1@.len() ==> (#[trigger] p.1@[n])@ == shape_elems(
                            classify_line(l@),
                        )[n])
                },
            },
            Err(e) => classify_line(l@) is Malformed && e == shape_expected(classify_line(l@)),
        },
{
    let i0 = scan_spaces_exec(l, 0);
    if i0 == l.len() {
        return Ok(None);
    }
    if l[i0] == '#' {
        return Ok(None);
    }
    let i1 = scan_ident_exec(l, i0);
    if i1 == i0 {
        return Err(Expected::IdentifierOrComment);
    }
    let i2 = scan_spaces_exec(l, i1);
    if !(i2 < l.len() && l[i2] == ':') {
        return Err(Expected::Colon);
    }
    let i3 = scan_spaces_exec(l, i2 + 1);
    if !(i3 < l.len() && l[i3] == '[') {
        return Err(Expected::OpenBracket);
    }
    match parse_list_exec(l, i3 + 1) {
        Err(e) => Err(e),
        Ok((elems, end)) => {
            let i4 = scan_spaces_exec(l, end);
            if i4 != l.len() {
                return Err(Expected::EndOfLine);
            }
            let mut key = String::new();
            let mut t = i0;
            while t < i1
                invariant
                    i0 <= t <= i1 <= l@.len(),
                    key@ == l@.subrange(i0 as int, t as int),
                decreases i1 - t,
            {
                push_char(&mut key, l[t]);
                proof {
                    assert(l@.subrange(i0 as int, t + 1) =~= l@.subrange(i0 as int, t as int).push(
                        l@[t as int],
                    ));
                }
                t = t + 1;
            }
            Ok(Some((key, elems)))
        },
    }
}

/// Parse a whole document.
///
/// On success the mapping holds exactly the document's pairs, later pairs
/// overwriting earlier ones with the same key.  A document with a malformed
/// line is rejected with a syntax error naming the first such line and the
/// construct expected there; a well-formed document with an element that
/// does not denote a 32-bit integer is rejected with a conversion error
/// naming the first such pair's key.  No partial mapping is ever returned.
#[verifier::loop_isolation(false)]
pub fn parse_key_value_pairs(text: &str) -> (r: Result<KvMap, ParseError>)
    ensures
        match r {
            Ok(m) => doc_wf(text@) && doc_values_ok(text@) && m@ == doc_map(text@),
            Err(e) => match e {
                ParseError::Syntax { line, expected } => {
                    &&& !doc_wf(text@)
                    &&& line as int == bad_line_index(text@) + 1
                    &&& expected == doc_expected(text@)
                },
                ParseError::Conversion { key, reason } => {
                    &&& doc_wf(text@)
                    &&& !doc_values_ok(text@)
                    &&& key@ == conversion_key(text@)
                    &&& reason == conversion_reason(text@)
                },
            },
        },
{
    let ghost s = text@;
    let chars = chars_of(text);
    let lines = split_doc(&chars);
    let ghost lines_s = split_lines(s);

    // Structural phase: every line must conform to the grammar.
    let mut raw: Vec<(String, Vec<Vec<char>>)> = Vec::new();
    let mut li: usize = 0;
    while li < lines.len()
        invariant
            li <= lines@.len(),
            forall|k: int| 0 <= k < li ==> line_ok(#[trigger] lines_s[k]),
            raw@.len() == pairs_of(lines_s.take(li as int)).len(),
            forall|n: int|
                0 <= n < raw@.len() ==> raw_matches(
                    #[trigger] raw@[n],
                    pairs_of(lines_s.take(li as int))[n],
                ),
        decreases lines@.len() - li,
    {
        let ghost tp = pairs_of(lines_s.take(li as int));
        proof {
            assert(lines_s.take(li + 1).drop_last() =~= lines_s.take(li as int));
            assert(lines_s.take(li + 1).last() == lines_s[li as int]);
        }
        match classify_exec(&lines[li]) {
            Err(e) => {
                proof {
                    lemma_first_where(lines_s, |l: Seq<char>| !line_ok(l), li as int);
                }
                return Err(ParseError::Syntax { line: li + 1, expected: e });
            },
            Ok(None) => {
                proof {
                    assert(pairs_of(lines_s.take(li + 1)) == tp);
                }
            },
            Ok(Some(p)) => {
                let ghost sh = classify_line(lines_s[li as int]);
                proof {
                    assert(pairs_of(lines_s.take(li + 1)) == tp.push((shape_key(sh), shape_elems(
                        sh,
                    ))));
                }
                raw.push(p);
            },
        }
        li = li + 1;
    }
    proof {
        assert(lines_s.take(lines_s.len() as int) =~= lines_s);
        assert(doc_wf(s));
        lemma_pairs_keys_identifiers(lines_s);
    }
    let ghost tp_full = pairs_of(lines_s);

    // Semantic phase: convert every element, building the mapping.
    let mut m = KvMap::new();
    let mut pi: usize = 0;
    while pi < raw.len()
        invariant
            pi <= raw@.len(),
            raw@.len() == tp_full.len(),
            forall|n: int| 0 <= n < raw@.len() ==> raw_matches(#[trigger] raw@[n], tp_full[n]),
            forall|n: int| 0 <= n < pi ==> pair_values_ok((#[trigger] tp_full[n]).1),
            m@ == map_of_entries(doc_entries(s).take(pi as int)),
        decreases raw@.len() - pi,
    {
        let ghost elems_s = tp_full[pi as int].1;
        let n_elems = raw[pi].1.len();
        let mut vals: Vec<i32> = Vec::new();
        let mut ei: usize = 0;
        while ei < n_elems
            invariant
                ei <= n_elems,
                pi < raw@.len(),
                n_elems == raw@[pi as int].1@.len(),
                vals@.len() == ei,
                forall|w: int|
                    0 <= w < ei ==> convertible(#[trigger] elems_s[w]) && vals@[w] as int
                        == lit_val(elems_s[w]),
            decreases n_elems - ei,
        {
            match convert_elem(&raw[pi].1[ei]) {
                Ok(v) => {
                    vals.push(v);
                },
                Err(reason) => {
                    proof {
                        assert(!convertible(elems_s[ei as int]));
                        assert(!pair_values_ok(tp_full[pi as int].1));
                        lemma_first_where(
                            tp_full,
                            |p: (Seq<char>, Seq<Seq<char>>)| !pair_values_ok(p.1),
                            pi as int,
                        );
                        lemma_first_where(elems_s, |t: Seq<char>| !convertible(t), ei as int);
                        assert(!doc_values_ok(s));
                    }
                    let key = raw[pi].0.clone();
                    return Err(ParseError::Conversion { key, reason });
                },
            }
            ei = ei + 1;
        }
        assert(pair_values_ok(tp_full[pi as int].1));
        let key = raw[pi].0.clone();
        let ghost m_before = m@;
        m.insert(key, vals);
        proof {
            assert(int_values(vals@) =~= entry_of_pair(tp_full[pi as int]).1);
            assert(doc_entries(s).take(pi + 1).drop_last() =~= doc_entries(s).take(pi as int));
            assert(doc_entries(s).take(pi + 1).last() == entry_of_pair(tp_full[pi as int]));
            assert(m@ =~= map_of_entries(doc_entries(s).take(pi + 1)));
        }
        pi = pi + 1;
    }
    proof {
        assert(doc_values_ok(s));
        assert(doc_entries(s).take(doc_entries(s).len() as int) =~= doc_entries(s));
    }
    Ok(m)
}

/// An executable pair matches a pair of the grammar's match tree.
pub open spec fn raw_matches(rp: (String, Vec<Vec<char>>), p: (Seq<char>, Seq<Seq<char>>)) -> bool {
    &&& rp.0@ == p.0
    &&& rp.1@.len() == p.1.len()
    &&& forall|m: int| 0 <= m < p.1.len() ==> (#[trigger] rp.1@[m])@ == p.1[m]
}

/// A document of nothing but comments and blank lines denotes the empty
/// mapping.
pub proof fn lemma_comments_and_blanks(s: Seq<char>)
    requires
        forall|i: int|
            0 <= i < split_lines(s).len() ==> (classify_line(#[trigger] split_lines(s)[i])
                is Blank || classify_line(split_lines(s)[i]) is Comment),
    ensures
        doc_wf(s),
        doc_values_ok(s),
        doc_map(s) == Map::<Seq<char>, Seq<int>>::empty(),
{
    lemma_pairs_of_no_pairs(split_lines(s));
    assert(doc_entries(s) =~= Seq::<(Seq<char>, Seq<int>)>::empty());
}

proof fn lemma_pairs_of_no_pairs(lines: Seq<Seq<char>>)
    requires
        forall|i: int|
            0 <= i < lines.len() ==> (classify_line(#[trigger] lines[i]) is Blank || classify_line(
                lines[i],
            ) is Comment),
    ensures
        pairs_of(lines) == Seq::<(Seq<char>, Seq<Seq<char>>)>::empty(),
    decreases lines.len(),
{
    if lines.len() > 0 {
        assert(forall|i: int|
            0 <= i < lines.drop_last().len() ==> lines.drop_last()[i] == #[trigger] lines[i]);
        lemma_pairs_of_no_pairs(lines.drop_last());
    }
}

} // verus!
