//! The grammar of the configuration format, as specification functions over
//! sequences of characters.
//!
//! A document splits into lines at `'\n'`.  Each line is classified as blank,
//! comment, a key/value pair, or malformed; classification is deterministic,
//! scanning left to right exactly as the executable parser does.

use vstd::prelude::*;

verus! {

/// Horizontal whitespace, tolerated around every token of a line.
pub open spec fn is_space(c: char) -> bool {
    c == ' ' || c == '\t' || c == '\r'
}

/// Decimal digit.
pub open spec fn is_digit(c: char) -> bool {
    48 <= c as u32 && c as u32 <= 57
}

/// Characters an identifier may consist of: letters, digits, underscore.
pub open spec fn is_ident_char(c: char) -> bool {
    (97 <= c as u32 && c as u32 <= 122)  // 'a'..='z'
    || (65 <= c as u32 && c as u32 <= 90)  // 'A'..='Z'
    || is_digit(c)
    || c == '_'
}

/// Characters a list element may consist of.  The grammar only fixes the
/// lexical shape of an element; whether it denotes a representable integer
/// is decided later, during conversion.  Letting letters through here is
/// deliberate: an element like `two` is then rejected by the conversion
/// phase, which can name the key it belongs to, rather than by the grammar.
pub open spec fn is_elem_char(c: char) -> bool {
    is_ident_char(c) || c == '-'
}

/// A non-empty run of identifier characters.
pub open spec fn is_identifier(t: Seq<char>) -> bool {
    t.len() > 0 && forall|i: int| 0 <= i < t.len() ==> is_ident_char(t[i])
}

/// Index of the first position at or after `i` whose character fails `p`
/// (or the end of the line).
pub open spec fn scan_from(l: Seq<char>, i: int, p: spec_fn(char) -> bool) -> int
    decreases l.len() - i
        when 0 <= i <= l.len()
{
    if i < l.len() && p(l[i]) {
        scan_from(l, i + 1, p)
    } else {
        i
    }
}

/// Everything `scan_from` guarantees about its result.
pub proof fn lemma_scan_from_bounds(l: Seq<char>, i: int, p: spec_fn(char) -> bool)
    requires
        0 <= i <= l.len(),
    ensures
        i <= scan_from(l, i, p) <= l.len(),
        forall|k: int| i <= k < scan_from(l, i, p) ==> p(l[k]),
        scan_from(l, i, p) == l.len() || !p(l[scan_from(l, i, p)]),
    decreases l.len() - i,
{
    if i < l.len() && p(l[i]) {
        lemma_scan_from_bounds(l, i + 1, p);
    }
}

/// Conversely, any position with these properties is the scan result.
pub proof fn lemma_scan_from_is(l: Seq<char>, i: int, j: int, p: spec_fn(char) -> bool)
    requires
        0 <= i <= j <= l.len(),
        forall|k: int| i <= k < j ==> p(l[k]),
        j == l.len() || !p(l[j]),
    ensures
        scan_from(l, i, p) == j,
    decreases j - i,
{
    if i < j {
        lemma_scan_from_is(l, i + 1, j, p);
    }
}

/// End of the whitespace run starting at `i`.
pub open spec fn skip_spaces(l: Seq<char>, i: int) -> int {
    scan_from(l, i, |c: char| is_space(c))
}

/// End of the identifier-character run starting at `i`.
pub open spec fn skip_ident(l: Seq<char>, i: int) -> int {
    scan_from(l, i, |c: char| is_ident_char(c))
}

/// End of the element-character run starting at `i`.
pub open spec fn skip_elem(l: Seq<char>, i: int) -> int {
    scan_from(l, i, |c: char| is_elem_char(c))
}

/// The construct a malformed line was missing at the point where
/// classification failed.
#[derive(Clone, Copy, Debug, PartialEq, Eq, Structural)]
pub enum Expected {
    IdentifierOrComment,
    Colon,
    OpenBracket,
    Value,
    CommaOrClose,
    EndOfLine,
}

/// The shape of one line of the document.
pub enum LineShape {
    Blank,
    Comment,
    Pair { key: Seq<char>, elems: Seq<Seq<char>> },
    Malformed { expected: Expected },
}

pub open spec fn shape_key(sh: LineShape) -> Seq<char> {
    match sh {
        LineShape::Pair { key, elems } => key,
        _ => arbitrary(),
    }
}

pub open spec fn shape_elems(sh: LineShape) -> Seq<Seq<char>> {
    match sh {
        LineShape::Pair { key, elems } => elems,
        _ => arbitrary(),
    }
}

pub open spec fn shape_expected(sh: LineShape) -> Expected {
    match sh {
        LineShape::Malformed { expected } => expected,
        _ => arbitrary(),
    }
}

/// One or more comma-separated elements, then the closing bracket.
/// `i` is a position inside the brackets, just after `[` or after a comma;
/// the result carries the position just after `]`.
pub open spec fn parse_elems(l: Seq<char>, i: int) -> Result<(Seq<Seq<char>>, int), Expected>
    decreases l.len() - i
        when 0 <= i <= l.len()
        via parse_elems_decreases
{
    let j = scan_from(l, i, |c: char| is_space(c));
    let k = scan_from(l, j, |c: char| is_elem_char(c));
    if k == j {
        Err(Expected::Value)
    } else {
        let m = scan_from(l, k, |c: char| is_space(c));
        if m < l.len() && l[m] == ',' {
            match parse_elems(l, m + 1) {
                Ok((rest, end)) => Ok((seq![l.subrange(j, k)] + rest, end)),
                Err(e) => Err(e),
            }
        } else if m < l.len() && l[m] == ']' {
            Ok((seq![l.subrange(j, k)], m + 1))
        } else {
            Err(Expected::CommaOrClose)
        }
    }
}

#[via_fn]
proof fn parse_elems_decreases(l: Seq<char>, i: int) {
    lemma_scan_from_bounds(l, i, |c: char| is_space(c));
    let j = scan_from(l, i, |c: char| is_space(c));
    lemma_scan_from_bounds(l, j, |c: char| is_elem_char(c));
    let k = scan_from(l, j, |c: char| is_elem_char(c));
    lemma_scan_from_bounds(l, k, |c: char| is_space(c));
}

/// The bracketed value list; `i` is the position just after `[`.
pub open spec fn parse_list(l: Seq<char>, i: int) -> Result<(Seq<Seq<char>>, int), Expected> {
    let j = scan_from(l, i, |c: char| is_space(c));
    if j < l.len() && l[j] == ']' {
        Ok((Seq::empty(), j + 1))
    } else {
        parse_elems(l, i)
    }
}

/// Deterministic classification of one line, scanning left to right:
/// leading whitespace, then blank, comment, or
/// `identifier ws* ':' ws* '[' elements ']' ws*`.
pub open spec fn classify_line(l: Seq<char>) -> LineShape {
    let i0 = scan_from(l, 0, |c: char| is_space(c));
    if i0 == l.len() {
        LineShape::Blank
    } else if l[i0] == '#' {
        LineShape::Comment
    } else {
        let i1 = scan_from(l, i0, |c: char| is_ident_char(c));
        if i1 == i0 {
            LineShape::Malformed { expected: Expected::IdentifierOrComment }
        } else {
            let i2 = scan_from(l, i1, |c: char| is_space(c));
            if !(i2 < l.len() && l[i2] == ':') {
                LineShape::Malformed { expected: Expected::Colon }
            } else {
                let i3 = scan_from(l, i2 + 1, |c: char| is_space(c));
                if !(i3 < l.len() && l[i3] == '[') {
                    LineShape::Malformed { expected: Expected::OpenBracket }
                } else {
                    match parse_list(l, i3 + 1) {
                        Err(e) => LineShape::Malformed { expected: e },
                        Ok((elems, end)) => {
                            let i4 = scan_from(l, end, |c: char| is_space(c));
                            if i4 == l.len() {
                                LineShape::Pair { key: l.subrange(i0, i1), elems }
                            } else {
                                LineShape::Malformed { expected: Expected::EndOfLine }
                            }
                        },
                    }
                }
            }
        }
    }
}

/// The document's lines: split at every `'\n'`.  A document with no line
/// break is one line; a trailing line break yields a final empty line.
pub open spec fn split_lines(s: Seq<char>) -> Seq<Seq<char>>
    decreases s.len(),
{
    if s.len() == 0 {
        seq![Seq::empty()]
    } else if s[0] == '\n' {
        seq![Seq::<char>::empty()] + split_lines(s.drop_first())
    } else {
        let r = split_lines(s.drop_first());
        seq![seq![s[0]] + r[0]] + r.drop_first()
    }
}

pub proof fn lemma_split_lines_len(s: Seq<char>)
    ensures
        1 <= split_lines(s).len() <= s.len() + 1,
    decreases s.len(),
{
    if s.len() > 0 {
        lemma_split_lines_len(s.drop_first());
    }
}

/// Appending one character extends the last line, or — for a line
/// break — starts a new empty line.
pub proof fn lemma_split_lines_snoc(s: Seq<char>, c: char)
    ensures
        c == '\n' ==> split_lines(s.push(c)) == split_lines(s).push(Seq::<char>::empty()),
        c != '\n' ==> split_lines(s.push(c)) == split_lines(s).drop_last().push(
            split_lines(s).last().push(c),
        ),
    decreases s.len(),
{
    lemma_split_lines_len(s);
    let t = s.push(c);
    if s.len() == 0 {
        if c == '\n' {
            assert(t.len() == 1 && t[0] == '\n');
            assert(t.drop_first() =~= Seq::<char>::empty());
            assert(split_lines(t) == seq![Seq::<char>::empty()] + split_lines(t.drop_first()));
            assert(split_lines(t.drop_first()) =~~= seq![Seq::<char>::empty()]);
            assert(s =~= Seq::<char>::empty());
            assert(split_lines(t) =~~= split_lines(s).push(Seq::<char>::empty()));
        } else {
            assert(t.drop_first() =~= Seq::<char>::empty());
            assert(seq![t[0]] + split_lines(t.drop_first())[0] =~= split_lines(s).last().push(c));
            assert(split_lines(t) =~~= split_lines(s).drop_last().push(
                split_lines(s).last().push(c),
            ));
        }
    } else {
        lemma_split_lines_snoc(s.drop_first(), c);
        lemma_split_lines_len(s.drop_first());
        assert(t.drop_first() =~= s.drop_first().push(c));
        assert(t[0] == s[0]);
        if s[0] == '\n' {
            if c == '\n' {
                assert(split_lines(t) =~~= split_lines(s).push(Seq::<char>::empty()));
            } else {
                assert(split_lines(s).len() >= 2);
                assert(split_lines(t) =~~= split_lines(s).drop_last().push(
                    split_lines(s).last().push(c),
                ));
            }
        } else {
            let r = split_lines(s.drop_first());
            if c == '\n' {
                assert(split_lines(t) =~~= split_lines(s).push(Seq::<char>::empty()));
            } else {
                let rt = split_lines(s.drop_first().push(c));
                if r.len() == 1 {
                    assert(split_lines(t) =~~= split_lines(s).drop_last().push(
                        split_lines(s).last().push(c),
                    ));
                } else {
                    assert(rt[0] == r[0]);
                    assert(split_lines(t) =~~= split_lines(s).drop_last().push(
                        split_lines(s).last().push(c),
                    ));
                }
            }
        }
    }
}

/// A line that the grammar accepts.
pub open spec fn line_ok(l: Seq<char>) -> bool {
    !(classify_line(l) is Malformed)
}

/// The whole document conforms to the grammar.
pub open spec fn doc_wf(s: Seq<char>) -> bool {
    forall|i: int| 0 <= i < split_lines(s).len() ==> line_ok(#[trigger] split_lines(s)[i])
}

/// The key/element pairs of the accepted lines, in document order.
pub open spec fn pairs_of(lines: Seq<Seq<char>>) -> Seq<(Seq<char>, Seq<Seq<char>>)>
    decreases lines.len(),
{
    if lines.len() == 0 {
        Seq::empty()
    } else {
        let init = pairs_of(lines.drop_last());
        match classify_line(lines.last()) {
            LineShape::Pair { key, elems } => init.push((key, elems)),
            _ => init,
        }
    }
}

pub open spec fn doc_pairs(s: Seq<char>) -> Seq<(Seq<char>, Seq<Seq<char>>)> {
    pairs_of(split_lines(s))
}

/// Index of the first element of `s` satisfying `p` (its length if none does).
pub open spec fn first_where<T>(s: Seq<T>, p: spec_fn(T) -> bool) -> int
    decreases s.len(),
{
    if s.len() == 0 {
        0
    } else if p(s[0]) {
        0
    } else {
        1 + first_where(s.drop_first(), p)
    }
}

pub proof fn lemma_first_where<T>(s: Seq<T>, p: spec_fn(T) -> bool, i: int)
    requires
        0 <= i < s.len(),
        p(s[i]),
        forall|k: int| 0 <= k < i ==> !p(s[k]),
    ensures
        first_where(s, p) == i,
    decreases i,
{
    if i > 0 {
        lemma_first_where(s.drop_first(), p, i - 1);
    }
}

/// Index of the first malformed line of a document that has one.
pub open spec fn bad_line_index(s: Seq<char>) -> int {
    first_where(split_lines(s), |l: Seq<char>| !line_ok(l))
}

/// The construct missing from the first malformed line.
pub open spec fn doc_expected(s: Seq<char>) -> Expected {
    shape_expected(classify_line(split_lines(s)[bad_line_index(s)]))
}

/// A line classified as a pair carries a valid identifier as its key.
pub proof fn lemma_pair_key_is_identifier(l: Seq<char>)
    ensures
        classify_line(l) is Pair ==> is_identifier(shape_key(classify_line(l))),
{
    let sp = |c: char| is_space(c);
    let idc = |c: char| is_ident_char(c);
    lemma_scan_from_bounds(l, 0, sp);
    let i0 = scan_from(l, 0, sp);
    if i0 < l.len() && l[i0] != '#' {
        lemma_scan_from_bounds(l, i0, idc);
    }
}

/// Every pair extracted from a document has a valid identifier for key.
pub proof fn lemma_pairs_keys_identifiers(lines: Seq<Seq<char>>)
    ensures
        forall|n: int|
            0 <= n < pairs_of(lines).len() ==> is_identifier(#[trigger] pairs_of(lines)[n].0),
    decreases lines.len(),
{
    if lines.len() > 0 {
        lemma_pairs_keys_identifiers(lines.drop_last());
        lemma_pair_key_is_identifier(lines.last());
        let init = pairs_of(lines.drop_last());
        assert forall|n: int|
            0 <= n < pairs_of(lines).len() implies is_identifier(
            #[trigger] pairs_of(lines)[n].0,
        ) by {
            if n < init.len() {
                assert(pairs_of(lines)[n] == init[n]);
            } else {
                assert(classify_line(lines.last()) is Pair);
                assert(pairs_of(lines)[n].0 == shape_key(classify_line(lines.last())));
            }
        }
    }
}

} // verus!
