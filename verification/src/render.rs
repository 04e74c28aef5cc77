//! The canonical text of a value, and the proof that parsing it gives the
//! value back.
use crate::grammar::{
    array_at, elements_at, is_digit, is_quoted, is_structural, is_white, is_word,
    lemma_run_end_unique, lemma_structural, literal_at, members_at, number_at, object_at,
    parse_text, string_at, value_at, yields,
};
use crate::laws::{all_digits, law_parsed_well_formed, plain, well_formed};
use crate::value::{literal_of, Literal, Tree};
use vstd::prelude::*;

verus! {

/// A value as it is written down: a tree whose objects list their members
/// in the order in which they are written.
pub enum Document {
    Literal(Literal),
    Number(Seq<char>),
    String(Seq<char>),
    Array(Seq<Document>),
    Object(Seq<(Seq<char>, Document)>),
}

/// The tree that a document stands for.
pub open spec fn tree(d: Document) -> Tree
    decreases d,
{
    match d {
        Document::Literal(l) => Tree::Literal(l),
        Document::Number(digits) => Tree::Number(digits),
        Document::String(content) => Tree::String(content),
        Document::Array(elements) => Tree::Array(trees(elements)),
        Document::Object(entries) => Tree::Object(members(entries)),
    }
}

/// The trees of a sequence of documents, in the same order.
pub open spec fn trees(ds: Seq<Document>) -> Seq<Tree>
    decreases ds,
{
    if ds.len() == 0 {
        Seq::empty()
    } else {
        trees(ds.drop_last()).push(tree(ds.last()))
    }
}

/// The map that a list of members stands for; of two members with one key
/// the later one counts.
pub open spec fn members(entries: Seq<(Seq<char>, Document)>) -> Map<Seq<char>, Tree>
    decreases entries,
{
    if entries.len() == 0 {
        Map::empty()
    } else {
        members(entries.drop_last()).insert(entries.last().0, tree(entries.last().1))
    }
}

/// The word that a literal is written as.
pub open spec fn keyword(l: Literal) -> Seq<char> {
    match l {
        Literal::Null => seq!['n', 'u', 'l', 'l'],
        Literal::Bool(true) => seq!['t', 'r', 'u', 'e'],
        Literal::Bool(false) => seq!['f', 'a', 'l', 's', 'e'],
    }
}

/// The canonical text of a document: no whitespace, elements and members
/// separated by one `,`, a member written as its key between quotation
/// marks, `:` and its value.
pub open spec fn render(d: Document) -> Seq<char>
    decreases d, 0int,
{
    match d {
        Document::Literal(l) => keyword(l),
        Document::Number(digits) => digits,
        Document::String(content) => seq!['"'] + content + seq!['"'],
        Document::Array(elements) => seq!['['] + render_elements(elements, 0) + seq![']'],
        Document::Object(entries) => seq!['{'] + render_members(entries, 0) + seq!['}'],
    }
}

/// The text of the elements of an array from the one at `from` on.
pub open spec fn render_elements(ds: Seq<Document>, from: int) -> Seq<char>
    decreases ds, ds.len() - from,
{
    if from < 0 || from >= ds.len() {
        Seq::empty()
    } else if from == ds.len() - 1 {
        render(ds[from])
    } else {
        render(ds[from]) + seq![','] + render_elements(ds, from + 1)
    }
}

/// The text of one member of an object.
pub open spec fn render_member(entries: Seq<(Seq<char>, Document)>, at: int) -> Seq<char>
    recommends
        0 <= at < entries.len(),
    decreases entries, 0int,
{
    if 0 <= at < entries.len() {
        seq!['"'] + entries[at].0 + seq!['"', ':'] + render(entries[at].1)
    } else {
        Seq::empty()
    }
}

/// The text of the members of an object from the one at `from` on.
pub open spec fn render_members(entries: Seq<(Seq<char>, Document)>, from: int) -> Seq<char>
    decreases entries, entries.len() - from + 1,
{
    if from < 0 || from >= entries.len() {
        Seq::empty()
    } else if from == entries.len() - 1 {
        render_member(entries, from)
    } else {
        render_member(entries, from) + seq![','] + render_members(entries, from + 1)
    }
}

/// A document whose canonical text parses back to it: its numbers are runs
/// of digits that are not empty, its strings and keys are `plain`.
pub open spec fn printable(d: Document) -> bool
    decreases d,
{
    match d {
        Document::Literal(_) => true,
        Document::Number(digits) => digits.len() > 0 && all_digits(digits),
        Document::String(content) => plain(content),
        Document::Array(elements) => forall|k: int|
            0 <= k < elements.len() ==> printable(#[trigger] elements[k]),
        Document::Object(entries) => {
            &&& forall|k: int| 0 <= k < entries.len() ==> plain((#[trigger] entries[k]).0)
            &&& forall|k: int| 0 <= k < entries.len() ==> printable((#[trigger] entries[k]).1)
        },
    }
}

/// The text `x` stands in `s` at place `i`.
spec fn has_at(s: Seq<char>, i: int, x: Seq<char>) -> bool {
    &&& 0 <= i
    &&& i + x.len() <= s.len()
    &&& forall|k: int| 0 <= k < x.len() ==> s[i + k] == #[trigger] x[k]
}

/// At place `j` the text `s` ends or a structural character stands.
spec fn stops(s: Seq<char>, j: int) -> bool {
    j == s.len() || (0 <= j < s.len() && is_structural(s[j]))
}

/// A character that the canonical text of a value can begin with.
spec fn opens(c: char) -> bool {
    c == 'n' || c == 't' || c == 'f' || is_digit(c) || c == '"' || c == '[' || c == '{'
}

proof fn lemma_split(s: Seq<char>, i: int, x: Seq<char>, y: Seq<char>)
    requires
        has_at(s, i, x + y),
    ensures
        has_at(s, i, x),
        has_at(s, i + x.len(), y),
{
    assert forall|k: int| 0 <= k < x.len() implies s[i + k] == #[trigger] x[k] by {
        assert((x + y)[k] == x[k]);
    }
    assert forall|k: int| 0 <= k < y.len() implies s[i + x.len() + k] == #[trigger] y[k] by {
        assert((x + y)[x.len() + k] == y[k]);
    }
}

proof fn lemma_first(d: Document)
    requires
        printable(d),
    ensures
        render(d).len() > 0,
        opens(render(d)[0]),
        !is_white(render(d)[0]),
        render(d)[0] != ']' && render(d)[0] != '}' && render(d)[0] != ',',
{
    match d {
        Document::Literal(l) => {},
        Document::Number(digits) => {
            assert(is_digit(digits[0]));
        },
        Document::String(content) => {},
        Document::Array(elements) => {},
        Document::Object(entries) => {},
    }
}

proof fn lemma_quoted(s: Seq<char>, i: int, content: Seq<char>)
    requires
        plain(content),
        has_at(s, i + 1, content),
        0 <= i,
        i + content.len() + 2 <= s.len(),
        s[i] == '"',
        s[i + content.len() + 1] == '"',
        i + content.len() + 2 < s.len() ==> !is_white(s[i + content.len() + 2]),
    ensures
        yields(string_at(s, i), (content, i + content.len() + 2)),
{
    let n = content.len() as int;
    assert(!is_white(s[i + 1])) by {
        if n > 0 {
            assert(s[i + 1 + 0] == content[0]);
        }
    }
    lemma_run_end_unique(s, i + 1, |c: char| is_white(c), i + 1);
    assert forall|k: int| i + 1 <= k < i + 1 + n implies is_quoted(#[trigger] s[k]) by {
        assert(s[i + 1 + (k - i - 1)] == content[k - i - 1]);
    }
    lemma_run_end_unique(s, i + 1, |c: char| is_quoted(c), i + 1 + n);
    lemma_run_end_unique(s, i + n + 2, |c: char| is_white(c), i + n + 2);
    assert(s.subrange(i + 1, i + 1 + n) =~= content) by {
        assert forall|k: int| 0 <= k < n implies s.subrange(i + 1, i + 1 + n)[k] == content[k] by {
            assert(s[i + 1 + k] == content[k]);
        }
    }
}

proof fn lemma_render_value(d: Document, s: Seq<char>, i: int)
    requires
        printable(d),
        has_at(s, i, render(d)),
        stops(s, i + render(d).len()),
    ensures
        yields(value_at(s, i), (tree(d), i + render(d).len())),
    decreases d, 0int,
{
    let r = render(d);
    let n = r.len() as int;
    let j = i + n;
    lemma_first(d);
    assert(s[i + 0] == r[0]);
    if j < s.len() {
        lemma_structural(s[j]);
    }
    lemma_run_end_unique(s, j, |c: char| is_white(c), j);
    match d {
        Document::Literal(l) => {
            assert forall|k: int| i <= k < j implies is_word(#[trigger] s[k]) by {
                assert(s[i + (k - i)] == r[k - i]);
                lemma_structural(r[k - i]);
            }
            lemma_run_end_unique(s, i, |c: char| is_word(c), j);
            assert(s.subrange(i, j) =~= r) by {
                assert forall|k: int| 0 <= k < n implies s.subrange(i, j)[k] == r[k] by {
                    assert(s[i + k] == r[k]);
                }
            }
            assert(literal_of(r) == Some(l));
            assert(yields(literal_at(s, i), (l, j)));
        },
        Document::Number(digits) => {
            assert forall|k: int| i <= k < j implies is_digit(#[trigger] s[k]) by {
                assert(s[i + (k - i)] == r[k - i]);
            }
            lemma_run_end_unique(s, i, |c: char| is_digit(c), j);
            assert(s.subrange(i, j) =~= r) by {
                assert forall|k: int| 0 <= k < n implies s.subrange(i, j)[k] == r[k] by {
                    assert(s[i + k] == r[k]);
                }
            }
            assert(yields(number_at(s, i), (digits, j)));
        },
        Document::String(content) => {
            lemma_split(s, i, seq!['"'] + content, seq!['"']);
            lemma_split(s, i, seq!['"'], content);
            assert(s[i + content.len() + 1 + 0] == seq!['"'][0]);
            lemma_quoted(s, i, content);
        },
        Document::Array(elements) => {
            let e = render_elements(elements, 0);
            lemma_split(s, i, seq!['['] + e, seq![']']);
            lemma_split(s, i, seq!['['], e);
            assert(s[i + e.len() + 1 + 0] == seq![']'][0]);
            if elements.len() == 0 {
                lemma_run_end_unique(s, i + 1, |c: char| is_white(c), i + 1);
                assert(trees(elements) =~= Seq::<Tree>::empty());
                assert(yields(elements_at(s, i + 1, Seq::empty()), (Seq::empty(), j),));
            } else {
                lemma_elements_first(elements, 0);
                assert(s[i + 1 + 0] == e[0]);
                lemma_run_end_unique(s, i + 1, |c: char| is_white(c), i + 1);
                assert(elements.take(0) =~= Seq::<Document>::empty());
                lemma_render_elements(elements, 0, s, i + 1);
            }
            assert(yields(array_at(s, i), (tree(d), j)));
        },
        Document::Object(entries) => {
            let e = render_members(entries, 0);
            lemma_split(s, i, seq!['{'] + e, seq!['}']);
            lemma_split(s, i, seq!['{'], e);
            assert(s[i + e.len() + 1 + 0] == seq!['}'][0]);
            if entries.len() == 0 {
                lemma_run_end_unique(s, i + 1, |c: char| is_white(c), i + 1);
                assert(members(entries) =~= Map::<Seq<char>, Tree>::empty());
                assert(yields(members_at(s, i + 1, Map::empty()), (Map::empty(), j)));
            } else {
                lemma_members_first(entries, 0);
                assert(s[i + 1 + 0] == e[0]);
                lemma_run_end_unique(s, i + 1, |c: char| is_white(c), i + 1);
                assert(entries.take(0) =~= Seq::<(Seq<char>, Document)>::empty());
                lemma_render_members(entries, 0, s, i + 1);
            }
            assert(yields(object_at(s, i), (tree(d), j)));
        },
    }
}

proof fn lemma_elements_first(ds: Seq<Document>, k: int)
    requires
        0 <= k < ds.len(),
        forall|j: int| 0 <= j < ds.len() ==> printable(#[trigger] ds[j]),
    ensures
        render_elements(ds, k).len() > 0,
        render_elements(ds, k)[0] == render(ds[k])[0],
        opens(render_elements(ds, k)[0]),
        !is_white(render_elements(ds, k)[0]),
        render_elements(ds, k)[0] != ']',
{
    lemma_first(ds[k]);
}

proof fn lemma_members_first(entries: Seq<(Seq<char>, Document)>, k: int)
    requires
        0 <= k < entries.len(),
    ensures
        render_members(entries, k).len() > 0,
        render_members(entries, k)[0] == '"',
{
    let m = render_member(entries, k);
    assert(m[0] == '"');
    if k < entries.len() - 1 {
        assert(render_members(entries, k)[0] == m[0]);
    }
}

proof fn lemma_render_elements(ds: Seq<Document>, k: int, s: Seq<char>, i: int)
    requires
        0 <= k < ds.len(),
        forall|j: int| 0 <= j < ds.len() ==> printable(#[trigger] ds[j]),
        has_at(s, i, render_elements(ds, k)),
        i + render_elements(ds, k).len() < s.len(),
        s[i + render_elements(ds, k).len()] == ']',
        stops(s, i + render_elements(ds, k).len() + 1),
    ensures
        yields(
            elements_at(s, i, trees(ds.take(k))),
            (trees(ds), i + render_elements(ds, k).len() + 1),
        ),
    decreases ds, ds.len() - k,
{
    let e = render_elements(ds, k);
    let r = render(ds[k]);
    let before = trees(ds.take(k));
    let next = i + r.len();
    let close = i + e.len();
    lemma_first(ds[k]);
    assert(ds.take(k + 1).drop_last() =~= ds.take(k));
    assert(ds.take(k + 1).last() == ds[k]);
    assert(trees(ds.take(k + 1)) == before.push(tree(ds[k])));
    lemma_structural(']');
    lemma_structural(',');
    if close + 1 < s.len() {
        lemma_structural(s[close + 1]);
    }
    lemma_run_end_unique(s, close + 1, |c: char| is_white(c), close + 1);
    if k == ds.len() - 1 {
        assert(s[i + 0] == r[0]);
        lemma_render_value(ds[k], s, i);
        assert(ds.take(k + 1) =~= ds);
    } else {
        let rest = render_elements(ds, k + 1);
        lemma_split(s, i, r + seq![','], rest);
        lemma_split(s, i, r, seq![',']);
        assert(s[i + r.len() + 0] == seq![','][0]);
        assert(s[i + 0] == r[0]);
        lemma_render_value(ds[k], s, i);
        lemma_elements_first(ds, k + 1);
        assert(s[next + 1 + 0] == rest[0]);
        lemma_run_end_unique(s, next + 1, |c: char| is_white(c), next + 1);
        lemma_render_elements(ds, k + 1, s, next + 1);
    }
}

proof fn lemma_render_members(entries: Seq<(Seq<char>, Document)>, k: int, s: Seq<char>, i: int)
    requires
        0 <= k < entries.len(),
        forall|j: int| 0 <= j < entries.len() ==> plain((#[trigger] entries[j]).0),
        forall|j: int| 0 <= j < entries.len() ==> printable((#[trigger] entries[j]).1),
        has_at(s, i, render_members(entries, k)),
        i + render_members(entries, k).len() < s.len(),
        s[i + render_members(entries, k).len()] == '}',
        stops(s, i + render_members(entries, k).len() + 1),
    ensures
        yields(
            members_at(s, i, members(entries.take(k))),
            (members(entries), i + render_members(entries, k).len() + 1),
        ),
    decreases entries, entries.len() - k,
{
    let e = render_members(entries, k);
    let key = entries[k].0;
    let r = render(entries[k].1);
    let m = render_member(entries, k);
    let before = members(entries.take(k));
    let colon = i + key.len() + 2;
    let start = colon + 1;
    let next = start + r.len();
    let close = i + e.len();
    lemma_first(entries[k].1);
    assert(entries.take(k + 1).drop_last() =~= entries.take(k));
    assert(entries.take(k + 1).last() == entries[k]);
    assert(members(entries.take(k + 1)) == before.insert(key, tree(entries[k].1)));
    lemma_structural('}');
    lemma_structural(',');
    lemma_structural(':');
    if close + 1 < s.len() {
        lemma_structural(s[close + 1]);
    }
    lemma_run_end_unique(s, close + 1, |c: char| is_white(c), close + 1);
    if k == entries.len() - 1 {
        assert(e == m);
    } else {
        let rest = render_members(entries, k + 1);
        lemma_split(s, i, m + seq![','], rest);
        lemma_split(s, i, m, seq![',']);
        assert(s[i + m.len() + 0] == seq![','][0]);
    }
    assert(has_at(s, i, m));
    lemma_split(s, i, seq!['"'] + key + seq!['"', ':'], r);
    lemma_split(s, i, seq!['"'] + key, seq!['"', ':']);
    lemma_split(s, i, seq!['"'], key);
    assert(s[i + 0] == seq!['"'][0]);
    assert(s[i + key.len() + 1 + 0] == seq!['"', ':'][0]);
    assert(s[i + key.len() + 1 + 1] == seq!['"', ':'][1]);
    assert(s[start + 0] == r[0]);
    lemma_quoted(s, i, key);
    lemma_run_end_unique(s, start, |c: char| is_white(c), start);
    lemma_render_value(entries[k].1, s, start);
    if k == entries.len() - 1 {
        assert(entries.take(k + 1) =~= entries);
    } else {
        let rest = render_members(entries, k + 1);
        lemma_members_first(entries, k + 1);
        assert(s[next + 1 + 0] == rest[0]);
        lemma_run_end_unique(s, next + 1, |c: char| is_white(c), next + 1);
        lemma_render_members(entries, k + 1, s, next + 1);
    }
}

/// Parsing the canonical text of a printable document gives the tree of
/// the document and reads the whole text.
pub proof fn law_render_parse(d: Document)
    requires
        printable(d),
    ensures
        yields(value_at(render(d), 0), (tree(d), render(d).len() as int)),
        yields(parse_text(render(d)), tree(d)),
{
    lemma_render_value(d, render(d), 0);
}

/// Every object of the document, at any depth, lists each of its keys
/// once.
pub open spec fn each_key_once(d: Document) -> bool
    decreases d,
{
    match d {
        Document::Array(elements) => forall|k: int|
            0 <= k < elements.len() ==> each_key_once(#[trigger] elements[k]),
        Document::Object(entries) => {
            &&& forall|a: int, b: int|
                0 <= a < b < entries.len() ==> (#[trigger] entries[a]).0 != (
                #[trigger] entries[b]).0
            &&& forall|k: int| 0 <= k < entries.len() ==> each_key_once((#[trigger] entries[k]).1)
        },
        _ => true,
    }
}

proof fn lemma_trees(ds: Seq<Document>)
    ensures
        trees(ds).len() == ds.len(),
        forall|k: int| 0 <= k < ds.len() ==> #[trigger] trees(ds)[k] == tree(ds[k]),
    decreases ds.len(),
{
    if ds.len() > 0 {
        lemma_trees(ds.drop_last());
    }
}

proof fn lemma_member(entries: Seq<(Seq<char>, Document)>, k: int)
    requires
        0 <= k < entries.len(),
        forall|j: int| k < j < entries.len() ==> (#[trigger] entries[j]).0 != entries[k].0,
    ensures
        members(entries).contains_key(entries[k].0),
        members(entries)[entries[k].0] == tree(entries[k].1),
    decreases entries.len(),
{
    if k < entries.len() - 1 {
        let front = entries.drop_last();
        assert forall|j: int| k < j < front.len() implies (#[trigger] front[j]).0 != front[k].0 by {
            assert(entries[j].0 != entries[k].0);
        }
        lemma_member(front, k);
        assert(entries[entries.len() - 1].0 != entries[k].0);
    }
}

proof fn lemma_printable(d: Document)
    requires
        each_key_once(d),
        well_formed(tree(d)),
    ensures
        printable(d),
    decreases d,
{
    match d {
        Document::Array(elements) => {
            lemma_trees(elements);
            assert(well_formed(Tree::Array(trees(elements))));
            assert forall|k: int| 0 <= k < elements.len() implies printable(
                #[trigger] elements[k],
            ) by {
                assert(well_formed(trees(elements)[k]));
                lemma_printable(elements[k]);
            }
        },
        Document::Object(entries) => {
            assert(well_formed(Tree::Object(members(entries))));
            assert forall|k: int| 0 <= k < entries.len() implies plain((#[trigger] entries[k]).0)
                && printable(entries[k].1) by {
                lemma_member(entries, k);
                assert(well_formed(members(entries)[entries[k].0]));
                lemma_printable(entries[k].1);
            }
        },
        _ => {},
    }
}

/// Of the members that an object is written with, the last one of each key
/// counts: the canonical text of a printable object parses to an object
/// that maps the key of a member to that member, unless a later member has
/// the same key.
pub proof fn law_last_member_wins(entries: Seq<(Seq<char>, Document)>, k: int)
    requires
        printable(Document::Object(entries)),
        0 <= k < entries.len(),
        forall|j: int| k < j < entries.len() ==> (#[trigger] entries[j]).0 != entries[k].0,
    ensures
        parse_text(render(Document::Object(entries))) matches Ok(Tree::Object(parsed))
            && parsed.contains_key(entries[k].0) && parsed[entries[k].0] == tree(entries[k].1),
{
    law_render_parse(Document::Object(entries));
    lemma_member(entries, k);
}

/// A text parses to a value; the value written down again in canonical
/// form, the members of each object once and in any order, parses to the
/// same value.
pub proof fn law_round_trip(s: Seq<char>, d: Document)
    requires
        yields(parse_text(s), tree(d)),
        each_key_once(d),
    ensures
        parse_text(render(d)) == parse_text(s),
{
    law_parsed_well_formed(s, 0);
    lemma_printable(d);
    law_render_parse(d);
}

} // verus!
