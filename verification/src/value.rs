//! The tree that a parse produces, and the mathematical model of it.
//!
//! Grammar of the text that denotes a value:
//!
//! ```text
//! value   = literal | number | string | array | object
//! literal = "null" | "true" | "false"
//! number  = digit+
//! string  = '"' char* '"'
//! array   = '[' [ value *( ',' value ) ] ']'
//! object  = '{' [ member *( ',' member ) ] '}'
//! member  = string ':' value
//! ```
use crate::error::{Failure, ParseError};
use crate::text::str_eq;
use vstd::prelude::*;
use vstd::std_specs::cmp::PartialEqSpecImpl;
use vstd::std_specs::convert::FromSpecImpl;

verus! {

/// The horizontal tab, one of the three whitespace characters.
pub const TAB: char = '\t';

/// The line feed, one of the three whitespace characters.
pub const NEW_LINE: char = '\n';

/// The space, one of the three whitespace characters.
pub const SPACE: char = ' ';

/// One of the three keyword values.
#[derive(Debug, Clone, Copy, PartialEq, Eq, Structural)]
pub enum Literal {
    Null,
    Bool(bool),
}

/// The keyword value that a bare word names, if it names one.
pub open spec fn literal_of(token: Seq<char>) -> Option<Literal> {
    if token == seq!['n', 'u', 'l', 'l'] {
        Some(Literal::Null)
    } else if token == seq!['t', 'r', 'u', 'e'] {
        Some(Literal::Bool(true))
    } else if token == seq!['f', 'a', 'l', 's', 'e'] {
        Some(Literal::Bool(false))
    } else {
        None
    }
}

impl Literal {
    /// The keyword value that `s` names. A text that is none of `null`,
    /// `true` and `false` is handed back in the error.
    pub fn from_str(s: &str) -> (named: Result<Literal, ParseError>)
        ensures
            match named {
                Ok(l) => literal_of(s@) == Some(l),
                Err(e) => literal_of(s@) is None && e@ == (Failure::UnexpectedLiteralError {
                    token: s@,
                }),
            },
    {
        proof {
            reveal_strlit("null");
            reveal_strlit("true");
            reveal_strlit("false");
            assert("null"@ =~= seq!['n', 'u', 'l', 'l']);
            assert("true"@ =~= seq!['t', 'r', 'u', 'e']);
            assert("false"@ =~= seq!['f', 'a', 'l', 's', 'e']);
        }
        if str_eq(s, "null") {
            Ok(Literal::Null)
        } else if str_eq(s, "true") {
            Ok(Literal::Bool(true))
        } else if str_eq(s, "false") {
            Ok(Literal::Bool(false))
        } else {
            Err(ParseError::UnexpectedLiteralError { token: s.to_owned() })
        }
    }
}

/// The seven characters with a fixed grammatical meaning.
#[derive(Debug, Clone, Copy, PartialEq, Eq, Structural)]
pub enum StructuralChar {
    BeginArray,
    EndArray,
    BeginObject,
    EndObject,
    NameSeperator,
    ValueSeperator,
    QuotationMark,
}

impl StructuralChar {
    /// The character that this structural symbol is written as.
    pub open spec fn spec_char(self) -> char {
        match self {
            StructuralChar::BeginArray => '[',
            StructuralChar::EndArray => ']',
            StructuralChar::BeginObject => '{',
            StructuralChar::EndObject => '}',
            StructuralChar::NameSeperator => ':',
            StructuralChar::ValueSeperator => ',',
            StructuralChar::QuotationMark => '"',
        }
    }

    /// The seven structural symbols, each once.
    pub open spec fn all() -> Seq<StructuralChar> {
        seq![
            StructuralChar::BeginArray,
            StructuralChar::BeginObject,
            StructuralChar::EndArray,
            StructuralChar::EndObject,
            StructuralChar::NameSeperator,
            StructuralChar::ValueSeperator,
            StructuralChar::QuotationMark,
        ]
    }

    /// Every structural symbol, in a fixed order.
    pub fn iter() -> (symbols: Vec<StructuralChar>)
        ensures
            symbols@ == Self::all(),
    {
        vec![
            StructuralChar::BeginArray,
            StructuralChar::BeginObject,
            StructuralChar::EndArray,
            StructuralChar::EndObject,
            StructuralChar::NameSeperator,
            StructuralChar::ValueSeperator,
            StructuralChar::QuotationMark,
        ]
    }
}

impl From<StructuralChar> for char {
    fn from(sc: StructuralChar) -> (c: char) {
        match sc {
            StructuralChar::BeginArray => '[',
            StructuralChar::EndArray => ']',
            StructuralChar::BeginObject => '{',
            StructuralChar::EndObject => '}',
            StructuralChar::NameSeperator => ':',
            StructuralChar::ValueSeperator => ',',
            StructuralChar::QuotationMark => '"',
        }
    }
}

impl FromSpecImpl<StructuralChar> for char {
    open spec fn obeys_from_spec() -> bool {
        true
    }

    open spec fn from_spec(sc: StructuralChar) -> char {
        sc.spec_char()
    }
}

/// An unsigned integer kept as the digits it was written with.
#[derive(Debug)]
pub struct Number {
    value: String,
}

impl View for Number {
    type V = Seq<char>;

    closed spec fn view(&self) -> Seq<char> {
        self.value@
    }
}

impl Number {
    /// Wraps `value` as a number; its text is kept as it is.
    pub fn new(value: String) -> (n: Self)
        ensures
            n@ == value@,
    {
        Self { value }
    }

    /// The digits of the number.
    pub fn as_str(&self) -> (digits: &str)
        ensures
            digits@ == self@,
    {
        self.value.as_str()
    }
}

impl PartialEq for Number {
    fn eq(&self, other: &Self) -> (same: bool) {
        self.value == other.value
    }
}

impl Eq for Number {

}

impl PartialEqSpecImpl for Number {
    open spec fn obeys_eq_spec() -> bool {
        true
    }

    open spec fn eq_spec(&self, other: &Self) -> bool {
        self@ == other@
    }
}

/// What a [`Value`] is, mathematically: strings are sequences of characters,
/// an array is a sequence and an object a map from key to member.
pub enum Tree {
    Literal(Literal),
    Number(Seq<char>),
    String(Seq<char>),
    Array(Seq<Tree>),
    Object(Map<Seq<char>, Tree>),
}

/// A parsed value.
#[derive(Debug)]
pub enum Value {
    Literal(Literal),
    Number(Number),
    String(String),
    Array(Vec<Value>),
    Object(RsonMap),
}

/// The members of an object: each key once, in no particular order.
#[derive(Debug)]
pub struct RsonMap {
    entries: Vec<(String, Value)>,
}

/// The tree that `v` stands for.
pub open spec fn tree_of(v: Value) -> Tree
    decreases v,
{
    match v {
        Value::Literal(l) => Tree::Literal(l),
        Value::Number(n) => Tree::Number(n@),
        Value::String(s) => Tree::String(s@),
        Value::Array(a) => Tree::Array(trees_of(a@)),
        Value::Object(m) => Tree::Object(m.members()),
    }
}

/// The trees that the values of `vs` stand for, in the same order.
pub open spec fn trees_of(vs: Seq<Value>) -> Seq<Tree>
    decreases vs,
{
    if vs.len() == 0 {
        Seq::empty()
    } else {
        trees_of(vs.drop_last()).push(tree_of(vs.last()))
    }
}

/// The map that a list of entries stands for; of two entries with one key
/// the later one counts.
spec fn members_of(es: Seq<(String, Value)>) -> Map<Seq<char>, Tree>
    decreases es,
{
    if es.len() == 0 {
        Map::empty()
    } else {
        members_of(es.drop_last()).insert(es.last().0@, tree_of(es.last().1))
    }
}

/// No two entries of `es` have the same key.
spec fn distinct_keys(es: Seq<(String, Value)>) -> bool {
    forall|i: int, j: int|
        0 <= i < j < es.len() ==> (#[trigger] es[i]).0@ != (#[trigger] es[j]).0@
}

impl View for Value {
    type V = Tree;

    open spec fn view(&self) -> Tree {
        tree_of(*self)
    }
}

impl View for RsonMap {
    type V = Map<Seq<char>, Tree>;

    open spec fn view(&self) -> Map<Seq<char>, Tree> {
        self.members()
    }
}

/// `trees_of` keeps the length and works position by position.
pub proof fn lemma_trees_of(vs: Seq<Value>)
    ensures
        trees_of(vs).len() == vs.len(),
        forall|i: int| 0 <= i < vs.len() ==> #[trigger] trees_of(vs)[i] == tree_of(vs[i]),
    decreases vs.len(),
{
    if vs.len() > 0 {
        lemma_trees_of(vs.drop_last());
    }
}

/// The trees of a sequence with one more value at its end.
pub proof fn lemma_trees_of_push(vs: Seq<Value>, v: Value)
    ensures
        trees_of(vs.push(v)) == trees_of(vs).push(tree_of(v)),
{
    assert(vs.push(v).drop_last() =~= vs);
}

proof fn lemma_members_dom(es: Seq<(String, Value)>)
    ensures
        forall|k: Seq<char>|
            members_of(es).contains_key(k) <==> exists|i: int|
                0 <= i < es.len() && (#[trigger] es[i]).0@ == k,
        members_of(es).dom().finite(),
    decreases es.len(),
{
    if es.len() > 0 {
        let front = es.drop_last();
        lemma_members_dom(front);
        assert forall|k: Seq<char>|
            members_of(es).contains_key(k) <==> exists|i: int|
                0 <= i < es.len() && (#[trigger] es[i]).0@ == k by {
            if members_of(es).contains_key(k) {
                if k == es.last().0@ {
                    assert(es[es.len() - 1].0@ == k);
                } else {
                    let i = choose|i: int| 0 <= i < front.len() && (#[trigger] front[i]).0@ == k;
                    assert(es[i].0@ == k);
                }
            }
            if exists|i: int| 0 <= i < es.len() && (#[trigger] es[i]).0@ == k {
                let i = choose|i: int| 0 <= i < es.len() && (#[trigger] es[i]).0@ == k;
                if i < es.len() - 1 {
                    assert(front[i].0@ == k);
                }
            }
        }
    }
}

proof fn lemma_distinct_front(es: Seq<(String, Value)>)
    requires
        distinct_keys(es),
        es.len() > 0,
    ensures
        distinct_keys(es.drop_last()),
{
    let front = es.drop_last();
    assert forall|a: int, b: int| 0 <= a < b < front.len() implies (#[trigger] front[a]).0@ != (
    #[trigger] front[b]).0@ by {
        assert(es[a].0@ != es[b].0@);
    }
}

proof fn lemma_members_at(es: Seq<(String, Value)>, i: int)
    requires
        distinct_keys(es),
        0 <= i < es.len(),
    ensures
        members_of(es).contains_key(es[i].0@),
        members_of(es)[es[i].0@] == tree_of(es[i].1),
    decreases es.len(),
{
    if i < es.len() - 1 {
        let front = es.drop_last();
        lemma_distinct_front(es);
        lemma_members_at(front, i);
        assert(es[i].0@ != es[es.len() - 1].0@);
    }
}

proof fn lemma_members_len(es: Seq<(String, Value)>)
    requires
        distinct_keys(es),
    ensures
        members_of(es).dom().finite(),
        members_of(es).dom().len() == es.len(),
    decreases es.len(),
{
    if es.len() > 0 {
        let front = es.drop_last();
        lemma_distinct_front(es);
        lemma_members_len(front);
        lemma_members_dom(front);
        assert(!members_of(front).contains_key(es.last().0@)) by {
            if members_of(front).contains_key(es.last().0@) {
                let i = choose|i: int|
                    0 <= i < front.len() && (#[trigger] front[i]).0@ == es.last().0@;
                assert(es[i].0@ != es[es.len() - 1].0@);
            }
        }
        assert(members_of(es).dom() =~= members_of(front).dom().insert(es.last().0@));
    }
}

proof fn lemma_members_update(es: Seq<(String, Value)>, i: int, e: (String, Value))
    requires
        distinct_keys(es),
        0 <= i < es.len(),
        es[i].0@ == e.0@,
    ensures
        distinct_keys(es.update(i, e)),
        members_of(es.update(i, e)) == members_of(es).insert(e.0@, tree_of(e.1)),
    decreases es.len(),
{
    let after = es.update(i, e);
    assert(distinct_keys(after)) by {
        assert forall|a: int, b: int| 0 <= a < b < after.len() implies (#[trigger] after[a]).0@
            != (#[trigger] after[b]).0@ by {
            assert(es[a].0@ != es[b].0@);
        }
    }
    let front = es.drop_last();
    if i == es.len() - 1 {
        assert(after.drop_last() =~= front);
        assert(members_of(after) =~= members_of(es).insert(e.0@, tree_of(e.1)));
    } else {
        lemma_distinct_front(es);
        lemma_members_update(front, i, e);
        assert(after.drop_last() =~= front.update(i, e));
        assert(after.last() == es.last());
        assert(es[i].0@ != es[es.len() - 1].0@);
        assert(members_of(after) =~= members_of(es).insert(e.0@, tree_of(e.1)));
    }
}

proof fn lemma_members_push(es: Seq<(String, Value)>, e: (String, Value))
    requires
        distinct_keys(es),
        forall|i: int| 0 <= i < es.len() ==> (#[trigger] es[i]).0@ != e.0@,
    ensures
        distinct_keys(es.push(e)),
        members_of(es.push(e)) == members_of(es).insert(e.0@, tree_of(e.1)),
{
    let after = es.push(e);
    assert(after.drop_last() =~= es);
    assert forall|a: int, b: int| 0 <= a < b < after.len() implies (#[trigger] after[a]).0@
        != (#[trigger] after[b]).0@ by {
        if b < es.len() {
            assert(es[a].0@ != es[b].0@);
        } else {
            assert(es[a].0@ != e.0@);
        }
    }
}

impl RsonMap {
    #[verifier::type_invariant]
    closed spec fn key_once(self) -> bool {
        distinct_keys(self.entries@)
    }

    /// The members as a map from key to tree.
    pub closed spec fn members(self) -> Map<Seq<char>, Tree>
        decreases self,
    {
        members_of(self.entries@)
    }

    /// An object without members.
    pub fn new() -> (m: Self)
        ensures
            m@ == Map::<Seq<char>, Tree>::empty(),
    {
        RsonMap { entries: Vec::new() }
    }

    /// The keys of the members, each once, in the order in which `entry`
    /// hands the members out. The order says nothing about the object.
    pub closed spec fn keys(self) -> Seq<Seq<char>> {
        Seq::new(self.entries@.len(), |i: int| self.entries@[i].0@)
    }

    /// The number of members.
    pub fn len(&self) -> (n: usize)
        ensures
            self@.dom().finite(),
            n == self@.dom().len(),
            n == self.keys().len(),
            self.keys().no_duplicates(),
            forall|key: Seq<char>| self@.contains_key(key) <==> self.keys().contains(key),
    {
        proof {
            use_type_invariant(self);
            lemma_members_len(self.entries@);
            lemma_members_dom(self.entries@);
            let keys = self.keys();
            assert forall|i: int, j: int|
                0 <= i < keys.len() && 0 <= j < keys.len() && i != j implies keys[i]
                != keys[j] by {
                if i < j {
                    assert(self.entries@[i].0@ != self.entries@[j].0@);
                } else {
                    assert(self.entries@[j].0@ != self.entries@[i].0@);
                }
            }
            assert forall|key: Seq<char>| self@.contains_key(key) <==> keys.contains(key) by {
                if self@.contains_key(key) {
                    let i = choose|i: int|
                        0 <= i < self.entries@.len() && (#[trigger] self.entries@[i]).0@ == key;
                    assert(keys[i] == key);
                }
                if keys.contains(key) {
                    let i = choose|i: int| 0 <= i < keys.len() && keys[i] == key;
                    assert(self.entries@[i].0@ == key);
                }
            }
        }
        self.entries.len()
    }

    /// The member at `index` in the order of `keys`, with its key; `None`
    /// where `index` is not below `len`.
    pub fn entry(&self, index: usize) -> (member: Option<(&str, &Value)>)
        ensures
            match member {
                Some((key, value)) => index < self.keys().len() && key@ == self.keys()[index as int]
                    && self@.contains_key(key@) && self@[key@] == value@,
                None => index >= self.keys().len(),
            },
    {
        if index < self.entries.len() {
            proof {
                use_type_invariant(self);
                lemma_members_at(self.entries@, index as int);
            }
            Some((self.entries[index].0.as_str(), &self.entries[index].1))
        } else {
            None
        }
    }

    /// Tells whether the object has no member.
    pub fn is_empty(&self) -> (none: bool)
        ensures
            none == (self@ == Map::<Seq<char>, Tree>::empty()),
    {
        proof {
            use_type_invariant(self);
            lemma_members_len(self.entries@);
            if self.entries@.len() == 0 {
                assert(self@ =~= Map::<Seq<char>, Tree>::empty());
            }
        }
        self.entries.len() == 0
    }

    fn position(&self, key: &str) -> (at: Option<usize>)
        ensures
            match at {
                Some(i) => i < self.entries@.len() && self.entries@[i as int].0@ == key@,
                None => forall|i: int|
                    0 <= i < self.entries@.len() ==> (#[trigger] self.entries@[i]).0@ != key@,
            },
    {
        let mut i: usize = 0;
        while i < self.entries.len()
            invariant
                i <= self.entries@.len(),
                forall|j: int| 0 <= j < i ==> (#[trigger] self.entries@[j]).0@ != key@,
            decreases self.entries@.len() - i,
        {
            if str_eq(self.entries[i].0.as_str(), key) {
                return Some(i);
            }
            i += 1;
        }
        None
    }

    /// Sets the member `key` to `value`, whether or not the object had one
    /// of that name.
    pub fn insert(&mut self, key: String, value: Value)
        ensures
            final(self)@ == old(self)@.insert(key@, value@),
    {
        let at = self.position(key.as_str());
        let mut taken = RsonMap::new();
        std::mem::swap(self, &mut taken);
        proof {
            use_type_invariant(&taken);
        }
        let mut entries = taken.entries;
        match at {
            Some(i) => {
                proof {
                    lemma_members_update(entries@, i as int, (key, value));
                }
                entries.set(i, (key, value));
            },
            None => {
                proof {
                    lemma_members_push(entries@, (key, value));
                }
                entries.push((key, value));
            },
        }
        *self = RsonMap { entries };
    }

    /// The member `key`, if the object has one.
    pub fn get(&self, key: &str) -> (member: Option<&Value>)
        ensures
            match member {
                Some(v) => self@.contains_key(key@) && self@[key@] == v@,
                None => !self@.contains_key(key@),
            },
    {
        proof {
            use_type_invariant(self);
            lemma_members_dom(self.entries@);
        }
        match self.position(key) {
            Some(i) => {
                proof {
                    lemma_members_at(self.entries@, i as int);
                }
                Some(&self.entries[i].1)
            },
            None => None,
        }
    }

    /// Tells whether the object has a member `key`.
    pub fn contains_key(&self, key: &str) -> (has: bool)
        ensures
            has == self@.contains_key(key@),
    {
        self.get(key).is_some()
    }
}

impl Value {
    /// The member `key` of an object; `None` for a value that is no object
    /// and for an object without that member.
    pub fn get(&self, key: &str) -> (member: Option<&Value>)
        ensures
            match member {
                Some(v) => self@ is Object && self@->Object_0.contains_key(key@)
                    && self@->Object_0[key@] == v@,
                None => !(self@ is Object && self@->Object_0.contains_key(key@)),
            },
    {
        match self {
            Value::Object(m) => m.get(key),
            _ => None,
        }
    }
}

fn same_value(a: &Value, b: &Value) -> (same: bool)
    ensures
        same == (a@ == b@),
    decreases a,
{
    match (a, b) {
        (Value::Literal(x), Value::Literal(y)) => *x == *y,
        (Value::Number(x), Value::Number(y)) => *x == *y,
        (Value::String(x), Value::String(y)) => *x == *y,
        (Value::Array(x), Value::Array(y)) => same_values(x, y),
        (Value::Object(x), Value::Object(y)) => same_members(x, y),
        _ => false,
    }
}

fn same_values(a: &Vec<Value>, b: &Vec<Value>) -> (same: bool)
    ensures
        same == (trees_of(a@) == trees_of(b@)),
    decreases a,
{
    proof {
        lemma_trees_of(a@);
        lemma_trees_of(b@);
    }
    if a.len() != b.len() {
        return false;
    }
    let mut i: usize = 0;
    while i < a.len()
        invariant
            i <= a@.len(),
            a@.len() == b@.len(),
            trees_of(a@).len() == a@.len(),
            trees_of(b@).len() == b@.len(),
            forall|k: int| 0 <= k < a@.len() ==> #[trigger] trees_of(a@)[k] == tree_of(a@[k]),
            forall|k: int| 0 <= k < b@.len() ==> #[trigger] trees_of(b@)[k] == tree_of(b@[k]),
            forall|k: int| 0 <= k < i ==> tree_of(#[trigger] a@[k]) == tree_of(b@[k]),
        decreases a@.len() - i,
    {
        if !same_value(&a[i], &b[i]) {
            assert(trees_of(a@)[i as int] != trees_of(b@)[i as int]);
            return false;
        }
        i += 1;
    }
    assert(trees_of(a@) =~= trees_of(b@));
    true
}

fn same_members(a: &RsonMap, b: &RsonMap) -> (same: bool)
    ensures
        same == (a@ == b@),
    decreases a,
{
    proof {
        use_type_invariant(a);
        use_type_invariant(b);
        lemma_members_dom(a.entries@);
        lemma_members_dom(b.entries@);
    }
    let mut i: usize = 0;
    while i < a.entries.len()
        invariant
            i <= a.entries@.len(),
            distinct_keys(a.entries@),
            forall|k: int|
                0 <= k < i ==> b@.contains_key((#[trigger] a.entries@[k]).0@)
                    && b@[a.entries@[k].0@] == tree_of(a.entries@[k].1),
        decreases a.entries@.len() - i,
    {
        proof {
            lemma_members_at(a.entries@, i as int);
        }
        match b.get(a.entries[i].0.as_str()) {
            None => {
                return false;
            },
            Some(other) => {
                if !same_value(&a.entries[i].1, other) {
                    return false;
                }
            },
        }
        i += 1;
    }
    let mut j: usize = 0;
    while j < b.entries.len()
        invariant
            j <= b.entries@.len(),
            distinct_keys(b.entries@),
            forall|k: int| 0 <= k < j ==> a@.contains_key((#[trigger] b.entries@[k]).0@),
        decreases b.entries@.len() - j,
    {
        proof {
            lemma_members_at(b.entries@, j as int);
        }
        if !a.contains_key(b.entries[j].0.as_str()) {
            return false;
        }
        j += 1;
    }
    proof {
        assert forall|k: Seq<char>| a@.contains_key(k) implies b@.contains_key(k) && a@[k]
            == b@[k] by {
            let n = choose|n: int| 0 <= n < a.entries@.len() && (#[trigger] a.entries@[n]).0@ == k;
            lemma_members_at(a.entries@, n);
        }
        assert forall|k: Seq<char>| b@.contains_key(k) implies a@.contains_key(k) by {
            let n = choose|n: int| 0 <= n < b.entries@.len() && (#[trigger] b.entries@[n]).0@ == k;
        }
        assert(a@ =~= b@);
    }
    true
}

impl PartialEq for RsonMap {
    fn eq(&self, other: &Self) -> (same: bool) {
        same_members(self, other)
    }
}

impl Eq for RsonMap {

}

impl PartialEqSpecImpl for RsonMap {
    open spec fn obeys_eq_spec() -> bool {
        true
    }

    open spec fn eq_spec(&self, other: &Self) -> bool {
        self@ == other@
    }
}

impl PartialEq for Value {
    fn eq(&self, other: &Self) -> (same: bool) {
        same_value(self, other)
    }
}

impl Eq for Value {

}

impl PartialEqSpecImpl for Value {
    open spec fn obeys_eq_spec() -> bool {
        true
    }

    open spec fn eq_spec(&self, other: &Self) -> bool {
        self@ == other@
    }
}

} // verus!
