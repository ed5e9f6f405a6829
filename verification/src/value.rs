//! Values in memory: a dictionary keyed by strings, the table of a
//! configuration built on it, and the functions that store and find values
//! under dotted keys.
//!
//! A dictionary keeps its entries in a vector and finds a key by going
//! through them, so each lookup takes time in proportion to the number of
//! keys.

use vstd::prelude::*;
use vstd::slice::slice_subrange;
use vstd::std_specs::cmp::PartialEqSpecImpl;
use crate::text::{from_chars, split, split_on, to_chars, trim, views};
use crate::tree::{children, insert_at, lookup, segments, Tree};

verus! {

/// One named value of a dictionary.
#[derive(Debug)]
struct Entry<V> {
    key: String,
    value: V,
}

/// A mapping from strings to values in which no key occurs twice.
#[derive(Debug)]
pub struct Dict<V> {
    entries: Vec<Entry<V>>,
}

/// A table of a configuration: a mapping from keys to values.
#[derive(Debug)]
pub struct Table {
    dict: Dict<Value>,
}

/// A value is either a leaf string or a nested table (for dot-notation keys).
#[derive(Debug)]
pub enum Value {
    String(String),
    Table(Table),
}

spec fn keys_of<V>(entries: Seq<Entry<V>>) -> Seq<Seq<char>> {
    Seq::new(entries.len(), |i: int| entries[i].key@)
}

impl<V> View for Dict<V> {
    type V = Map<Seq<char>, V>;

    closed spec fn view(&self) -> Map<Seq<char>, V> {
        Map::new(
            |k: Seq<char>| keys_of(self.entries@).contains(k),
            |k: Seq<char>| self.entries[keys_of(self.entries@).index_of(k)].value,
        )
    }
}

impl View for Value {
    type V = Tree;

    open spec fn view(&self) -> Tree
        decreases self,
    {
        match self {
            Value::String(s) => Tree::Leaf(s@),
            Value::Table(t) => Tree::Node(t.view()),
        }
    }
}

impl View for Table {
    type V = Map<Seq<char>, Tree>;

    closed spec fn view(&self) -> Map<Seq<char>, Tree>
        decreases self,
    {
        Map::new(
            |k: Seq<char>| keys_of(self.dict.entries@).contains(k),
            |k: Seq<char>|
                {
                    let i = keys_of(self.dict.entries@).index_of(k);
                    if 0 <= i < self.dict.entries.len() {
                        self.dict.entries[i].value.view()
                    } else {
                        arbitrary()
                    }
                },
        )
    }
}

/// The texts of `parts`, in order.
pub open spec fn texts(parts: Seq<String>) -> Seq<Seq<char>> {
    Seq::new(parts.len(), |i: int| parts[i]@)
}

/// Under distinct keys, each entry is what the dictionary holds under its
/// key.
proof fn lemma_entry<V>(d: Dict<V>, i: int)
    requires
        keys_of(d.entries@).no_duplicates(),
        0 <= i < d.entries.len(),
    ensures
        d@.contains_key(d.entries[i].key@),
        d@[d.entries[i].key@] == d.entries[i].value,
{
    let ks = keys_of(d.entries@);
    assert(ks[i] == d.entries[i].key@);
    assert(ks.contains(ks[i]));
}

/// The keys of a dictionary are exactly the keys of its entries.
proof fn lemma_domain<V>(d: Dict<V>)
    requires
        keys_of(d.entries@).no_duplicates(),
    ensures
        d@.dom() == keys_of(d.entries@).to_set(),
        d@.dom().finite(),
        d@.len() == d.entries.len(),
{
    let ks = keys_of(d.entries@);
    ks.unique_seq_to_set();
    assert(d@.dom() =~= ks.to_set());
}

/// Adding an entry under a new key inserts it; distinctness is kept.
proof fn lemma_push<V>(before: Dict<V>, after: Dict<V>, e: Entry<V>)
    requires
        keys_of(before.entries@).no_duplicates(),
        !keys_of(before.entries@).contains(e.key@),
        after.entries@ == before.entries@.push(e),
    ensures
        keys_of(after.entries@).no_duplicates(),
        after@ == before@.insert(e.key@, e.value),
{
    let kb = keys_of(before.entries@);
    let ka = keys_of(after.entries@);
    let n = before.entries.len() as int;
    let target = before@.insert(e.key@, e.value);
    assert forall|i: int, j: int| 0 <= i < ka.len() && 0 <= j < ka.len() && i != j implies ka[i]
        != ka[j] by {
        if i < n && j < n {
            assert(ka[i] == kb[i] && ka[j] == kb[j]);
        } else if i < n {
            assert(ka[i] == kb[i]);
        } else {
            assert(ka[j] == kb[j]);
        }
    }
    assert forall|k: Seq<char>| #[trigger] after@.contains_key(k) <==> target.contains_key(k) by {
        if before@.contains_key(k) {
            let i = kb.index_of(k);
            assert(ka[i] == k);
        }
        if k == e.key@ {
            assert(ka[n] == k);
        }
        if after@.contains_key(k) && k != e.key@ {
            let i = ka.index_of(k);
            assert(kb[i] == k);
        }
    }
    assert forall|k: Seq<char>| #[trigger] after@.contains_key(k) implies after@[k] == target[k] by {
        let i = ka.index_of(k);
        lemma_entry(after, i);
        if i < n {
            assert(kb[i] == k);
            lemma_entry(before, i);
        }
    }
    assert(after@ =~= target);
}

/// Replacing the value of one entry inserts the new value under its key;
/// distinctness is kept.
proof fn lemma_replace<V>(before: Dict<V>, after: Dict<V>, i: int)
    requires
        keys_of(before.entries@).no_duplicates(),
        0 <= i < before.entries.len(),
        after.entries.len() == before.entries.len(),
        after.entries[i].key@ == before.entries[i].key@,
        forall|j: int|
            0 <= j < before.entries.len() && j != i ==> after.entries[j] == before.entries[j],
    ensures
        keys_of(after.entries@) == keys_of(before.entries@),
        after@ == before@.insert(before.entries[i].key@, after.entries[i].value),
{
    let kb = keys_of(before.entries@);
    let ka = keys_of(after.entries@);
    assert(ka =~= kb) by {
        assert forall|j: int| 0 <= j < ka.len() implies ka[j] == kb[j] by {
            if j != i {
                assert(after.entries[j] == before.entries[j]);
            }
        }
    }
    let key = before.entries[i].key@;
    let target = before@.insert(key, after.entries[i].value);
    assert forall|k: Seq<char>| #[trigger] after@.contains_key(k) <==> target.contains_key(k) by {
        assert(kb[i] == key);
    }
    assert forall|k: Seq<char>| #[trigger] after@.contains_key(k) implies after@[k] == target[k] by {
        let j = ka.index_of(k);
        assert(ka[j] == k);
        lemma_entry(after, j);
        if j != i {
            assert(kb[j] != kb[i]);
            assert(after.entries[j] == before.entries[j]);
            lemma_entry(before, j);
        }
    }
    assert(after@ =~= target);
}

/// A dictionary whose keys are all in another of the same size, with the
/// same value under each, is that other dictionary.
proof fn lemma_same<V>(a: Map<Seq<char>, V>, b: Map<Seq<char>, V>)
    requires
        a.dom().finite(),
        b.dom().finite(),
        a.len() == b.len(),
        forall|k: Seq<char>| #[trigger] a.contains_key(k) ==> b.contains_key(k) && b[k] == a[k],
    ensures
        a == b,
{
    assert(a.dom().subset_of(b.dom()));
    vstd::set_lib::lemma_subset_equality(a.dom(), b.dom());
    assert(a =~= b);
}

/// Tables with the same keys in the same order, and the same tree under
/// each, are the same mapping.
proof fn lemma_same_entries(a: Table, b: Table)
    requires
        keys_of(a.dict.entries@).no_duplicates(),
        a.dict.entries.len() == b.dict.entries.len(),
        forall|i: int|
            0 <= i < a.dict.entries.len() ==> a.dict.entries[i].key@ == b.dict.entries[i].key@
                && a.dict.entries[i].value@ == b.dict.entries[i].value@,
    ensures
        keys_of(b.dict.entries@) == keys_of(a.dict.entries@),
        a@ == b@,
{
    assert(keys_of(a.dict.entries@) =~= keys_of(b.dict.entries@));
    assert(a@ =~= b@);
}

/// What a table is, in terms of the dictionary that holds it: the same
/// keys, each with the tree of its value.
proof fn lemma_table(t: Table)
    requires
        keys_of(t.dict.entries@).no_duplicates(),
    ensures
        t@.dom() == t.dict@.dom(),
        forall|k: Seq<char>| #[trigger] t@.contains_key(k) ==> t@[k] == t.dict@[k]@,
{
    assert(t@.dom() =~= t.dict@.dom());
}

impl<V> Dict<V> {
    /// The keys of the dictionary, in the order in which `nth` hands them
    /// out.
    pub closed spec fn keys(&self) -> Seq<Seq<char>> {
        keys_of(self.entries@)
    }

    #[verifier::type_invariant]
    spec fn distinct_keys(self) -> bool {
        keys_of(self.entries@).no_duplicates()
    }

    /// An empty dictionary.
    pub fn new() -> (d: Dict<V>)
        ensures
            d@ == Map::<Seq<char>, V>::empty(),
            d.keys() == Seq::<Seq<char>>::empty(),
    {
        let d = Dict { entries: Vec::new() };
        assert(d@ =~= Map::<Seq<char>, V>::empty());
        assert(d.keys() =~= Seq::<Seq<char>>::empty());
        d
    }

    /// The number of keys.
    pub fn len(&self) -> (n: usize)
        ensures
            n == self@.len(),
            n == self.keys().len(),
            self.keys().no_duplicates(),
            self@.dom() == self.keys().to_set(),
            self@.dom().finite(),
    {
        proof {
            use_type_invariant(self);
            lemma_domain(*self);
        }
        self.entries.len()
    }

    /// Whether the dictionary has no keys.
    pub fn is_empty(&self) -> (b: bool)
        ensures
            b == (self@.len() == 0),
            b == (self@ == Map::<Seq<char>, V>::empty()),
    {
        let n = self.len();
        proof {
            if n == 0 {
                assert(self@.dom() =~= Set::<Seq<char>>::empty());
                assert(self@ =~= Map::<Seq<char>, V>::empty());
            }
        }
        n == 0
    }

    /// The `i`-th key and its value, for `i` below `len()`. The value is a
    /// part of the dictionary, so a function that walks nested dictionaries
    /// may call itself on it.
    pub fn nth(&self, i: usize) -> (r: Option<(&String, &V)>)
        ensures
            r is Some <==> i < self.keys().len(),
            r matches Some((k, v)) ==> k@ == self.keys()[i as int] && self@.contains_key(k@)
                && self@[k@] == *v && decreases_to!(self => v),
    {
        if i < self.entries.len() {
            proof {
                use_type_invariant(self);
                lemma_entry(*self, i as int);
            }
            Some((&self.entries[i].key, &self.entries[i].value))
        } else {
            None
        }
    }

    /// Where `key` stands among the entries.
    fn position(&self, key: &String) -> (r: Option<usize>)
        ensures
            match r {
                Some(i) => i < self.entries.len() && self.entries[i as int].key@ == key@
                    && self@.contains_key(key@) && self@[key@] == self.entries[i as int].value,
                None => !self@.contains_key(key@),
            },
    {
        proof {
            use_type_invariant(self);
        }
        let mut i: usize = 0;
        while i < self.entries.len()
            invariant
                i <= self.entries.len(),
                keys_of(self.entries@).no_duplicates(),
                forall|j: int| 0 <= j < i ==> self.entries[j].key@ != key@,
            decreases self.entries.len() - i,
        {
            if self.entries[i].key == *key {
                proof {
                    lemma_entry(*self, i as int);
                }
                return Some(i);
            }
            i += 1;
        }
        None
    }

    /// The value under `key`, if the dictionary has that key.
    pub fn get(&self, key: &str) -> (r: Option<&V>)
        ensures
            match r {
                Some(v) => self@.contains_key(key@) && self@[key@] == *v && decreases_to!(self => v),
                None => !self@.contains_key(key@),
            },
    {
        let owned = key.to_owned();
        match self.position(&owned) {
            Some(i) => Some(&self.entries[i].value),
            None => None,
        }
    }

    /// Whether the dictionary has `key`.
    pub fn contains_key(&self, key: &str) -> (b: bool)
        ensures
            b == self@.contains_key(key@),
    {
        self.get(key).is_some()
    }

    /// Moves the entries out and leaves the dictionary empty.
    fn take_entries(&mut self) -> (entries: Vec<Entry<V>>)
        ensures
            entries == old(self).entries,
            final(self).entries@ == Seq::<Entry<V>>::empty(),
    {
        let mut entries: Vec<Entry<V>> = Vec::new();
        core::mem::swap(&mut self.entries, &mut entries);
        entries
    }

    /// Exchanges the value of the `i`-th entry with `value`.
    fn exchange(&mut self, i: usize, value: &mut V)
        requires
            i < old(self).entries.len(),
        ensures
            final(self)@ == old(self)@.insert(old(self).entries[i as int].key@, *old(value)),
            final(self).keys() == old(self).keys(),
            *final(value) == old(self).entries[i as int].value,
    {
        proof {
            use_type_invariant(&*self);
        }
        let ghost before = *self;
        let mut entries = self.take_entries();
        core::mem::swap(&mut entries[i].value, value);
        proof {
            lemma_replace(before, Dict { entries }, i as int);
        }
        self.entries = entries;
    }

    /// Stores `value` under `key` and hands back what the key held before.
    pub fn insert(&mut self, key: String, value: V) -> (previous: Option<V>)
        ensures
            final(self)@ == old(self)@.insert(key@, value),
            match previous {
                Some(v) => old(self)@.contains_key(key@) && old(self)@[key@] == v,
                None => !old(self)@.contains_key(key@),
            },
    {
        proof {
            use_type_invariant(&*self);
        }
        let ghost before = *self;
        match self.position(&key) {
            Some(i) => {
                let mut value = value;
                self.exchange(i, &mut value);
                Some(value)
            },
            None => {
                let e = Entry { key, value };
                let mut entries = self.take_entries();
                entries.push(e);
                proof {
                    lemma_push(before, Dict { entries }, e);
                }
                self.entries = entries;
                None
            },
        }
    }
}

impl<V: Copy> Dict<V> {
    /// A copy of the dictionary.
    pub fn duplicate(&self) -> (d: Dict<V>)
        ensures
            d@ == self@,
            d.keys() == self.keys(),
    {
        proof {
            use_type_invariant(self);
        }
        let mut entries: Vec<Entry<V>> = Vec::new();
        let mut i: usize = 0;
        while i < self.entries.len()
            invariant
                i <= self.entries.len(),
                entries.len() == i,
                forall|j: int| 0 <= j < i ==> entries[j] == self.entries[j],
            decreases self.entries.len() - i,
        {
            entries.push(Entry { key: self.entries[i].key.clone(), value: self.entries[i].value });
            i += 1;
        }
        assert(entries@ =~= self.entries@);
        Dict { entries }
    }
}

impl<V: Copy> Clone for Dict<V> {
    fn clone(&self) -> (d: Dict<V>)
        ensures
            d@ == self@,
    {
        self.duplicate()
    }
}

impl Table {
    /// The keys of the table, in the order in which `nth` hands them out.
    pub closed spec fn keys(&self) -> Seq<Seq<char>> {
        self.dict.keys()
    }

    /// An empty table.
    pub fn new() -> (t: Table)
        ensures
            t@ == Map::<Seq<char>, Tree>::empty(),
            t.keys() == Seq::<Seq<char>>::empty(),
    {
        let t = Table { dict: Dict::new() };
        assert(t@ =~= Map::<Seq<char>, Tree>::empty());
        t
    }

    /// The number of keys.
    pub fn len(&self) -> (n: usize)
        ensures
            n == self@.len(),
            n == self.keys().len(),
            self.keys().no_duplicates(),
            self@.dom() == self.keys().to_set(),
            self@.dom().finite(),
    {
        proof {
            use_type_invariant(&self.dict);
            lemma_table(*self);
        }
        self.dict.len()
    }

    /// Whether the table has no keys.
    pub fn is_empty(&self) -> (b: bool)
        ensures
            b == (self@.len() == 0),
            b == (self@ == Map::<Seq<char>, Tree>::empty()),
    {
        let n = self.len();
        proof {
            if n == 0 {
                assert(self@.dom() =~= Set::<Seq<char>>::empty());
                assert(self@ =~= Map::<Seq<char>, Tree>::empty());
            }
        }
        n == 0
    }

    /// The `i`-th key and its value, for `i` below `len()`. The value is a
    /// part of the table, so a function that walks nested tables may call
    /// itself on it.
    pub fn nth(&self, i: usize) -> (r: Option<(&String, &Value)>)
        ensures
            r is Some <==> i < self.keys().len(),
            r matches Some((k, v)) ==> k@ == self.keys()[i as int] && self@.contains_key(k@)
                && self@[k@] == v@ && decreases_to!(self => v),
    {
        proof {
            use_type_invariant(&self.dict);
            lemma_table(*self);
        }
        self.dict.nth(i)
    }

    /// The value under `key`, if the table has that key.
    pub fn get(&self, key: &str) -> (r: Option<&Value>)
        ensures
            match r {
                Some(v) => self@.contains_key(key@) && self@[key@] == v@ && decreases_to!(self => v),
                None => !self@.contains_key(key@),
            },
    {
        proof {
            use_type_invariant(&self.dict);
            lemma_table(*self);
        }
        self.dict.get(key)
    }

    /// Whether the table has `key`.
    pub fn contains_key(&self, key: &str) -> (b: bool)
        ensures
            b == self@.contains_key(key@),
    {
        self.get(key).is_some()
    }

    /// Stores `value` under `key` and hands back what the key held before.
    pub fn insert(&mut self, key: String, value: Value) -> (previous: Option<Value>)
        ensures
            final(self)@ == old(self)@.insert(key@, value@),
            match previous {
                Some(v) => old(self)@.contains_key(key@) && old(self)@[key@] == v@,
                None => !old(self)@.contains_key(key@),
            },
    {
        proof {
            use_type_invariant(&self.dict);
            lemma_table(*self);
        }
        let previous = self.dict.insert(key, value);
        proof {
            use_type_invariant(&self.dict);
            lemma_table(*self);
            assert(self@ =~= old(self)@.insert(key@, value@));
        }
        previous
    }

    /// Moves out the table held under `key`, or hands out an empty table
    /// where `key` is absent or holds a string. Nothing else changes.
    fn take_children(&mut self, key: &String) -> (child: Table)
        ensures
            child@ == children(old(self)@, key@),
            final(self)@.remove(key@) == old(self)@.remove(key@),
    {
        proof {
            use_type_invariant(&self.dict);
            lemma_table(*self);
        }
        match self.dict.position(key) {
            Some(i) => {
                let mut held = Value::String(String::new());
                self.dict.exchange(i, &mut held);
                proof {
                    use_type_invariant(&self.dict);
                    lemma_table(*self);
                    assert(self@.remove(key@) =~= old(self)@.remove(key@));
                }
                match held {
                    Value::Table(t) => t,
                    Value::String(_) => Table::new(),
                }
            },
            None => Table::new(),
        }
    }

    /// Whether the two tables hold the same keys with the same values.
    pub fn same(&self, other: &Table) -> (b: bool)
        ensures
            b == (self@ == other@),
        decreases self,
    {
        let n = self.len();
        if n != other.len() {
            return false;
        }
        let mut i: usize = 0;
        while i < n
            invariant
                i <= n,
                n == self.keys().len(),
                self@.dom() == self.keys().to_set(),
                forall|j: int|
                    0 <= j < i ==> other@.contains_key(#[trigger] self.keys()[j]) && other@[self.keys()[j]]
                        == self@[self.keys()[j]],
            decreases n - i,
        {
            match self.nth(i) {
                Some((key, value)) => {
                    match other.get(key.as_str()) {
                        None => {
                            return false;
                        },
                        Some(found) => {
                            if !value.same(found) {
                                return false;
                            }
                        },
                    }
                },
                None => {},
            }
            i += 1;
        }
        proof {
            assert forall|k: Seq<char>| #[trigger] self@.contains_key(k) implies other@.contains_key(
                k,
            ) && other@[k] == self@[k] by {
                assert(self.keys().to_set().contains(k));
                let j = choose|j: int| 0 <= j < self.keys().len() && self.keys()[j] == k;
                assert(other@.contains_key(self.keys()[j]));
            }
            lemma_same(self@, other@);
        }
        true
    }

    /// A copy of the table.
    pub fn duplicate(&self) -> (t: Table)
        ensures
            t@ == self@,
        decreases self,
    {
        proof {
            use_type_invariant(&self.dict);
        }
        let mut entries: Vec<Entry<Value>> = Vec::new();
        let mut i: usize = 0;
        while i < self.dict.entries.len()
            invariant
                i <= self.dict.entries.len(),
                entries.len() == i,
                forall|j: int|
                    0 <= j < i ==> entries[j].key@ == self.dict.entries[j].key@ && entries[j].value@
                        == self.dict.entries[j].value@,
            decreases self.dict.entries.len() - i,
        {
            let key = self.dict.entries[i].key.clone();
            let value = self.dict.entries[i].value.duplicate();
            entries.push(Entry { key, value });
            i += 1;
        }
        proof {
            lemma_same_entries(*self, Table { dict: Dict { entries } });
        }
        Table { dict: Dict { entries } }
    }
}

impl Value {
    /// Whether the two values are the same text, or tables that hold the
    /// same keys with the same values.
    pub fn same(&self, other: &Value) -> (b: bool)
        ensures
            b == (self@ == other@),
        decreases self,
    {
        match (self, other) {
            (Value::String(a), Value::String(b)) => *a == *b,
            (Value::Table(a), Value::Table(b)) => a.same(b),
            _ => false,
        }
    }

    /// A copy of the value.
    pub fn duplicate(&self) -> (v: Value)
        ensures
            v@ == self@,
        decreases self,
    {
        match self {
            Value::String(s) => Value::String(s.clone()),
            Value::Table(t) => Value::Table(t.duplicate()),
        }
    }
}

/// Stores `value` in `map` under the path `parts`: every part but the last
/// names a nested table, which is entered where it exists and started empty
/// where the key is absent or holds a string; the last part is set to
/// `value`. Without parts nothing changes.
pub fn set_nested_rest(map: &mut Table, parts: &[String], value: Value)
    ensures
        final(map)@ == insert_at(old(map)@, texts(parts@), value@),
    decreases parts@.len(),
{
    let n = parts.len();
    if n == 0 {
        return ;
    }
    let first = parts[0].clone();
    if n == 1 {
        map.insert(first, value);
        return ;
    }
    let rest = slice_subrange(parts, 1, n);
    assert(texts(rest@) =~= texts(parts@).drop_first());
    let mut child = map.take_children(&first);
    set_nested_rest(&mut child, rest, value);
    let ghost held = map@;
    map.insert(first, Value::Table(child));
    assert(map@ == old(map)@.insert(first@, Tree::Node(child@))) by {
        assert(held.insert(first@, Tree::Node(child@)) =~= held.remove(first@).insert(
            first@,
            Tree::Node(child@),
        ));
        assert(old(map)@.insert(first@, Tree::Node(child@)) =~= old(map)@.remove(first@).insert(
            first@,
            Tree::Node(child@),
        ));
    }
}

/// The strings that spell the segments of the dotted key `key`.
fn key_parts(key: &[char]) -> (parts: Vec<String>)
    ensures
        texts(parts@) == segments(key@),
{
    let pieces = split(key, '.');
    let mut parts: Vec<String> = Vec::new();
    let mut i: usize = 0;
    while i < pieces.len()
        invariant
            i <= pieces.len(),
            parts.len() == i,
            views(pieces@) == split_on(key@, '.'),
            forall|j: int| 0 <= j < i ==> parts[j]@ == segments(key@)[j],
        decreases pieces.len() - i,
    {
        assert(views(pieces@)[i as int] == pieces[i as int]@);
        parts.push(from_chars(trim(pieces[i])));
        i += 1;
    }
    assert(texts(parts@) =~= segments(key@));
    parts
}

/// What `root` holds under the dotted key `key`, whose segments are the
/// pieces between dots, each trimmed.
pub fn get_nested<'a>(root: &'a Table, key: &str) -> (r: Option<&'a Value>)
    ensures
        match r {
            Some(v) => lookup(root@, segments(key@)) == Some(v@),
            None => lookup(root@, segments(key@)) is None,
        },
{
    let chars = to_chars(key);
    let parts = key_parts(chars.as_slice());
    let ghost path = segments(key@);
    let n = parts.len();
    let mut table: &'a Table = root;
    let mut i: usize = 0;
    assert(path.skip(0) =~= path);
    while i < n
        invariant
            i <= n,
            n == parts.len(),
            path == texts(parts@),
            path == segments(key@),
            i == n ==> n == 0,
            lookup(root@, path) == lookup(table@, path.skip(i as int)),
        decreases n - i,
    {
        let ghost rest = path.skip(i as int);
        assert(rest[0] == parts[i as int]@);
        assert(rest.drop_first() =~= path.skip(i + 1));
        match table.get(parts[i].as_str()) {
            None => {
                return None;
            },
            Some(v) => {
                if i + 1 == n {
                    return Some(v);
                }
                match v {
                    Value::Table(inner) => {
                        table = inner;
                    },
                    Value::String(_) => {
                        return None;
                    },
                }
            },
        }
        i += 1;
    }
    None
}

/// Stores `value` in `root` under the dotted key `key`, whose segments are
/// the pieces between dots, each trimmed.
pub fn set_nested(root: &mut Table, key: &str, value: Value)
    ensures
        final(root)@ == insert_at(old(root)@, segments(key@), value@),
{
    let chars = to_chars(key);
    set_at(root, chars.as_slice(), value)
}

/// `set_nested` for a key that is at hand as characters.
pub fn set_at(root: &mut Table, key: &[char], value: Value)
    ensures
        final(root)@ == insert_at(old(root)@, segments(key@), value@),
{
    let parts = key_parts(key);
    set_nested_rest(root, parts.as_slice(), value)
}

impl<V> Default for Dict<V> {
    fn default() -> (d: Dict<V>)
        ensures
            d@ == Map::<Seq<char>, V>::empty(),
    {
        Dict::new()
    }
}

impl Default for Table {
    fn default() -> (t: Table)
        ensures
            t@ == Map::<Seq<char>, Tree>::empty(),
    {
        Table::new()
    }
}

impl PartialEq for Value {
    fn eq(&self, other: &Value) -> (b: bool) {
        self.same(other)
    }
}

impl PartialEqSpecImpl for Value {
    open spec fn obeys_eq_spec() -> bool {
        true
    }

    open spec fn eq_spec(&self, other: &Value) -> bool {
        self@ == other@
    }
}

impl PartialEq for Table {
    fn eq(&self, other: &Table) -> (b: bool) {
        self.same(other)
    }
}

impl PartialEqSpecImpl for Table {
    open spec fn obeys_eq_spec() -> bool {
        true
    }

    open spec fn eq_spec(&self, other: &Table) -> bool {
        self@ == other@
    }
}

impl Clone for Value {
    fn clone(&self) -> (v: Value)
        ensures
            v@ == self@,
    {
        self.duplicate()
    }
}

impl Clone for Table {
    fn clone(&self) -> (t: Table)
        ensures
            t@ == self@,
    {
        self.duplicate()
    }
}

} // verus!
