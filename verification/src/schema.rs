//! Schemas for sysctl.conf-style configs.
//!
//! Schema text uses the same grammar as the configuration: `key = type` per
//! line, with dot notation for nested keys. The types are `string`, `bool`,
//! `integer` and `float`.

use vstd::prelude::*;
use vstd::std_specs::cmp::PartialEqSpecImpl;
use vstd::string::StringExecFns;
use crate::number::{is_float, is_float_text, is_integer, is_integer_text};
use crate::parser::{lemma_parsed_paths, parse, parse_str, ParseError, ParseErrorView};
use crate::paths::{
    dotted, has_leaf, join, joined, leaf_at, lemma_dotted_tells_apart, lemma_leaf_below,
    lemma_leaf_here, lemma_leaf_inside, lemma_leaf_starts_among, starts_among,
};
use crate::text::{lowered, spells, split_on, to_chars, to_lowered, trim, trimmed};
use crate::tree::Tree;
use crate::value::{Dict, Table, Value};

verus! {

/// Expected type for a config key.
#[derive(Debug, Clone, Copy, PartialEq, Eq, Structural)]
pub enum SchemaType {
    String,
    Bool,
    Integer,
    Float,
}

/// Parsed schema: dotted key path -> expected type.
pub type Schema = Dict<SchemaType>;

/// A malformed schema: text that does not parse, or a type name that is not
/// known.
#[derive(Debug)]
pub enum SchemaParseError {
    Parse(ParseError),
    UnknownType { key: String, name: String },
}

/// The type that `name` denotes, without regard to surrounding whitespace
/// and to upper and lower case.
pub open spec fn type_named(name: Seq<char>) -> Option<SchemaType> {
    let word = lowered(trimmed(name));
    if word == "string"@ {
        Some(SchemaType::String)
    } else if word == "bool"@ || word == "boolean"@ {
        Some(SchemaType::Bool)
    } else if word == "integer"@ || word == "int"@ {
        Some(SchemaType::Integer)
    } else if word == "float"@ || word == "number"@ {
        Some(SchemaType::Float)
    } else {
        None
    }
}

/// The name under which a type is reported.
pub open spec fn label(t: SchemaType) -> Seq<char> {
    match t {
        SchemaType::String => "string"@,
        SchemaType::Bool => "bool"@,
        SchemaType::Integer => "integer"@,
        SchemaType::Float => "float"@,
    }
}

/// Whether `s` is one of the six words for a truth value, in any mix of
/// upper and lower case.
pub open spec fn is_bool(s: Seq<char>) -> bool {
    let word = lowered(s);
    ||| word == "true"@
    ||| word == "false"@
    ||| word == "1"@
    ||| word == "0"@
    ||| word == "yes"@
    ||| word == "no"@
}

/// Whether the raw text `raw`, once trimmed, is a value of type `t`.
pub open spec fn accepts(t: SchemaType, raw: Seq<char>) -> bool {
    match t {
        SchemaType::String => true,
        SchemaType::Bool => is_bool(trimmed(raw)),
        SchemaType::Integer => is_integer(trimmed(raw)),
        SchemaType::Float => is_float(trimmed(raw)),
    }
}

/// Whether every leaf of `tree` holds the name of a type.
pub open spec fn all_typed(tree: Map<Seq<char>, Tree>) -> bool {
    forall|path: Seq<Seq<char>>, text: Seq<char>| #[trigger]
        leaf_at(tree, path, text) ==> type_named(text) is Some
}

/// Whether `key` is the dotted path, under `prefix`, of a leaf of `tree`
/// that names the type `t`.
pub open spec fn named_by_leaf(
    tree: Map<Seq<char>, Tree>,
    prefix: Seq<char>,
    key: Seq<char>,
    t: SchemaType,
) -> bool {
    exists|text: Seq<char>| #[trigger] has_leaf(tree, prefix, key, text) && type_named(text) == Some(t)
}

/// Whether `schema` is what flattening `tree`, whose dotted paths start with
/// `prefix`, makes of the schema `before`: it has the dotted path of every
/// leaf; each key that it has was in `before` with the same type, or is the
/// dotted path of a leaf that names its type; and it has every key of
/// `before`.
pub open spec fn gathers(
    schema: Map<Seq<char>, SchemaType>,
    tree: Map<Seq<char>, Tree>,
    prefix: Seq<char>,
    before: Map<Seq<char>, SchemaType>,
) -> bool {
    &&& forall|path: Seq<Seq<char>>, text: Seq<char>| #[trigger]
        leaf_at(tree, path, text) ==> schema.contains_key(dotted(prefix, path))
    &&& forall|key: Seq<char>| #[trigger]
        schema.contains_key(key) ==> (before.contains_key(key) && schema[key] == before[key])
            || named_by_leaf(tree, prefix, key, schema[key])
    &&& forall|key: Seq<char>| before.contains_key(key) ==> #[trigger] schema.contains_key(key)
}

/// Whether `schema` is a flattening of `tree`: its keys are the dotted paths
/// of the leaves, and each key has the type that a leaf with that dotted
/// path names.
pub open spec fn describes(schema: Map<Seq<char>, SchemaType>, tree: Map<Seq<char>, Tree>) -> bool {
    &&& forall|path: Seq<Seq<char>>, text: Seq<char>| #[trigger]
        leaf_at(tree, path, text) ==> schema.contains_key(dotted(Seq::empty(), path))
    &&& forall|key: Seq<char>| #[trigger]
        schema.contains_key(key) ==> named_by_leaf(tree, Seq::empty(), key, schema[key])
}

/// Whether `e` names a leaf of `tree`, whose dotted paths start with
/// `prefix`, that holds no type name.
pub open spec fn unknown_type_in(
    tree: Map<Seq<char>, Tree>,
    prefix: Seq<char>,
    e: SchemaParseError,
) -> bool {
    &&& e matches SchemaParseError::UnknownType { key, name }
    &&& has_leaf(tree, prefix, key@, name@)
    &&& type_named(name@) is None
}

/// What `flatten_to_schema_impl` may hand back for `tree` under `prefix`,
/// started with the schema `before` and ended with the schema `after`:
/// success where every leaf names a type, and otherwise an error that names
/// a leaf that does not.
pub open spec fn flattened(
    tree: Map<Seq<char>, Tree>,
    prefix: Seq<char>,
    before: Map<Seq<char>, SchemaType>,
    after: Map<Seq<char>, SchemaType>,
    r: Result<(), SchemaParseError>,
) -> bool {
    match r {
        Ok(_) => all_typed(tree) && gathers(after, tree, prefix, before),
        Err(e) => unknown_type_in(tree, prefix, e),
    }
}

/// Whether `e` is an error that the schema text `input` has: the error of
/// its parse, or a leaf of its tree that holds no type name.
pub open spec fn schema_error(input: Seq<char>, e: SchemaParseError) -> bool {
    match e {
        SchemaParseError::Parse(found) => parse(input) == Err::<
            Map<Seq<char>, Tree>,
            ParseErrorView,
        >(found@),
        SchemaParseError::UnknownType { .. } => parse(input) matches Ok(tree) && unknown_type_in(
            tree,
            Seq::empty(),
            e,
        ),
    }
}

impl SchemaParseError {
    /// The text of the error.
    pub open spec fn text(&self) -> Seq<char> {
        match self {
            SchemaParseError::Parse(e) => "parse: "@ + e.text(),
            SchemaParseError::UnknownType { key, name } => "schema key '"@ + key@
                + "': unknown type '"@ + name@ + "'"@,
        }
    }

    /// The error as text.
    pub fn to_string(&self) -> (out: String)
        ensures
            out@ == self.text(),
    {
        match self {
            SchemaParseError::Parse(e) => {
                let mut out = "parse: ".to_owned();
                out.append(e.to_string().as_str());
                out
            },
            SchemaParseError::UnknownType { key, name } => {
                let mut out = "schema key '".to_owned();
                out.append(key.as_str());
                out.append("': unknown type '");
                out.append(name.as_str());
                out.append("'");
                out
            },
        }
    }
}

impl SchemaType {
    /// The type that `name` denotes, if it denotes one.
    pub fn from_name(name: &str) -> (r: Option<SchemaType>)
        ensures
            r == type_named(name@),
    {
        let chars = to_chars(name);
        let low = to_lowered(trim(chars.as_slice()));
        let word = low.as_slice();
        if spells(word, "string") {
            Some(SchemaType::String)
        } else if spells(word, "bool") || spells(word, "boolean") {
            Some(SchemaType::Bool)
        } else if spells(word, "integer") || spells(word, "int") {
            Some(SchemaType::Integer)
        } else if spells(word, "float") || spells(word, "number") {
            Some(SchemaType::Float)
        } else {
            None
        }
    }

    /// The name under which the type is reported.
    pub fn name(&self) -> (s: &'static str)
        ensures
            s@ == label(*self),
    {
        match self {
            SchemaType::String => "string",
            SchemaType::Bool => "bool",
            SchemaType::Integer => "integer",
            SchemaType::Float => "float",
        }
    }

    /// Returns true if the raw string is valid for this type.
    pub fn check_value(&self, raw: &str) -> (b: bool)
        ensures
            b == accepts(*self, raw@),
    {
        match self {
            SchemaType::String => true,
            SchemaType::Bool => {
                let chars = to_chars(raw);
                let low = to_lowered(trim(chars.as_slice()));
                let word = low.as_slice();
                spells(word, "true") || spells(word, "false") || spells(word, "1") || spells(
                    word,
                    "0",
                ) || spells(word, "yes") || spells(word, "no")
            },
            SchemaType::Integer => {
                let chars = to_chars(raw);
                is_integer_text(trim(chars.as_slice()))
            },
            SchemaType::Float => {
                let chars = to_chars(raw);
                is_float_text(trim(chars.as_slice()))
            },
        }
    }
}

/// `gathers`, for the leaves under the first `n` of `keys` only.
spec fn gathers_first(
    schema: Map<Seq<char>, SchemaType>,
    tree: Map<Seq<char>, Tree>,
    keys: Seq<Seq<char>>,
    n: int,
    prefix: Seq<char>,
    before: Map<Seq<char>, SchemaType>,
) -> bool {
    &&& forall|path: Seq<Seq<char>>, text: Seq<char>| #[trigger]
        leaf_at(tree, path, text) && starts_among(path, keys, n) ==> type_named(text) is Some
            && schema.contains_key(dotted(prefix, path))
    &&& forall|key: Seq<char>| #[trigger]
        schema.contains_key(key) ==> (before.contains_key(key) && schema[key] == before[key])
            || named_by_leaf(tree, prefix, key, schema[key])
    &&& forall|key: Seq<char>| before.contains_key(key) ==> #[trigger] schema.contains_key(key)
}

/// One more key, which holds a leaf that names a type: its dotted path gets
/// that type.
proof fn lemma_gather_leaf(
    held: Map<Seq<char>, SchemaType>,
    tree: Map<Seq<char>, Tree>,
    keys: Seq<Seq<char>>,
    i: int,
    prefix: Seq<char>,
    before: Map<Seq<char>, SchemaType>,
    name: Seq<char>,
    t: SchemaType,
)
    requires
        0 <= i < keys.len(),
        gathers_first(held, tree, keys, i, prefix, before),
        tree.contains_key(keys[i]),
        tree[keys[i]] == Tree::Leaf(name),
        type_named(name) == Some(t),
    ensures
        gathers_first(held.insert(joined(prefix, keys[i]), t), tree, keys, i + 1, prefix, before),
{
    let key = joined(prefix, keys[i]);
    let out = held.insert(key, t);
    lemma_leaf_here(tree, prefix, keys[i], name);
    assert forall|path: Seq<Seq<char>>, text: Seq<char>| #[trigger]
        leaf_at(tree, path, text) && starts_among(path, keys, i + 1) implies type_named(
        text,
    ) is Some && out.contains_key(dotted(prefix, path)) by {
        lemma_leaf_below(tree, prefix, path, text);
        if path[0] != keys[i] {
            assert(starts_among(path, keys, i));
        }
    }
    assert forall|q: Seq<char>| #[trigger] out.contains_key(q) implies (before.contains_key(q)
        && out[q] == before[q]) || named_by_leaf(tree, prefix, q, out[q]) by {
        if q == key {
            assert(has_leaf(tree, prefix, q, name));
        } else {
            assert(held.contains_key(q));
        }
    }
}

/// One more key, which holds a table whose leaves were gathered: they are
/// leaves of the whole, under the same dotted paths.
proof fn lemma_gather_table(
    held: Map<Seq<char>, SchemaType>,
    out: Map<Seq<char>, SchemaType>,
    tree: Map<Seq<char>, Tree>,
    keys: Seq<Seq<char>>,
    i: int,
    prefix: Seq<char>,
    before: Map<Seq<char>, SchemaType>,
    inner: Map<Seq<char>, Tree>,
)
    requires
        0 <= i < keys.len(),
        gathers_first(held, tree, keys, i, prefix, before),
        tree.contains_key(keys[i]),
        tree[keys[i]] == Tree::Node(inner),
        all_typed(inner),
        gathers(out, inner, joined(prefix, keys[i]), held),
    ensures
        gathers_first(out, tree, keys, i + 1, prefix, before),
{
    let below = joined(prefix, keys[i]);
    assert forall|path: Seq<Seq<char>>, text: Seq<char>| #[trigger]
        leaf_at(tree, path, text) && starts_among(path, keys, i + 1) implies type_named(
        text,
    ) is Some && out.contains_key(dotted(prefix, path)) by {
        lemma_leaf_below(tree, prefix, path, text);
        if path[0] != keys[i] {
            assert(starts_among(path, keys, i));
            assert(held.contains_key(dotted(prefix, path)));
        } else {
            assert(leaf_at(inner, path.drop_first(), text));
        }
    }
    assert forall|q: Seq<char>| #[trigger] out.contains_key(q) implies (before.contains_key(q)
        && out[q] == before[q]) || named_by_leaf(tree, prefix, q, out[q]) by {
        if held.contains_key(q) && out[q] == held[q] {
        } else {
            let text = choose|text: Seq<char>| #[trigger]
                has_leaf(inner, below, q, text) && type_named(text) == Some(out[q]);
            lemma_leaf_inside(tree, prefix, keys[i], inner, q, text);
        }
    }
    assert forall|q: Seq<char>| before.contains_key(q) implies #[trigger] out.contains_key(q) by {
        assert(held.contains_key(q));
    }
}

/// With all keys done, all leaves are gathered.
proof fn lemma_gather_all(
    out: Map<Seq<char>, SchemaType>,
    tree: Map<Seq<char>, Tree>,
    keys: Seq<Seq<char>>,
    prefix: Seq<char>,
    before: Map<Seq<char>, SchemaType>,
)
    requires
        tree.dom() == keys.to_set(),
        gathers_first(out, tree, keys, keys.len() as int, prefix, before),
    ensures
        all_typed(tree),
        gathers(out, tree, prefix, before),
{
    assert forall|path: Seq<Seq<char>>, text: Seq<char>| #[trigger]
        leaf_at(tree, path, text) implies starts_among(path, keys, keys.len() as int) by {
        lemma_leaf_starts_among(tree, keys, path, text);
    }
}

/// A leaf without a type name in a nested table is one in the table that
/// holds it.
proof fn lemma_unknown_type_inside(
    tree: Map<Seq<char>, Tree>,
    prefix: Seq<char>,
    key: Seq<char>,
    inner: Map<Seq<char>, Tree>,
    e: SchemaParseError,
)
    requires
        tree.contains_key(key),
        tree[key] == Tree::Node(inner),
        unknown_type_in(inner, joined(prefix, key), e),
    ensures
        unknown_type_in(tree, prefix, e),
{
    if let SchemaParseError::UnknownType { key: found, name } = e {
        lemma_leaf_inside(tree, prefix, key, inner, found@, name@);
    }
}

/// Adds the dotted path and the type of every leaf of `map` to `out`. The
/// first leaf that holds no type name ends the walk with an error, and `out`
/// is then left with what was added so far.
pub fn flatten_to_schema_impl(map: &Table, prefix: &str, out: &mut Schema) -> (r: Result<
    (),
    SchemaParseError,
>)
    ensures
        flattened(map@, prefix@, old(out)@, final(out)@, r),
    decreases map,
{
    let n = map.len();
    let ghost before = out@;
    let mut i: usize = 0;
    while i < n
        invariant
            i <= n,
            n == map.keys().len(),
            map@.dom() == map.keys().to_set(),
            gathers_first(out@, map@, map.keys(), i as int, prefix@, before),
        decreases n - i,
    {
        if let Some((key, value)) = map.nth(i) {
            let path = join(prefix, key.as_str());
            match value {
                Value::String(name) => {
                    match SchemaType::from_name(name.as_str()) {
                        Some(t) => {
                            proof {
                                lemma_gather_leaf(
                                    out@,
                                    map@,
                                    map.keys(),
                                    i as int,
                                    prefix@,
                                    before,
                                    name@,
                                    t,
                                );
                            }
                            out.insert(path, t);
                        },
                        None => {
                            proof {
                                lemma_leaf_here(map@, prefix@, key@, name@);
                            }
                            return Err(
                                SchemaParseError::UnknownType { key: path, name: name.clone() },
                            );
                        },
                    }
                },
                Value::Table(inner) => {
                    let ghost held = out@;
                    match flatten_to_schema_impl(inner, path.as_str(), out) {
                        Ok(_) => {
                            proof {
                                lemma_gather_table(
                                    held,
                                    out@,
                                    map@,
                                    map.keys(),
                                    i as int,
                                    prefix@,
                                    before,
                                    inner@,
                                );
                            }
                        },
                        Err(e) => {
                            proof {
                                lemma_unknown_type_inside(map@, prefix@, key@, inner@, e);
                            }
                            return Err(e);
                        },
                    }
                },
            }
        }
        i += 1;
    }
    proof {
        lemma_gather_all(out@, map@, map.keys(), prefix@, before);
    }
    Ok(())
}

/// The schema that the leaves of `parsed` spell out: each leaf gives its
/// dotted path the type that it names. The first leaf that holds no type
/// name ends the walk with an error.
pub fn flatten_to_schema(parsed: Table) -> (r: Result<Schema, SchemaParseError>)
    ensures
        r is Ok <==> all_typed(parsed@),
        match r {
            Ok(schema) => describes(schema@, parsed@),
            Err(e) => unknown_type_in(parsed@, Seq::empty(), e),
        },
{
    let mut schema: Schema = Dict::new();
    proof {
        reveal_strlit("");
        assert(""@ =~= Seq::<char>::empty());
    }
    match flatten_to_schema_impl(&parsed, "", &mut schema) {
        Ok(_) => Ok(schema),
        Err(e) => {
            proof {
                lemma_unknown_type_excludes_success(parsed@, Seq::empty(), e);
            }
            Err(e)
        },
    }
}

/// Parses a schema string (same grammar as the configuration: `key = type`)
/// into a flat map of dotted paths to schema types. The text has to parse,
/// and every leaf of its tree has to hold a type name.
pub fn parse_schema_str(input: &str) -> (r: Result<Schema, SchemaParseError>)
    ensures
        r is Ok <==> (parse(input@) matches Ok(tree) && all_typed(tree)),
        match r {
            Ok(schema) => parse(input@) matches Ok(tree) && describes(schema@, tree),
            Err(e) => schema_error(input@, e),
        },
{
    match parse_str(input) {
        Err(e) => Err(SchemaParseError::Parse(e)),
        Ok(parsed) => flatten_to_schema(parsed),
    }
}

/// Whether two schemas declare the same keys with the same types.
pub fn same_schema(a: &Schema, b: &Schema) -> (r: bool)
    ensures
        r == (a@ == b@),
{
    let n = a.len();
    if n != b.len() {
        return false;
    }
    let mut i: usize = 0;
    while i < n
        invariant
            i <= n,
            n == a.keys().len(),
            forall|j: int|
                0 <= j < i ==> b@.contains_key(#[trigger] a.keys()[j]) && b@[a.keys()[j]]
                    == a@[a.keys()[j]],
        decreases n - i,
    {
        if let Some((key, declared)) = a.nth(i) {
            match b.get(key.as_str()) {
                Some(found) => {
                    if *declared != *found {
                        return false;
                    }
                },
                None => {
                    return false;
                },
            }
        }
        i += 1;
    }
    proof {
        assert forall|k: Seq<char>| #[trigger] a@.contains_key(k) implies b@.contains_key(k)
            && b@[k] == a@[k] by {
            assert(a.keys().to_set().contains(k));
            let j = choose|j: int| 0 <= j < a.keys().len() && a.keys()[j] == k;
            assert(b@.contains_key(a.keys()[j]));
        }
        assert(a@.dom().subset_of(b@.dom()));
        vstd::set_lib::lemma_subset_equality(a@.dom(), b@.dom());
        assert(a@ =~= b@);
    }
    true
}

impl PartialEq for Dict<SchemaType> {
    fn eq(&self, other: &Dict<SchemaType>) -> (b: bool) {
        same_schema(self, other)
    }
}

impl PartialEqSpecImpl for Dict<SchemaType> {
    open spec fn obeys_eq_spec() -> bool {
        true
    }

    open spec fn eq_spec(&self, other: &Dict<SchemaType>) -> bool {
        self@ == other@
    }
}

/// A leaf without a type name is proof that not every leaf names a type.
pub proof fn lemma_unknown_type_excludes_success(
    tree: Map<Seq<char>, Tree>,
    prefix: Seq<char>,
    e: SchemaParseError,
)
    requires
        unknown_type_in(tree, prefix, e),
    ensures
        !all_typed(tree),
{
    if let SchemaParseError::UnknownType { key, name } = e {
        let path = choose|path: Seq<Seq<char>>| #[trigger]
            leaf_at(tree, path, name@) && dotted(prefix, path) == key@;
        assert(leaf_at(tree, path, name@));
    }
}

/// The type of a leaf: a schema that describes a tree gives the dotted path
/// of a leaf the type that the leaf names, where every leaf with that dotted
/// path names the same type.
pub proof fn lemma_schema_type(
    schema: Map<Seq<char>, SchemaType>,
    tree: Map<Seq<char>, Tree>,
    path: Seq<Seq<char>>,
    text: Seq<char>,
)
    requires
        describes(schema, tree),
        leaf_at(tree, path, text),
        forall|p: Seq<Seq<char>>, t: Seq<char>| #[trigger]
            leaf_at(tree, p, t) && dotted(Seq::empty(), p) == dotted(Seq::empty(), path)
                ==> type_named(t) == type_named(text),
    ensures
        schema.contains_key(dotted(Seq::empty(), path)),
        type_named(text) == Some(schema[dotted(Seq::empty(), path)]),
{
    let key = dotted(Seq::empty(), path);
    assert(schema.contains_key(key));
    let t = choose|t: Seq<char>| #[trigger]
        has_leaf(tree, Seq::empty(), key, t) && type_named(t) == Some(schema[key]);
    let p = choose|p: Seq<Seq<char>>| #[trigger]
        leaf_at(tree, p, t) && dotted(Seq::empty(), p) == key;
    assert(leaf_at(tree, p, t));
}

/// The type of a leaf of a schema text: where no key of the text starts with
/// an empty segment, the schema gives the dotted path of each leaf the type
/// that the leaf names.
pub proof fn lemma_parsed_schema_type(
    input: Seq<char>,
    schema: Map<Seq<char>, SchemaType>,
    path: Seq<Seq<char>>,
    text: Seq<char>,
)
    requires
        parse(input) matches Ok(tree) && describes(schema, tree) && leaf_at(tree, path, text)
            && forall|p: Seq<Seq<char>>, t: Seq<char>| #[trigger]
            leaf_at(tree, p, t) ==> p[0].len() > 0,
    ensures
        schema.contains_key(dotted(Seq::empty(), path)),
        type_named(text) == Some(schema[dotted(Seq::empty(), path)]),
{
    let tree = parse(input)->Ok_0;
    lemma_parsed_paths(split_on(input, '\n'));
    assert forall|p: Seq<Seq<char>>, t: Seq<char>| #[trigger]
        leaf_at(tree, p, t) && dotted(Seq::empty(), p) == dotted(
            Seq::empty(),
            path,
        ) implies type_named(t) == type_named(text) by {
        lemma_dotted_tells_apart(p, path);
    }
    lemma_schema_type(schema, tree, path, text);
}

} // verus!
