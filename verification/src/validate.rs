//! Validation of a parsed config against a schema: every leaf has to be
//! declared, and to hold a value of the declared type.

use vstd::prelude::*;
use vstd::string::StringExecFns;
use crate::paths::{
    dotted, has_leaf, join, joined, leaf_at, lemma_leaf_below, lemma_leaf_here, lemma_leaf_inside,
    lemma_leaf_starts_among, starts_among,
};
use crate::schema::{accepts, label, Schema, SchemaType};
use crate::tree::Tree;
use crate::value::{Table, Value};

verus! {

/// A configuration that does not fit its schema.
#[derive(Debug)]
pub enum SchemaValidationError {
    UnknownKey { key: String },
    InvalidType { key: String, expected: String, value: String },
}

/// Whether every leaf of `tree`, whose dotted paths start with `prefix`, is
/// declared in `schema` and holds a value of the declared type.
pub open spec fn conforms(
    tree: Map<Seq<char>, Tree>,
    prefix: Seq<char>,
    schema: Map<Seq<char>, SchemaType>,
) -> bool {
    forall|path: Seq<Seq<char>>, text: Seq<char>| #[trigger]
        leaf_at(tree, path, text) ==> schema.contains_key(dotted(prefix, path)) && accepts(
            schema[dotted(prefix, path)],
            text,
        )
}

/// Whether `e` names a leaf of `tree`, whose dotted paths start with
/// `prefix`, that does not fit `schema`: one that is not declared, or one
/// whose value is not of the declared type. In the second case `e` carries
/// the name of the declared type and the value.
pub open spec fn violates(
    tree: Map<Seq<char>, Tree>,
    prefix: Seq<char>,
    schema: Map<Seq<char>, SchemaType>,
    e: SchemaValidationError,
) -> bool {
    match e {
        SchemaValidationError::UnknownKey { key } => {
            &&& !schema.contains_key(key@)
            &&& exists|text: Seq<char>| #[trigger] has_leaf(tree, prefix, key@, text)
        },
        SchemaValidationError::InvalidType { key, expected, value } => {
            &&& has_leaf(tree, prefix, key@, value@)
            &&& schema.contains_key(key@)
            &&& !accepts(schema[key@], value@)
            &&& expected@ == label(schema[key@])
        },
    }
}

/// What `validate` may hand back for `tree`, whose dotted paths start with
/// `prefix`, and `schema`: success where every leaf fits, and otherwise an
/// error that names a leaf that does not.
pub open spec fn validated(
    tree: Map<Seq<char>, Tree>,
    prefix: Seq<char>,
    schema: Map<Seq<char>, SchemaType>,
    r: Result<(), SchemaValidationError>,
) -> bool {
    match r {
        Ok(_) => conforms(tree, prefix, schema),
        Err(e) => violates(tree, prefix, schema, e),
    }
}

impl SchemaValidationError {
    /// The text of the error.
    pub open spec fn text(&self) -> Seq<char> {
        match self {
            SchemaValidationError::UnknownKey { key } => "validation error: key '"@ + key@
                + "' is not defined in schema"@,
            SchemaValidationError::InvalidType { key, expected, value } =>
                "validation error: key '"@ + key@ + "' expected type '"@ + expected@
                    + "', got value '"@ + value@ + "'"@,
        }
    }

    /// The error as text.
    pub fn to_string(&self) -> (out: String)
        ensures
            out@ == self.text(),
    {
        match self {
            SchemaValidationError::UnknownKey { key } => {
                let mut out = "validation error: key '".to_owned();
                out.append(key.as_str());
                out.append("' is not defined in schema");
                out
            },
            SchemaValidationError::InvalidType { key, expected, value } => {
                let mut out = "validation error: key '".to_owned();
                out.append(key.as_str());
                out.append("' expected type '");
                out.append(expected.as_str());
                out.append("', got value '");
                out.append(value.as_str());
                out.append("'");
                out
            },
        }
    }
}

/// `conforms`, for the leaves under the first `n` of `keys` only.
spec fn conforms_first(
    tree: Map<Seq<char>, Tree>,
    keys: Seq<Seq<char>>,
    n: int,
    prefix: Seq<char>,
    schema: Map<Seq<char>, SchemaType>,
) -> bool {
    forall|path: Seq<Seq<char>>, text: Seq<char>| #[trigger]
        leaf_at(tree, path, text) && starts_among(path, keys, n) ==> schema.contains_key(
            dotted(prefix, path),
        ) && accepts(schema[dotted(prefix, path)], text)
}

/// One more key, which holds a leaf that fits.
proof fn lemma_conforms_leaf(
    tree: Map<Seq<char>, Tree>,
    keys: Seq<Seq<char>>,
    i: int,
    prefix: Seq<char>,
    schema: Map<Seq<char>, SchemaType>,
    raw: Seq<char>,
)
    requires
        0 <= i < keys.len(),
        conforms_first(tree, keys, i, prefix, schema),
        tree.contains_key(keys[i]),
        tree[keys[i]] == Tree::Leaf(raw),
        schema.contains_key(joined(prefix, keys[i])),
        accepts(schema[joined(prefix, keys[i])], raw),
    ensures
        conforms_first(tree, keys, i + 1, prefix, schema),
{
    assert forall|path: Seq<Seq<char>>, text: Seq<char>| #[trigger]
        leaf_at(tree, path, text) && starts_among(path, keys, i + 1) implies schema.contains_key(
        dotted(prefix, path),
    ) && accepts(schema[dotted(prefix, path)], text) by {
        lemma_leaf_below(tree, prefix, path, text);
        if path[0] != keys[i] {
            assert(starts_among(path, keys, i));
        }
    }
}

/// One more key, which holds a table whose leaves fit.
proof fn lemma_conforms_table(
    tree: Map<Seq<char>, Tree>,
    keys: Seq<Seq<char>>,
    i: int,
    prefix: Seq<char>,
    schema: Map<Seq<char>, SchemaType>,
    inner: Map<Seq<char>, Tree>,
)
    requires
        0 <= i < keys.len(),
        conforms_first(tree, keys, i, prefix, schema),
        tree.contains_key(keys[i]),
        tree[keys[i]] == Tree::Node(inner),
        conforms(inner, joined(prefix, keys[i]), schema),
    ensures
        conforms_first(tree, keys, i + 1, prefix, schema),
{
    assert forall|path: Seq<Seq<char>>, text: Seq<char>| #[trigger]
        leaf_at(tree, path, text) && starts_among(path, keys, i + 1) implies schema.contains_key(
        dotted(prefix, path),
    ) && accepts(schema[dotted(prefix, path)], text) by {
        lemma_leaf_below(tree, prefix, path, text);
        if path[0] != keys[i] {
            assert(starts_among(path, keys, i));
        } else {
            assert(leaf_at(inner, path.drop_first(), text));
        }
    }
}

/// With all keys done, all leaves fit.
proof fn lemma_conforms_all(
    tree: Map<Seq<char>, Tree>,
    keys: Seq<Seq<char>>,
    prefix: Seq<char>,
    schema: Map<Seq<char>, SchemaType>,
)
    requires
        tree.dom() == keys.to_set(),
        conforms_first(tree, keys, keys.len() as int, prefix, schema),
    ensures
        conforms(tree, prefix, schema),
{
    assert forall|path: Seq<Seq<char>>, text: Seq<char>| #[trigger]
        leaf_at(tree, path, text) implies starts_among(path, keys, keys.len() as int) by {
        lemma_leaf_starts_among(tree, keys, path, text);
    }
}

/// A leaf of a nested table that does not fit is one of the table that
/// holds it.
proof fn lemma_violation_inside(
    tree: Map<Seq<char>, Tree>,
    prefix: Seq<char>,
    schema: Map<Seq<char>, SchemaType>,
    key: Seq<char>,
    inner: Map<Seq<char>, Tree>,
    e: SchemaValidationError,
)
    requires
        tree.contains_key(key),
        tree[key] == Tree::Node(inner),
        violates(inner, joined(prefix, key), schema, e),
    ensures
        violates(tree, prefix, schema, e),
{
    match e {
        SchemaValidationError::UnknownKey { key: found } => {
            let text = choose|text: Seq<char>| #[trigger]
                has_leaf(inner, joined(prefix, key), found@, text);
            lemma_leaf_inside(tree, prefix, key, inner, found@, text);
        },
        SchemaValidationError::InvalidType { key: found, expected, value } => {
            lemma_leaf_inside(tree, prefix, key, inner, found@, value@);
        },
    }
}

/// Checks the leaves of `config`, whose dotted paths start with `prefix`,
/// against `schema`, and stops at the first that does not fit.
pub fn validate_impl(config: &Table, prefix: &str, schema: &Schema) -> (r: Result<
    (),
    SchemaValidationError,
>)
    ensures
        validated(config@, prefix@, schema@, r),
    decreases config,
{
    let n = config.len();
    let mut i: usize = 0;
    while i < n
        invariant
            i <= n,
            n == config.keys().len(),
            config@.dom() == config.keys().to_set(),
            conforms_first(config@, config.keys(), i as int, prefix@, schema@),
        decreases n - i,
    {
        if let Some((key, value)) = config.nth(i) {
            let path = join(prefix, key.as_str());
            match value {
                Value::String(raw) => {
                    proof {
                        lemma_leaf_here(config@, prefix@, key@, raw@);
                    }
                    match schema.get(path.as_str()) {
                        None => {
                            let e = SchemaValidationError::UnknownKey { key: path };
                            assert(violates(config@, prefix@, schema@, e)) by {
                                assert(has_leaf(config@, prefix@, e->UnknownKey_key@, raw@));
                            }
                            return Err(e);
                        },
                        Some(expected) => {
                            if !expected.check_value(raw.as_str()) {
                                return Err(
                                    SchemaValidationError::InvalidType {
                                        key: path,
                                        expected: expected.name().to_owned(),
                                        value: raw.clone(),
                                    },
                                );
                            }
                        },
                    }
                    proof {
                        lemma_conforms_leaf(
                            config@,
                            config.keys(),
                            i as int,
                            prefix@,
                            schema@,
                            raw@,
                        );
                    }
                },
                Value::Table(inner) => {
                    match validate_impl(inner, path.as_str(), schema) {
                        Ok(_) => {
                            proof {
                                lemma_conforms_table(
                                    config@,
                                    config.keys(),
                                    i as int,
                                    prefix@,
                                    schema@,
                                    inner@,
                                );
                            }
                        },
                        Err(e) => {
                            proof {
                                lemma_violation_inside(
                                    config@,
                                    prefix@,
                                    schema@,
                                    key@,
                                    inner@,
                                    e,
                                );
                            }
                            return Err(e);
                        },
                    }
                },
            }
        }
        i += 1;
    }
    proof {
        lemma_conforms_all(config@, config.keys(), prefix@, schema@);
    }
    Ok(())
}

/// Validates a parsed config against a schema.
/// - Every key in config must be defined in schema.
/// - Every value must parse as the schema type (string, bool, integer, float).
pub fn validate(config: &Table, schema: &Schema) -> (r: Result<(), SchemaValidationError>)
    ensures
        r is Ok <==> conforms(config@, Seq::empty(), schema@),
        validated(config@, Seq::empty(), schema@, r),
{
    proof {
        reveal_strlit("");
        assert(""@ =~= Seq::<char>::empty());
    }
    match validate_impl(config, "", schema) {
        Ok(done) => Ok(done),
        Err(e) => {
            proof {
                lemma_violation_excludes_success(config@, Seq::empty(), schema@, e);
            }
            Err(e)
        },
    }
}

/// A leaf that does not fit is proof that the tree does not conform.
pub proof fn lemma_violation_excludes_success(
    tree: Map<Seq<char>, Tree>,
    prefix: Seq<char>,
    schema: Map<Seq<char>, SchemaType>,
    e: SchemaValidationError,
)
    requires
        violates(tree, prefix, schema, e),
    ensures
        !conforms(tree, prefix, schema),
{
    match e {
        SchemaValidationError::UnknownKey { key } => {
            let text = choose|text: Seq<char>| #[trigger] has_leaf(tree, prefix, key@, text);
            let path = choose|path: Seq<Seq<char>>| #[trigger]
                leaf_at(tree, path, text) && dotted(prefix, path) == key@;
            assert(leaf_at(tree, path, text));
        },
        SchemaValidationError::InvalidType { key, expected, value } => {
            let path = choose|path: Seq<Seq<char>>| #[trigger]
                leaf_at(tree, path, value@) && dotted(prefix, path) == key@;
            assert(leaf_at(tree, path, value@));
        },
    }
}

/// One undeclared key: where the leaf under `path` is not declared, and every
/// leaf with another dotted path is declared and holds a value of its type,
/// the result is the error that names the dotted path of `path` as unknown.
pub proof fn lemma_one_unknown_key(
    tree: Map<Seq<char>, Tree>,
    prefix: Seq<char>,
    schema: Map<Seq<char>, SchemaType>,
    r: Result<(), SchemaValidationError>,
    path: Seq<Seq<char>>,
    text: Seq<char>,
)
    requires
        validated(tree, prefix, schema, r),
        leaf_at(tree, path, text),
        !schema.contains_key(dotted(prefix, path)),
        forall|p: Seq<Seq<char>>, t: Seq<char>| #[trigger]
            leaf_at(tree, p, t) && dotted(prefix, p) != dotted(prefix, path)
                ==> schema.contains_key(dotted(prefix, p)) && accepts(
                schema[dotted(prefix, p)],
                t,
            ),
    ensures
        r matches Err(SchemaValidationError::UnknownKey { key }) && key@ == dotted(prefix, path),
{
    match r {
        Ok(_) => {},
        Err(SchemaValidationError::UnknownKey { key }) => {
            let t = choose|t: Seq<char>| #[trigger] has_leaf(tree, prefix, key@, t);
            let p = choose|p: Seq<Seq<char>>| #[trigger]
                leaf_at(tree, p, t) && dotted(prefix, p) == key@;
            assert(leaf_at(tree, p, t));
        },
        Err(SchemaValidationError::InvalidType { key, expected, value }) => {
            let p = choose|p: Seq<Seq<char>>| #[trigger]
                leaf_at(tree, p, value@) && dotted(prefix, p) == key@;
            assert(leaf_at(tree, p, value@));
        },
    }
}

/// One value of the wrong type: where the leaf under `path` is declared and
/// holds a value that is not of its type, and every other leaf is declared
/// and holds a value of its type, the result is the error that names the
/// dotted path of `path`, the name of the declared type, and the value.
pub proof fn lemma_one_invalid_value(
    tree: Map<Seq<char>, Tree>,
    prefix: Seq<char>,
    schema: Map<Seq<char>, SchemaType>,
    r: Result<(), SchemaValidationError>,
    path: Seq<Seq<char>>,
    text: Seq<char>,
)
    requires
        validated(tree, prefix, schema, r),
        leaf_at(tree, path, text),
        schema.contains_key(dotted(prefix, path)),
        !accepts(schema[dotted(prefix, path)], text),
        forall|p: Seq<Seq<char>>, t: Seq<char>| #[trigger]
            leaf_at(tree, p, t) && p != path ==> schema.contains_key(dotted(prefix, p))
                && accepts(schema[dotted(prefix, p)], t),
    ensures
        r matches Err(SchemaValidationError::InvalidType { key, expected, value }) && key@
            == dotted(prefix, path) && expected@ == label(schema[dotted(prefix, path)]) && value@
            == text,
{
    match r {
        Ok(_) => {},
        Err(SchemaValidationError::UnknownKey { key }) => {
            let t = choose|t: Seq<char>| #[trigger] has_leaf(tree, prefix, key@, t);
            let p = choose|p: Seq<Seq<char>>| #[trigger]
                leaf_at(tree, p, t) && dotted(prefix, p) == key@;
            assert(leaf_at(tree, p, t));
        },
        Err(SchemaValidationError::InvalidType { key, expected, value }) => {
            let p = choose|p: Seq<Seq<char>>| #[trigger]
                leaf_at(tree, p, value@) && dotted(prefix, p) == key@;
            assert(leaf_at(tree, p, value@));
        },
    }
}

} // verus!
