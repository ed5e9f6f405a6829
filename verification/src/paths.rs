//! Dotted paths: the names that the leaves of a tree have in a flat schema.

use vstd::prelude::*;
use vstd::string::StringExecFns;
use crate::text::{lemma_split_joined, lemma_split_single, split_on};
use crate::tree::{dot_free, lookup, Tree};

verus! {

/// The path `prefix` extended by the key `key`: the two joined by a dot, or
/// `key` alone under an empty prefix.
pub open spec fn joined(prefix: Seq<char>, key: Seq<char>) -> Seq<char> {
    if prefix.len() == 0 {
        key
    } else {
        prefix + seq!['.'] + key
    }
}

/// The dotted path that `path` has under `prefix`: `prefix` extended by each
/// segment in turn.
pub open spec fn dotted(prefix: Seq<char>, path: Seq<Seq<char>>) -> Seq<char>
    decreases path.len(),
{
    if path.len() == 0 {
        prefix
    } else {
        dotted(joined(prefix, path[0]), path.drop_first())
    }
}

/// Whether `tree` holds the leaf `text` under `path`.
pub open spec fn leaf_at(tree: Map<Seq<char>, Tree>, path: Seq<Seq<char>>, text: Seq<char>) -> bool {
    lookup(tree, path) == Some(Tree::Leaf(text))
}

/// Whether `key` is the dotted path, under `prefix`, of a leaf of `tree`
/// that holds `text`.
pub open spec fn has_leaf(
    tree: Map<Seq<char>, Tree>,
    prefix: Seq<char>,
    key: Seq<char>,
    text: Seq<char>,
) -> bool {
    exists|path: Seq<Seq<char>>| #[trigger] leaf_at(tree, path, text) && dotted(prefix, path) == key
}

/// Whether the first segment of `path` is one of the first `n` of `keys`.
pub open spec fn starts_among(path: Seq<Seq<char>>, keys: Seq<Seq<char>>, n: int) -> bool {
    path.len() > 0 && exists|j: int| 0 <= j < n && #[trigger] keys[j] == path[0]
}

/// A leaf directly under a key is a leaf under the path of that one key.
pub proof fn lemma_leaf_here(
    tree: Map<Seq<char>, Tree>,
    prefix: Seq<char>,
    key: Seq<char>,
    text: Seq<char>,
)
    requires
        tree.contains_key(key),
        tree[key] == Tree::Leaf(text),
    ensures
        leaf_at(tree, seq![key], text),
        dotted(prefix, seq![key]) == joined(prefix, key),
        has_leaf(tree, prefix, joined(prefix, key), text),
{
    let path = seq![key];
    assert(path.drop_first().len() == 0);
    assert(dotted(prefix, path) == dotted(joined(prefix, key), path.drop_first()));
    assert(leaf_at(tree, path, text));
}

/// A leaf of a nested table is a leaf of the table that holds it, under the
/// same dotted path.
pub proof fn lemma_leaf_inside(
    tree: Map<Seq<char>, Tree>,
    prefix: Seq<char>,
    key: Seq<char>,
    inner: Map<Seq<char>, Tree>,
    dotted_key: Seq<char>,
    text: Seq<char>,
)
    requires
        tree.contains_key(key),
        tree[key] == Tree::Node(inner),
        has_leaf(inner, joined(prefix, key), dotted_key, text),
    ensures
        has_leaf(tree, prefix, dotted_key, text),
{
    let below = choose|path: Seq<Seq<char>>| #[trigger]
        leaf_at(inner, path, text) && dotted(joined(prefix, key), path) == dotted_key;
    let path = seq![key] + below;
    assert(path.drop_first() =~= below);
    assert(below.len() > 0);
    assert(leaf_at(tree, path, text));
}

/// Where a leaf of a table stands: directly under its first segment, or in
/// the nested table that the first segment names.
pub proof fn lemma_leaf_below(
    tree: Map<Seq<char>, Tree>,
    prefix: Seq<char>,
    path: Seq<Seq<char>>,
    text: Seq<char>,
)
    requires
        leaf_at(tree, path, text),
    ensures
        path.len() > 0,
        tree.contains_key(path[0]),
        dotted(prefix, path) == dotted(joined(prefix, path[0]), path.drop_first()),
        tree[path[0]] is Leaf ==> path.len() == 1 && tree[path[0]] == Tree::Leaf(text) && dotted(
            prefix,
            path,
        ) == joined(prefix, path[0]),
        tree[path[0]] matches Tree::Node(inner) ==> leaf_at(inner, path.drop_first(), text),
{
    if path.len() == 1 {
        assert(path.drop_first().len() == 0);
        assert(dotted(joined(prefix, path[0]), path.drop_first()) == joined(prefix, path[0]));
    }
}

/// Every leaf of a table stands under one of its keys.
pub proof fn lemma_leaf_starts_among(
    tree: Map<Seq<char>, Tree>,
    keys: Seq<Seq<char>>,
    path: Seq<Seq<char>>,
    text: Seq<char>,
)
    requires
        tree.dom() == keys.to_set(),
        leaf_at(tree, path, text),
    ensures
        starts_among(path, keys, keys.len() as int),
{
    assert(keys.to_set().contains(path[0]));
    let j = choose|j: int| 0 <= j < keys.len() && keys[j] == path[0];
    assert(keys[j] == path[0]);
}

/// The segments of `path`, each with a dot before it.
pub open spec fn dot_tail(path: Seq<Seq<char>>) -> Seq<char>
    decreases path.len(),
{
    if path.len() == 0 {
        Seq::empty()
    } else {
        seq!['.'] + path[0] + dot_tail(path.drop_first())
    }
}

/// Under a prefix that is not empty, the dotted path is the prefix and then
/// each segment with a dot before it.
pub proof fn lemma_dotted_tail(prefix: Seq<char>, path: Seq<Seq<char>>)
    requires
        prefix.len() > 0,
    ensures
        dotted(prefix, path) == prefix + dot_tail(path),
    decreases path.len(),
{
    if path.len() == 0 {
        assert(prefix + dot_tail(path) =~= prefix);
    } else {
        lemma_dotted_tail(joined(prefix, path[0]), path.drop_first());
        assert(prefix + seq!['.'] + path[0] + dot_tail(path.drop_first()) =~= prefix + (seq!['.']
            + path[0] + dot_tail(path.drop_first())));
    }
}

/// Segments without dots, joined by dots, split back into themselves.
pub proof fn lemma_split_dot_tail(first: Seq<char>, path: Seq<Seq<char>>)
    requires
        !first.contains('.'),
        dot_free(path),
    ensures
        split_on(first + dot_tail(path), '.') == seq![first] + path,
    decreases path.len(),
{
    if path.len() == 0 {
        assert(first + dot_tail(path) =~= first);
        lemma_split_single(first, '.');
        assert(seq![first] + path =~= seq![first]);
    } else {
        let rest = path.drop_first();
        assert(dot_free(rest)) by {
            assert forall|i: int| 0 <= i < rest.len() implies !(#[trigger] rest[i]).contains(
                '.',
            ) by {
                assert(rest[i] == path[i + 1]);
            }
        }
        lemma_split_dot_tail(path[0], rest);
        lemma_split_joined(first, path[0] + dot_tail(rest), '.');
        lemma_split_single(first, '.');
        assert(first + dot_tail(path) =~= first + seq!['.'] + (path[0] + dot_tail(rest)));
        assert(seq![first] + (seq![path[0]] + rest) =~= seq![first] + path);
    }
}

/// The dotted path of segments without dots, the first of which is not
/// empty, splits back into the segments.
pub proof fn lemma_dotted_splits_back(path: Seq<Seq<char>>)
    requires
        path.len() > 0,
        path[0].len() > 0,
        dot_free(path),
    ensures
        split_on(dotted(Seq::empty(), path), '.') == path,
{
    let rest = path.drop_first();
    assert(dot_free(rest)) by {
        assert forall|i: int| 0 <= i < rest.len() implies !(#[trigger] rest[i]).contains('.') by {
            assert(rest[i] == path[i + 1]);
        }
    }
    lemma_dotted_tail(path[0], rest);
    lemma_split_dot_tail(path[0], rest);
    assert(seq![path[0]] + rest =~= path);
}

/// Paths of segments without dots, whose first segments are not empty, have
/// different dotted paths unless they are the same.
pub proof fn lemma_dotted_tells_apart(one: Seq<Seq<char>>, other: Seq<Seq<char>>)
    requires
        one.len() > 0 && one[0].len() > 0 && dot_free(one),
        other.len() > 0 && other[0].len() > 0 && dot_free(other),
        dotted(Seq::empty(), one) == dotted(Seq::empty(), other),
    ensures
        one == other,
{
    lemma_dotted_splits_back(one);
    lemma_dotted_splits_back(other);
}

/// The path `prefix` extended by `key`.
pub fn join(prefix: &str, key: &str) -> (path: String)
    ensures
        path@ == joined(prefix@, key@),
{
    if prefix.is_empty() {
        key.to_owned()
    } else {
        let mut path = prefix.to_owned();
        path.push('.');
        path.append(key);
        path
    }
}

} // verus!
