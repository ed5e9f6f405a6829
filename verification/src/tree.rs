//! The mathematical model of a configuration: a tree of named values, with
//! what it means to store a value under a path and to look one up.

use vstd::prelude::*;
use crate::text::{lemma_split_pieces, lemma_trimmed_within, split_on, trimmed};

verus! {

/// What a configuration value is: a piece of text, or named children.
#[verifier::ext_equal]
pub enum Tree {
    Leaf(Seq<char>),
    Node(Map<Seq<char>, Tree>),
}

/// The children of `m[key]` when that is a node, and no children otherwise.
pub open spec fn children(m: Map<Seq<char>, Tree>, key: Seq<char>) -> Map<Seq<char>, Tree> {
    if m.contains_key(key) && m[key] is Node {
        m[key]->Node_0
    } else {
        Map::empty()
    }
}

/// `m` with `v` stored under the path `path`. Every segment but the last
/// names a node, which is entered where it exists and started empty where
/// the key is absent or holds a leaf. The last segment is set to `v`,
/// whatever it held before.
pub open spec fn insert_at(m: Map<Seq<char>, Tree>, path: Seq<Seq<char>>, v: Tree) -> Map<
    Seq<char>,
    Tree,
>
    decreases path.len(),
{
    if path.len() == 0 {
        m
    } else if path.len() == 1 {
        m.insert(path[0], v)
    } else {
        m.insert(path[0], Tree::Node(insert_at(children(m, path[0]), path.drop_first(), v)))
    }
}

/// What `m` holds under the path `path`, if anything.
pub open spec fn lookup(m: Map<Seq<char>, Tree>, path: Seq<Seq<char>>) -> Option<Tree>
    decreases path.len(),
{
    if path.len() == 0 || !m.contains_key(path[0]) {
        None
    } else if path.len() == 1 {
        Some(m[path[0]])
    } else {
        match m[path[0]] {
            Tree::Node(inner) => lookup(inner, path.drop_first()),
            Tree::Leaf(_) => None,
        }
    }
}

/// The segments of a dotted key: the pieces between dots, each trimmed.
pub open spec fn segments(key: Seq<char>) -> Seq<Seq<char>> {
    split_on(key, '.').map_values(|piece: Seq<char>| trimmed(piece))
}

/// Whether no segment of `path` holds a dot.
pub open spec fn dot_free(path: Seq<Seq<char>>) -> bool {
    forall|i: int| 0 <= i < path.len() ==> !(#[trigger] path[i]).contains('.')
}

/// The segments of a dotted key hold no dots.
pub proof fn lemma_segments_dot_free(key: Seq<char>)
    ensures
        dot_free(segments(key)),
        segments(key).len() > 0,
{
    let pieces = split_on(key, '.');
    lemma_split_pieces(key, '.');
    assert forall|i: int| 0 <= i < segments(key).len() implies !(#[trigger] segments(key)[i]).contains(
        '.',
    ) by {
        lemma_trimmed_within(pieces[i], '.');
    }
}

/// A leaf that is found after a leaf was stored is the one that was stored,
/// or was there before.
pub proof fn lemma_leaf_after_insert(
    tree: Map<Seq<char>, Tree>,
    path: Seq<Seq<char>>,
    stored: Seq<char>,
    other: Seq<Seq<char>>,
    found: Seq<char>,
)
    requires
        lookup(insert_at(tree, path, Tree::Leaf(stored)), other) == Some(Tree::Leaf(found)),
    ensures
        (other == path && found == stored) || lookup(tree, other) == Some(Tree::Leaf(found)),
    decreases path.len(),
{
    if path.len() == 1 {
        if other[0] == path[0] {
            assert(other.len() == 1);
            assert(other =~= path);
        }
    } else if path.len() > 1 {
        if other[0] == path[0] {
            assert(other.len() > 1);
            lemma_leaf_after_insert(
                children(tree, path[0]),
                path.drop_first(),
                stored,
                other.drop_first(),
                found,
            );
            if other.drop_first() == path.drop_first() {
                assert(other =~= seq![other[0]] + other.drop_first());
                assert(path =~= seq![path[0]] + path.drop_first());
            }
        }
    }
}

/// A value that was stored under a path is what the path leads to.
pub proof fn lemma_lookup_inserted(tree: Map<Seq<char>, Tree>, path: Seq<Seq<char>>, v: Tree)
    requires
        path.len() > 0,
    ensures
        lookup(insert_at(tree, path, v), path) == Some(v),
    decreases path.len(),
{
    if path.len() > 1 {
        lemma_lookup_inserted(children(tree, path[0]), path.drop_first(), v);
    }
}

/// The last write wins: of two values stored under one path, one after the
/// other, only the second is left.
pub proof fn lemma_last_write_wins(
    tree: Map<Seq<char>, Tree>,
    path: Seq<Seq<char>>,
    first: Tree,
    second: Tree,
)
    ensures
        insert_at(insert_at(tree, path, first), path, second) == insert_at(tree, path, second),
    decreases path.len(),
{
    if path.len() == 1 {
        assert(tree.insert(path[0], first).insert(path[0], second) =~= tree.insert(
            path[0],
            second,
        ));
    } else if path.len() > 1 {
        let key = path[0];
        let rest = path.drop_first();
        let inner = insert_at(children(tree, key), rest, first);
        let between = tree.insert(key, Tree::Node(inner));
        assert(children(between, key) == inner);
        lemma_last_write_wins(children(tree, key), rest, first, second);
        assert(between.insert(key, Tree::Node(insert_at(inner, rest, second))) =~= tree.insert(
            key,
            Tree::Node(insert_at(children(tree, key), rest, second)),
        ));
    }
}

/// The deeper path wins: a value stored under a path that runs through a
/// leaf replaces that leaf by a node, which holds nothing but the value.
pub proof fn lemma_deeper_path_wins(
    tree: Map<Seq<char>, Tree>,
    path: Seq<Seq<char>>,
    rest: Seq<Seq<char>>,
    v: Tree,
)
    requires
        rest.len() > 0,
        lookup(tree, path) matches Some(found) && found is Leaf,
    ensures
        lookup(insert_at(tree, path + rest, v), path) == Some(
            Tree::Node(insert_at(Map::empty(), rest, v)),
        ),
        lookup(insert_at(tree, path + rest, v), path + rest) == Some(v),
    decreases path.len(),
{
    let whole = path + rest;
    assert(whole.drop_first() =~= path.drop_first() + rest);
    assert(whole[0] == path[0]);
    lemma_lookup_inserted(tree, whole, v);
    if path.len() == 1 {
        assert(whole.drop_first() =~= rest);
    } else {
        lemma_deeper_path_wins(children(tree, path[0]), path.drop_first(), rest, v);
    }
}

/// Storing a value under a path changes nothing under another first
/// segment.
pub proof fn lemma_insert_elsewhere(
    tree: Map<Seq<char>, Tree>,
    path: Seq<Seq<char>>,
    v: Tree,
    other: Seq<Seq<char>>,
)
    requires
        path.len() > 0,
        other.len() > 0,
        other[0] != path[0],
    ensures
        lookup(insert_at(tree, path, v), other) == lookup(tree, other),
{
}

} // verus!
