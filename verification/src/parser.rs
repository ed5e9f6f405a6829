//! The line parser: configuration text to a table of nested values.

use vstd::prelude::*;
use vstd::slice::slice_subrange;
use vstd::string::StringExecFns;
use crate::text::{
    decimal, find, first_index, from_chars, lemma_first_index_is, lemma_split_joined,
    lemma_split_single, lemma_split_some, lemma_trimmed_end_after, lemma_trimmed_ends,
    lemma_trimmed_of_trimmed_end, lemma_trimmed_start_before, lemma_trimmed_start_is_skip, split,
    split_on, to_chars, to_decimal, trim, trimmed, trimmed_end, trimmed_start, views,
};
use crate::paths::leaf_at;
use crate::tree::{
    dot_free, insert_at, lemma_deeper_path_wins, lemma_last_write_wins, lemma_leaf_after_insert,
    lemma_lookup_inserted, lemma_segments_dot_free, lookup, segments, Tree,
};
use crate::value::{set_at, Table, Value};

verus! {

/// What one physical line says.
pub enum LineView {
    /// A blank line, a comment, or a lone `-`.
    Skip,
    /// `key = value`, both trimmed, the key not empty.
    Assign { key: Seq<char>, value: Seq<char> },
    /// Text without a `=`.
    MissingEquals,
    /// Nothing but whitespace before the `=`.
    EmptyKey,
}

/// The line `raw` read by the grammar: surrounding whitespace is dropped; an
/// empty line and one that starts with `#` or `;` say nothing; one leading
/// `-` is dropped and the rest trimmed again; what is left is split at its
/// first `=` into a key and a value, both trimmed.
pub open spec fn read(raw: Seq<char>) -> LineView {
    let line = trimmed(raw);
    if line.len() == 0 || line[0] == '#' || line[0] == ';' {
        LineView::Skip
    } else {
        let body = if line[0] == '-' {
            trimmed(line.drop_first())
        } else {
            line
        };
        let at = first_index(body, '=');
        let key = trimmed(body.take(at));
        let value = trimmed(body.skip(at + 1));
        if body.len() == 0 {
            LineView::Skip
        } else if at >= body.len() {
            LineView::MissingEquals
        } else if key.len() == 0 {
            LineView::EmptyKey
        } else {
            LineView::Assign { key, value }
        }
    }
}

/// Where parsing stopped and why.
pub struct ParseErrorView {
    pub line: nat,
    pub message: Seq<char>,
}

/// The message for a line without a `=`.
pub open spec fn missing_equals() -> Seq<char> {
    "missing '='"@
}

/// The message for a line with nothing before its `=`.
pub open spec fn empty_key() -> Seq<char> {
    "empty key"@
}

/// The tree that the lines build, read in order and numbered from one: each
/// assignment stores its value as a leaf under its dotted key, and the
/// first malformed line ends the parse.
pub open spec fn parse_lines(lines: Seq<Seq<char>>) -> Result<Map<Seq<char>, Tree>, ParseErrorView>
    decreases lines.len(),
{
    if lines.len() == 0 {
        Ok(Map::empty())
    } else {
        match parse_lines(lines.drop_last()) {
            Err(e) => Err(e),
            Ok(tree) => match read(lines.last()) {
                LineView::Skip => Ok(tree),
                LineView::Assign { key, value } => Ok(
                    insert_at(tree, segments(key), Tree::Leaf(value)),
                ),
                LineView::MissingEquals => Err(
                    ParseErrorView { line: lines.len(), message: missing_equals() },
                ),
                LineView::EmptyKey => Err(
                    ParseErrorView { line: lines.len(), message: empty_key() },
                ),
            },
        }
    }
}

/// The tree that a configuration text builds: its lines are the pieces
/// between line feeds.
pub open spec fn parse(input: Seq<char>) -> Result<Map<Seq<char>, Tree>, ParseErrorView> {
    parse_lines(split_on(input, '\n'))
}

/// One line of input, as parts of the text it was read from.
#[derive(Debug)]
pub enum Line<'a> {
    Skip,
    Assign { key: &'a [char], value: &'a [char] },
    MissingEquals,
    EmptyKey,
}

impl<'a> View for Line<'a> {
    type V = LineView;

    open spec fn view(&self) -> LineView {
        match self {
            Line::Skip => LineView::Skip,
            Line::Assign { key, value } => LineView::Assign { key: key@, value: value@ },
            Line::MissingEquals => LineView::MissingEquals,
            Line::EmptyKey => LineView::EmptyKey,
        }
    }
}

/// Reads one line.
pub fn read_line<'a>(raw: &'a [char]) -> (line: Line<'a>)
    ensures
        line@ == read(raw@),
{
    let line = trim(raw);
    if line.len() == 0 || line[0] == '#' || line[0] == ';' {
        return Line::Skip;
    }
    let body = if line[0] == '-' {
        let rest = slice_subrange(line, 1, line.len());
        assert(rest@ =~= line@.drop_first());
        trim(rest)
    } else {
        line
    };
    if body.len() == 0 {
        return Line::Skip;
    }
    let at = find(body, '=');
    if at >= body.len() {
        return Line::MissingEquals;
    }
    let key = trim(slice_subrange(body, 0, at));
    if key.len() == 0 {
        return Line::EmptyKey;
    }
    let value = trim(slice_subrange(body, at + 1, body.len()));
    assert(body@.subrange(at + 1, body@.len() as int) =~= body@.skip(at + 1));
    Line::Assign { key, value }
}

/// A malformed line: its number, counted from one, and what is wrong with it.
#[derive(Debug)]
pub struct ParseError {
    pub line: usize,
    pub message: String,
}

impl View for ParseError {
    type V = ParseErrorView;

    open spec fn view(&self) -> ParseErrorView {
        ParseErrorView { line: self.line as nat, message: self.message@ }
    }
}

impl ParseError {
    /// The text of the error: the line number, then the message.
    pub open spec fn text(&self) -> Seq<char> {
        "line "@ + decimal(self.line as nat) + ": "@ + self.message@
    }

    /// The error as text.
    pub fn to_string(&self) -> (out: String)
        ensures
            out@ == self.text(),
    {
        let mut out = "line ".to_owned();
        out.append(to_decimal(self.line).as_str());
        out.append(": ");
        out.append(self.message.as_str());
        out
    }
}

/// Parses a sysctl.conf-style string and returns the top-level table.
/// Nested keys (such as `log.file`) are stored as nested tables.
pub fn parse_str(input: &str) -> (r: Result<Table, ParseError>)
    ensures
        match r {
            Ok(table) => parse(input@) == Ok::<Map<Seq<char>, Tree>, ParseErrorView>(table@),
            Err(e) => parse(input@) == Err::<Map<Seq<char>, Tree>, ParseErrorView>(e@),
        },
{
    let chars = to_chars(input);
    let lines = split(chars.as_slice(), '\n');
    let ghost all = views(lines@);
    let mut root = Table::new();
    let mut i: usize = 0;
    while i < lines.len()
        invariant
            i <= lines.len(),
            all == views(lines@),
            all == split_on(input@, '\n'),
            parse_lines(all.take(i as int)) == Ok::<Map<Seq<char>, Tree>, ParseErrorView>(root@),
        decreases lines.len() - i,
    {
        assert(all.take(i + 1).drop_last() =~= all.take(i as int));
        assert(all.take(i + 1).last() == lines[i as int]@);
        match read_line(lines[i]) {
            Line::Skip => {},
            Line::Assign { key, value } => {
                set_at(&mut root, key, Value::String(from_chars(value)));
            },
            Line::MissingEquals => {
                let e = ParseError { line: i + 1, message: "missing '='".to_owned() };
                proof {
                    lemma_error_stays(all, i + 1);
                }
                return Err(e);
            },
            Line::EmptyKey => {
                let e = ParseError { line: i + 1, message: "empty key".to_owned() };
                proof {
                    lemma_error_stays(all, i + 1);
                }
                return Err(e);
            },
        }
        i += 1;
    }
    assert(all.take(i as int) =~= all);
    Ok(root)
}

/// An error stays: once a prefix of the lines fails, every longer prefix
/// fails in the same way.
pub proof fn lemma_error_stays(lines: Seq<Seq<char>>, n: int)
    requires
        0 <= n <= lines.len(),
        parse_lines(lines.take(n)) is Err,
    ensures
        parse_lines(lines) == parse_lines(lines.take(n)),
    decreases lines.len() - n,
{
    if n < lines.len() {
        assert(lines.take(n + 1).drop_last() =~= lines.take(n));
        lemma_error_stays(lines, n + 1);
    } else {
        assert(lines.take(n) =~= lines);
    }
}

/// Whether a line is well-formed: it says nothing, or assigns.
pub open spec fn is_well_formed(line: Seq<char>) -> bool {
    read(line) is Skip || read(line) is Assign
}

/// Whether a line is blank or a comment.
pub open spec fn is_blank_or_comment(line: Seq<char>) -> bool {
    let text = trimmed(line);
    text.len() == 0 || text[0] == '#' || text[0] == ';'
}

/// The error `e` as it reads once a line has been put in after the first
/// `at` lines: the number of a later line is one higher.
pub open spec fn moved_down(e: ParseErrorView, at: nat) -> ParseErrorView {
    if e.line > at {
        ParseErrorView { line: e.line + 1, message: e.message }
    } else {
        e
    }
}

/// The empty text parses, to the empty tree.
pub proof fn lemma_empty_text()
    ensures
        parse(Seq::empty()) == Ok::<Map<Seq<char>, Tree>, ParseErrorView>(Map::empty()),
{
    let lines = split_on(Seq::empty(), '\n');
    assert(lines =~= seq![Seq::<char>::empty()]);
    assert(lines.drop_last() =~= Seq::<Seq<char>>::empty());
    assert(parse_lines(lines.drop_last()) == Ok::<Map<Seq<char>, Tree>, ParseErrorView>(
        Map::empty(),
    ));
    assert(read(lines.last()) is Skip);
}

/// An error names a line that exists.
pub proof fn lemma_error_line(lines: Seq<Seq<char>>)
    ensures
        parse_lines(lines) matches Err(e) ==> 1 <= e.line <= lines.len(),
    decreases lines.len(),
{
    if lines.len() > 0 {
        lemma_error_line(lines.drop_last());
    }
}

/// Lines that are all well-formed parse.
pub proof fn lemma_well_formed_parses(lines: Seq<Seq<char>>)
    requires
        forall|i: int| 0 <= i < lines.len() ==> is_well_formed(#[trigger] lines[i]),
    ensures
        parse_lines(lines) is Ok,
    decreases lines.len(),
{
    if lines.len() > 0 {
        let front = lines.drop_last();
        assert forall|i: int| 0 <= i < front.len() implies is_well_formed(#[trigger] front[i]) by {
            assert(front[i] == lines[i]);
        }
        lemma_well_formed_parses(front);
        assert(is_well_formed(lines[lines.len() - 1]));
    }
}

/// The first malformed line ends the parse: the error carries its number,
/// counted from one, and says what is wrong with it.
pub proof fn lemma_first_malformed_line(lines: Seq<Seq<char>>, i: int)
    requires
        0 <= i < lines.len(),
        !is_well_formed(lines[i]),
        forall|j: int| 0 <= j < i ==> is_well_formed(#[trigger] lines[j]),
    ensures
        parse_lines(lines) == Err::<Map<Seq<char>, Tree>, ParseErrorView>(
            ParseErrorView {
                line: (i + 1) as nat,
                message: if read(lines[i]) is MissingEquals {
                    missing_equals()
                } else {
                    empty_key()
                },
            },
        ),
{
    let upto = lines.take(i + 1);
    let front = upto.drop_last();
    assert(front =~= lines.take(i));
    assert forall|j: int| 0 <= j < front.len() implies is_well_formed(#[trigger] front[j]) by {
        assert(front[j] == lines[j]);
    }
    lemma_well_formed_parses(front);
    assert(upto.last() == lines[i]);
    lemma_error_stays(lines, i + 1);
}

/// A line `key = value` makes `value` the leaf under the segments of `key`:
/// after lines that parse, the line is parsed too, and looking up the
/// segments of its key gives its value.
pub proof fn lemma_assigned_value_is_found(before: Seq<Seq<char>>, line: Seq<char>)
    requires
        parse_lines(before) is Ok,
        read(line) is Assign,
    ensures
        parse_lines(before.push(line)) matches Ok(tree) && lookup(
            tree,
            segments(read(line)->key),
        ) == Some(Tree::Leaf(read(line)->value)),
{
    let lines = before.push(line);
    assert(lines.drop_last() =~= before);
    lemma_split_some(read(line)->key, '.');
    lemma_lookup_inserted(
        parse_lines(before)->Ok_0,
        segments(read(line)->key),
        Tree::Leaf(read(line)->value),
    );
}

/// The same in terms of text: after a text that parses, one more line
/// `key = value` makes `value` the leaf under the segments of `key`.
pub proof fn lemma_assigned_value_is_found_in_text(before: Seq<char>, line: Seq<char>)
    requires
        parse(before) is Ok,
        !line.contains('\n'),
        read(line) is Assign,
    ensures
        parse(before + seq!['\n'] + line) matches Ok(tree) && lookup(
            tree,
            segments(read(line)->key),
        ) == Some(Tree::Leaf(read(line)->value)),
        parse(line) matches Ok(tree) && lookup(tree, segments(read(line)->key)) == Some(
            Tree::Leaf(read(line)->value),
        ),
{
    lemma_split_joined(before, line, '\n');
    lemma_split_single(line, '\n');
    assert(split_on(before, '\n') + seq![line] =~= split_on(before, '\n').push(line));
    lemma_assigned_value_is_found(split_on(before, '\n'), line);
    assert(seq![line] =~= Seq::<Seq<char>>::empty().push(line));
    lemma_assigned_value_is_found(Seq::empty(), line);
}

/// A line of the form `key = value` reads as the assignment of the trimmed
/// value to the trimmed key, where the key holds no `=`, is not blank, and
/// does not start with `#`, `;` or `-`.
pub proof fn lemma_read_assignment(key: Seq<char>, value: Seq<char>)
    requires
        !key.contains('='),
        trimmed(key).len() > 0,
        trimmed(key)[0] != '#' && trimmed(key)[0] != ';' && trimmed(key)[0] != '-',
    ensures
        read(key + seq!['='] + value) == (LineView::Assign {
            key: trimmed(key),
            value: trimmed(value),
        }),
{
    let raw = key + seq!['='] + value;
    let k = trimmed_start(key);
    let n = lemma_trimmed_start_is_skip(key);
    lemma_trimmed_ends(key);
    crate::text::lemma_trimmed_end_first(k);
    // the line without its leading whitespace
    assert(raw =~= key + (seq!['='] + value));
    lemma_trimmed_start_before(key, seq!['='] + value);
    assert(k + (seq!['='] + value) =~= k.push('=') + value);
    // and without its trailing whitespace
    lemma_trimmed_end_after(k, '=', value);
    let body = k.push('=') + trimmed_end(value);
    assert(trimmed(raw) == body);
    assert(body[0] == k[0]);
    // the first `=` stands right behind the key
    assert forall|j: int| 0 <= j < k.len() implies body[j] != '=' by {
        assert(body[j] == key[n + j]);
        assert(key.contains(key[n + j]));
    }
    lemma_first_index_is(body, '=', k.len() as int);
    assert(body.take(k.len() as int) =~= k);
    assert(body.skip(k.len() as int + 1) =~= trimmed_end(value));
    lemma_trimmed_of_trimmed_end(value);
    assert(trimmed(k) == trimmed(key)) by {
        assert(trimmed_start(k) == k);
    }
}

/// Blank lines and comments never change the tree, wherever they stand: with
/// such a line put in between any lines, the parse gives the same tree, or
/// the same error with the number of its line moved accordingly.
pub proof fn lemma_comment_changes_nothing(
    before: Seq<Seq<char>>,
    line: Seq<char>,
    after: Seq<Seq<char>>,
)
    requires
        is_blank_or_comment(line),
    ensures
        parse_lines(before + seq![line] + after) == match parse_lines(before + after) {
            Ok(tree) => Ok::<Map<Seq<char>, Tree>, ParseErrorView>(tree),
            Err(e) => Err(moved_down(e, before.len())),
        },
    decreases after.len(),
{
    let with = before + seq![line] + after;
    let without = before + after;
    if after.len() == 0 {
        assert(without =~= before);
        assert(with.drop_last() =~= before);
        lemma_error_line(before);
    } else {
        let rest = after.drop_last();
        assert(with.drop_last() =~= before + seq![line] + rest);
        assert(without.drop_last() =~= before + rest);
        assert(with.last() == without.last());
        lemma_comment_changes_nothing(before, line, rest);
        lemma_error_line(before + rest);
    }
}

/// The same in terms of text, for a comment or blank line between two
/// texts, before a text, and after a text.
pub proof fn lemma_comment_changes_nothing_in_text(
    before: Seq<char>,
    line: Seq<char>,
    after: Seq<char>,
)
    requires
        is_blank_or_comment(line),
        !line.contains('\n'),
    ensures
        parse(before + seq!['\n'] + line + seq!['\n'] + after) == match parse(
            before + seq!['\n'] + after,
        ) {
            Ok(tree) => Ok::<Map<Seq<char>, Tree>, ParseErrorView>(tree),
            Err(e) => Err(moved_down(e, split_on(before, '\n').len())),
        },
        parse(line + seq!['\n'] + after) == match parse(after) {
            Ok(tree) => Ok::<Map<Seq<char>, Tree>, ParseErrorView>(tree),
            Err(e) => Err(moved_down(e, 0)),
        },
        parse(before + seq!['\n'] + line) == parse(before),
{
    let b = split_on(before, '\n');
    let a = split_on(after, '\n');
    lemma_split_single(line, '\n');
    // between two texts
    lemma_lines_around(before, line, after);
    lemma_split_joined(before, after, '\n');
    lemma_comment_changes_nothing(b, line, a);
    lemma_split_joined(line, after, '\n');
    // before a text
    assert(Seq::<Seq<char>>::empty() + seq![line] + a =~= seq![line] + a);
    assert(Seq::<Seq<char>>::empty() + a =~= a);
    lemma_comment_changes_nothing(Seq::empty(), line, a);
    // after a text
    lemma_split_joined(before, line, '\n');
    assert(b + seq![line] + Seq::<Seq<char>>::empty() =~= b + seq![line]);
    assert(b + Seq::<Seq<char>>::empty() =~= b);
    lemma_comment_changes_nothing(b, line, Seq::empty());
    lemma_error_line(b);
}

/// The lines of a text with a line in its middle: those of the text before
/// it, the line, and those of the text after it.
pub proof fn lemma_lines_around(before: Seq<char>, line: Seq<char>, after: Seq<char>)
    requires
        !line.contains('\n'),
    ensures
        split_on(before + seq!['\n'] + line + seq!['\n'] + after, '\n') == split_on(before, '\n')
            + seq![line] + split_on(after, '\n'),
{
    let nl = seq!['\n'];
    assert(before + nl + line + nl + after =~= before + nl + (line + nl + after));
    lemma_split_joined(before, line + nl + after, '\n');
    lemma_split_joined(line, after, '\n');
    lemma_split_single(line, '\n');
    assert(split_on(before, '\n') + (seq![line] + split_on(after, '\n')) =~= split_on(
        before,
        '\n',
    ) + seq![line] + split_on(after, '\n'));
}

/// The last write wins: of two lines that assign to the same dotted key,
/// one right after the other, the first may as well be left out.
pub proof fn lemma_last_assignment_wins(
    before: Seq<Seq<char>>,
    first: Seq<char>,
    second: Seq<char>,
)
    requires
        read(first) is Assign,
        read(second) is Assign,
        segments(read(first)->key) == segments(read(second)->key),
    ensures
        parse_lines(before.push(first).push(second)) == parse_lines(before.push(second)),
{
    let one = before.push(first);
    let both = one.push(second);
    let other = before.push(second);
    assert(both.drop_last() =~= one && both.last() == second);
    assert(one.drop_last() =~= before && one.last() == first);
    assert(other.drop_last() =~= before && other.last() == second);
    let path = segments(read(second)->key);
    match parse_lines(before) {
        Ok(tree) => {
            let between = insert_at(tree, path, Tree::Leaf(read(first)->value));
            assert(parse_lines(one) == Ok::<Map<Seq<char>, Tree>, ParseErrorView>(between));
            lemma_last_write_wins(
                tree,
                path,
                Tree::Leaf(read(first)->value),
                Tree::Leaf(read(second)->value),
            );
        },
        Err(e) => {
            assert(parse_lines(one) == Err::<Map<Seq<char>, Tree>, ParseErrorView>(e));
        },
    }
}

/// The deeper path wins: after a line that assigns to a dotted key, a line
/// that assigns to a longer key which starts with the segments of the first
/// turns what the first key held into a table, which holds nothing but what
/// the second line assigns.
pub proof fn lemma_deeper_assignment_wins(
    before: Seq<Seq<char>>,
    first: Seq<char>,
    second: Seq<char>,
    rest: Seq<Seq<char>>,
)
    requires
        parse_lines(before) is Ok,
        read(first) is Assign,
        read(second) is Assign,
        rest.len() > 0,
        segments(read(second)->key) == segments(read(first)->key) + rest,
    ensures
        parse_lines(before.push(first).push(second)) matches Ok(tree) && lookup(
            tree,
            segments(read(first)->key),
        ) == Some(Tree::Node(insert_at(Map::empty(), rest, Tree::Leaf(read(second)->value))))
            && lookup(tree, segments(read(second)->key)) == Some(
            Tree::Leaf(read(second)->value),
        ),
{
    let both = before.push(first).push(second);
    assert(both.drop_last() =~= before.push(first));
    lemma_assigned_value_is_found(before, first);
    lemma_deeper_path_wins(
        parse_lines(before.push(first))->Ok_0,
        segments(read(first)->key),
        rest,
        Tree::Leaf(read(second)->value),
    );
}

/// The leaves of a parsed text stand under segments that hold no dots.
pub proof fn lemma_parsed_paths(lines: Seq<Seq<char>>)
    ensures
        parse_lines(lines) matches Ok(tree) ==> forall|path: Seq<Seq<char>>, text: Seq<char>| #[trigger]
            leaf_at(tree, path, text) ==> dot_free(path),
    decreases lines.len(),
{
    if lines.len() > 0 {
        lemma_parsed_paths(lines.drop_last());
        if let Ok(tree) = parse_lines(lines) {
            let before = parse_lines(lines.drop_last())->Ok_0;
            if let LineView::Assign { key, value } = read(lines.last()) {
                lemma_segments_dot_free(key);
                assert forall|path: Seq<Seq<char>>, text: Seq<char>| #[trigger]
                    leaf_at(tree, path, text) implies dot_free(path) by {
                    lemma_leaf_after_insert(before, segments(key), value, path, text);
                    if path != segments(key) {
                        assert(leaf_at(before, path, text));
                    }
                }
            }
        }
    }
}

/// Lines that read alike parse alike: one may stand for the other anywhere.
pub proof fn lemma_same_reading(
    before: Seq<Seq<char>>,
    one: Seq<char>,
    other: Seq<char>,
    after: Seq<Seq<char>>,
)
    requires
        read(one) == read(other),
    ensures
        parse_lines(before + seq![one] + after) == parse_lines(before + seq![other] + after),
    decreases after.len(),
{
    let first = before + seq![one] + after;
    let second = before + seq![other] + after;
    if after.len() == 0 {
        assert(first.drop_last() =~= before);
        assert(second.drop_last() =~= before);
    } else {
        let rest = after.drop_last();
        assert(first.drop_last() =~= before + seq![one] + rest);
        assert(second.drop_last() =~= before + seq![other] + rest);
        lemma_same_reading(before, one, other, rest);
    }
}

/// A leading `-` is ignored: the line reads as it does without it, and so
/// parses alike wherever it stands. This holds of every line but one that
/// starts, after whitespace, with `#`, `;` or `-`, where the `-` in front
/// changes what follows it from a comment to text, or is the only one that
/// is dropped.
pub proof fn lemma_minus_is_ignored(before: Seq<Seq<char>>, line: Seq<char>, after: Seq<Seq<char>>)
    requires
        trimmed(line).len() > 0 ==> trimmed(line)[0] != '#' && trimmed(line)[0] != ';' && trimmed(
            line,
        )[0] != '-',
    ensures
        read(seq!['-'] + line) == read(line),
        parse_lines(before + seq![seq!['-'] + line] + after) == parse_lines(
            before + seq![line] + after,
        ),
{
    let marked = seq!['-'] + line;
    assert(marked =~= Seq::<char>::empty().push('-') + line);
    lemma_trimmed_end_after(Seq::empty(), '-', line);
    assert(trimmed_start(marked) == marked);
    let kept = Seq::<char>::empty().push('-') + trimmed_end(line);
    assert(trimmed(marked) == kept);
    assert(kept.drop_first() =~= trimmed_end(line));
    lemma_trimmed_of_trimmed_end(line);
    lemma_same_reading(before, marked, line, after);
}

/// The same in terms of text: a `-` put in front of a line of a text does
/// not change what the text parses to.
pub proof fn lemma_minus_is_ignored_in_text(before: Seq<char>, line: Seq<char>, after: Seq<char>)
    requires
        !line.contains('\n'),
        trimmed(line).len() > 0 ==> trimmed(line)[0] != '#' && trimmed(line)[0] != ';' && trimmed(
            line,
        )[0] != '-',
    ensures
        parse(before + seq!['\n'] + (seq!['-'] + line) + seq!['\n'] + after) == parse(
            before + seq!['\n'] + line + seq!['\n'] + after,
        ),
        parse(seq!['-'] + line) == parse(line),
{
    let marked = seq!['-'] + line;
    assert(!marked.contains('\n')) by {
        if marked.contains('\n') {
            let i = choose|i: int| 0 <= i < marked.len() && marked[i] == '\n';
            assert(line[i - 1] == '\n');
        }
    }
    lemma_lines_around(before, marked, after);
    lemma_lines_around(before, line, after);
    lemma_minus_is_ignored(split_on(before, '\n'), line, split_on(after, '\n'));
    lemma_split_single(marked, '\n');
    lemma_split_single(line, '\n');
    assert(Seq::<Seq<char>>::empty() + seq![marked] + Seq::<Seq<char>>::empty() =~= seq![marked]);
    assert(Seq::<Seq<char>>::empty() + seq![line] + Seq::<Seq<char>>::empty() =~= seq![line]);
    lemma_minus_is_ignored(Seq::empty(), line, Seq::empty());
}

} // verus!
