//! Character-level building blocks: whitespace, trimming, searching and
//! splitting, stated over `Seq<char>` and implemented over `&[char]`.

use vstd::prelude::*;
use vstd::slice::slice_subrange;

verus! {

/// `String::push` appends exactly one character to the end of the string.
pub assume_specification[ std::string::String::push ](s: &mut std::string::String, ch: char)
    ensures
        final(s)@ == old(s)@.push(ch),
;

/// The characters that count as whitespace: the Unicode `White_Space` set.
pub open spec fn is_space(c: char) -> bool {
    let n = c as u32;
    ||| 0x09 <= n <= 0x0D
    ||| n == 0x20
    ||| n == 0x85
    ||| n == 0xA0
    ||| n == 0x1680
    ||| 0x2000 <= n <= 0x200A
    ||| n == 0x2028
    ||| n == 0x2029
    ||| n == 0x202F
    ||| n == 0x205F
    ||| n == 0x3000
}

/// `s` without its leading whitespace.
pub open spec fn trimmed_start(s: Seq<char>) -> Seq<char>
    decreases s.len(),
{
    if s.len() > 0 && is_space(s[0]) {
        trimmed_start(s.drop_first())
    } else {
        s
    }
}

/// `s` without its trailing whitespace.
pub open spec fn trimmed_end(s: Seq<char>) -> Seq<char>
    decreases s.len(),
{
    if s.len() > 0 && is_space(s.last()) {
        trimmed_end(s.drop_last())
    } else {
        s
    }
}

/// `s` without its surrounding whitespace.
pub open spec fn trimmed(s: Seq<char>) -> Seq<char> {
    trimmed_end(trimmed_start(s))
}

/// The index of the first `c` in `s`, or `s.len()` when `s` holds none.
pub open spec fn first_index(s: Seq<char>, c: char) -> int
    decreases s.len(),
{
    if s.len() == 0 {
        0
    } else if s[0] == c {
        0
    } else {
        1 + first_index(s.drop_first(), c)
    }
}

/// The pieces of `s` between occurrences of `sep`. There is always at least
/// one piece; `n` separators give `n + 1` pieces, empty ones included.
pub open spec fn split_on(s: Seq<char>, sep: char) -> Seq<Seq<char>>
    decreases s.len(),
{
    let i = first_index(s, sep);
    if 0 <= i < s.len() {
        seq![s.take(i)] + split_on(s.skip(i + 1), sep)
    } else {
        seq![s]
    }
}

/// The ASCII lower-case form of `c`; other characters are unchanged.
pub open spec fn lower(c: char) -> char {
    if 'A' <= c <= 'Z' {
        ((c as u8) + 32) as char
    } else {
        c
    }
}

/// `s` with every ASCII upper-case letter replaced by its lower-case form.
pub open spec fn lowered(s: Seq<char>) -> Seq<char> {
    Seq::new(s.len(), |i: int| lower(s[i]))
}

/// The contents of each slice of `parts`, in order.
pub open spec fn views(parts: Seq<&[char]>) -> Seq<Seq<char>> {
    Seq::new(parts.len(), |i: int| parts[i]@)
}

/// The decimal digit for `d`, which is below ten.
pub open spec fn digit_of(d: nat) -> char {
    (48 + d) as char
}

/// `n` written in decimal, without leading zeros.
pub open spec fn decimal(n: nat) -> Seq<char>
    decreases n,
{
    if n < 10 {
        seq![digit_of(n)]
    } else {
        decimal(n / 10).push(digit_of(n % 10))
    }
}

/// `first_index` is within bounds, names a `c` when it is inside `s`, and
/// nothing before it is a `c`.
pub proof fn lemma_first_index(s: Seq<char>, c: char)
    ensures
        0 <= first_index(s, c) <= s.len(),
        first_index(s, c) < s.len() ==> s[first_index(s, c)] == c,
        forall|j: int| 0 <= j < first_index(s, c) ==> s[j] != c,
    decreases s.len(),
{
    if s.len() > 0 && s[0] != c {
        let rest = s.drop_first();
        lemma_first_index(rest, c);
        assert forall|j: int| 0 <= j < first_index(s, c) implies s[j] != c by {
            if j > 0 {
                assert(s[j] == rest[j - 1]);
            }
        }
    }
}

/// An index with no `c` before it, which is the end of `s` or names a `c`,
/// is `first_index`.
pub proof fn lemma_first_index_is(s: Seq<char>, c: char, i: int)
    requires
        0 <= i <= s.len(),
        forall|j: int| 0 <= j < i ==> s[j] != c,
        i < s.len() ==> s[i] == c,
    ensures
        first_index(s, c) == i,
{
    lemma_first_index(s, c);
    let f = first_index(s, c);
    if f < i {
        assert(s[f] != c);
    } else if i < f {
        assert(s[i] == c);
    }
}

/// A sequence that neither starts nor ends with whitespace is its own trim.
pub proof fn lemma_trimmed_fixed(s: Seq<char>)
    requires
        s.len() == 0 || (!is_space(s[0]) && !is_space(s.last())),
    ensures
        trimmed(s) == s,
{
}

/// Trimming leaves a sequence that neither starts nor ends with whitespace.
pub proof fn lemma_trimmed_ends(s: Seq<char>)
    ensures
        trimmed(s).len() <= s.len(),
        trimmed(s).len() > 0 ==> !is_space(trimmed(s)[0]) && !is_space(trimmed(s).last()),
    decreases s.len(),
{
    lemma_trimmed_start_ends(s);
    lemma_trimmed_end_ends(trimmed_start(s));
}

proof fn lemma_trimmed_start_ends(s: Seq<char>)
    ensures
        trimmed_start(s).len() <= s.len(),
        trimmed_start(s).len() > 0 ==> !is_space(trimmed_start(s)[0]),
    decreases s.len(),
{
    if s.len() > 0 && is_space(s[0]) {
        lemma_trimmed_start_ends(s.drop_first());
    }
}

proof fn lemma_trimmed_end_ends(s: Seq<char>)
    ensures
        trimmed_end(s).len() <= s.len(),
        trimmed_end(s).len() > 0 ==> !is_space(trimmed_end(s).last()),
        trimmed_end(s).len() > 0 ==> trimmed_end(s)[0] == s[0],
    decreases s.len(),
{
    if s.len() > 0 && is_space(s.last()) {
        lemma_trimmed_end_ends(s.drop_last());
    }
}

/// Dropping trailing whitespace leaves the first character where it is.
pub proof fn lemma_trimmed_end_first(s: Seq<char>)
    ensures
        trimmed_end(s).len() > 0 ==> trimmed_end(s)[0] == s[0],
{
    lemma_trimmed_end_ends(s);
}

/// Trimming twice is trimming once.
pub proof fn lemma_trimmed_idempotent(s: Seq<char>)
    ensures
        trimmed(trimmed(s)) == trimmed(s),
{
    lemma_trimmed_ends(s);
    lemma_trimmed_fixed(trimmed(s));
}

/// Dropping trailing whitespace stops at a character that is no whitespace,
/// and keeps all that stands before it.
pub proof fn lemma_trimmed_end_after(front: Seq<char>, c: char, s: Seq<char>)
    requires
        !is_space(c),
    ensures
        trimmed_end(front.push(c) + s) == front.push(c) + trimmed_end(s),
    decreases s.len(),
{
    let whole = front.push(c) + s;
    if s.len() == 0 {
        assert(whole =~= front.push(c));
        assert(front.push(c) + trimmed_end(s) =~= front.push(c));
    } else if is_space(s.last()) {
        assert(whole.drop_last() =~= front.push(c) + s.drop_last());
        lemma_trimmed_end_after(front, c, s.drop_last());
    }
}

/// What is left without leading whitespace is the end of the sequence,
/// from some index on.
pub proof fn lemma_trimmed_start_is_skip(s: Seq<char>) -> (n: int)
    ensures
        0 <= n <= s.len(),
        trimmed_start(s) == s.skip(n),
    decreases s.len(),
{
    if s.len() > 0 && is_space(s[0]) {
        let m = lemma_trimmed_start_is_skip(s.drop_first());
        assert(s.drop_first().skip(m) =~= s.skip(m + 1));
        m + 1
    } else {
        assert(s.skip(0) =~= s);
        0
    }
}

/// Dropping leading whitespace stops inside the first of two joined
/// sequences when that one is not all whitespace.
pub proof fn lemma_trimmed_start_before(a: Seq<char>, b: Seq<char>)
    requires
        trimmed_start(a).len() > 0,
    ensures
        trimmed_start(a + b) == trimmed_start(a) + b,
    decreases a.len(),
{
    if is_space(a[0]) {
        assert((a + b).drop_first() =~= a.drop_first() + b);
        lemma_trimmed_start_before(a.drop_first(), b);
    }
}

/// Dropping leading whitespace of a sequence with one more character at its
/// end: the character stays behind what was left, or is trimmed alone.
proof fn lemma_trimmed_start_push(s: Seq<char>, c: char)
    ensures
        trimmed_start(s.push(c)) == if trimmed_start(s).len() > 0 {
            trimmed_start(s).push(c)
        } else {
            trimmed_start(seq![c])
        },
    decreases s.len(),
{
    if s.len() == 0 {
        assert(s.push(c) =~= seq![c]);
    } else if is_space(s[0]) {
        assert(s.push(c).drop_first() =~= s.drop_first().push(c));
        lemma_trimmed_start_push(s.drop_first(), c);
    }
}

/// Leading and trailing whitespace can be dropped in either order.
pub proof fn lemma_trim_commutes(s: Seq<char>)
    ensures
        trimmed_start(trimmed_end(s)) == trimmed_end(trimmed_start(s)),
    decreases s.len(),
{
    if s.len() > 0 {
        let front = s.drop_last();
        let c = s.last();
        assert(s =~= front.push(c));
        lemma_trimmed_start_push(front, c);
        if is_space(c) {
            lemma_trim_commutes(front);
            assert(trimmed_end(s) == trimmed_end(front));
            if trimmed_start(front).len() > 0 {
                let kept = trimmed_start(front).push(c);
                assert(kept.last() == c);
                assert(kept.drop_last() =~= trimmed_start(front));
                assert(trimmed_end(kept) == trimmed_end(kept.drop_last()));
            } else {
                assert(seq![c].drop_first() =~= Seq::<char>::empty());
                assert(trimmed_start(seq![c]) == trimmed_start(seq![c].drop_first()));
            }
        } else {
            assert(trimmed_end(s) == s);
            if trimmed_start(front).len() > 0 {
                assert(trimmed_start(front).push(c).last() == c);
            } else {
                assert(trimmed_start(seq![c]) == seq![c]);
                assert(seq![c].last() == c);
            }
        }
    }
}

/// Dropping trailing whitespace twice is dropping it once.
pub proof fn lemma_trimmed_end_idempotent(s: Seq<char>)
    ensures
        trimmed_end(trimmed_end(s)) == trimmed_end(s),
    decreases s.len(),
{
    if s.len() > 0 && is_space(s.last()) {
        lemma_trimmed_end_idempotent(s.drop_last());
    }
}

/// Trailing whitespace that was dropped beforehand does not change the trim.
pub proof fn lemma_trimmed_of_trimmed_end(s: Seq<char>)
    ensures
        trimmed(trimmed_end(s)) == trimmed(s),
{
    lemma_trim_commutes(s);
    lemma_trimmed_end_idempotent(trimmed_start(s));
}

/// A sequence without the separator is a single piece.
pub proof fn lemma_split_single(s: Seq<char>, sep: char)
    requires
        !s.contains(sep),
    ensures
        split_on(s, sep) == seq![s],
{
    lemma_first_index(s, sep);
    if first_index(s, sep) < s.len() {
        assert(s.contains(s[first_index(s, sep)]));
    }
}

/// Splitting always gives at least one piece.
pub proof fn lemma_split_some(s: Seq<char>, sep: char)
    ensures
        split_on(s, sep).len() > 0,
{
}

/// The pieces of two sequences joined by a separator are the pieces of the
/// first, followed by the pieces of the second.
pub proof fn lemma_split_joined(a: Seq<char>, b: Seq<char>, sep: char)
    ensures
        split_on(a + seq![sep] + b, sep) == split_on(a, sep) + split_on(b, sep),
    decreases a.len(),
{
    let whole = a + seq![sep] + b;
    let i = first_index(a, sep);
    lemma_first_index(a, sep);
    lemma_first_index_is(whole, sep, i);
    if i < a.len() {
        assert(whole.take(i) =~= a.take(i));
        assert(whole.skip(i + 1) =~= a.skip(i + 1) + seq![sep] + b);
        lemma_split_joined(a.skip(i + 1), b, sep);
        assert(seq![a.take(i)] + (split_on(a.skip(i + 1), sep) + split_on(b, sep)) =~= (
            seq![a.take(i)] + split_on(a.skip(i + 1), sep)) + split_on(b, sep));
    } else {
        assert(whole.take(i) =~= a);
        assert(whole.skip(i + 1) =~= b);
    }
}

/// No piece holds the separator.
pub proof fn lemma_split_pieces(s: Seq<char>, sep: char)
    ensures
        forall|i: int| 0 <= i < split_on(s, sep).len() ==> !(#[trigger] split_on(s, sep)[i]).contains(sep),
    decreases s.len(),
{
    let at = first_index(s, sep);
    lemma_first_index(s, sep);
    if at < s.len() {
        let rest = split_on(s.skip(at + 1), sep);
        lemma_split_pieces(s.skip(at + 1), sep);
        assert forall|i: int| 0 <= i < split_on(s, sep).len() implies !(#[trigger] split_on(
            s,
            sep,
        )[i]).contains(sep) by {
            if i == 0 {
                let first = s.take(at);
                if first.contains(sep) {
                    let j = choose|j: int| 0 <= j < first.len() && first[j] == sep;
                    assert(s[j] == sep);
                }
            } else {
                assert(split_on(s, sep)[i] == rest[i - 1]);
            }
        }
    } else {
        if s.contains(sep) {
            let j = choose|j: int| 0 <= j < s.len() && s[j] == sep;
            assert(s[j] == sep);
        }
    }
}

/// What is left without trailing whitespace is the start of the sequence,
/// up to some index.
pub proof fn lemma_trimmed_end_is_take(s: Seq<char>) -> (n: int)
    ensures
        0 <= n <= s.len(),
        trimmed_end(s) == s.take(n),
    decreases s.len(),
{
    if s.len() > 0 && is_space(s.last()) {
        let m = lemma_trimmed_end_is_take(s.drop_last());
        assert(s.drop_last().take(m) =~= s.take(m));
        m
    } else {
        assert(s.take(s.len() as int) =~= s);
        s.len() as int
    }
}

/// Trimming brings in no character that was not there.
pub proof fn lemma_trimmed_within(s: Seq<char>, c: char)
    requires
        !s.contains(c),
    ensures
        !trimmed(s).contains(c),
{
    let from = lemma_trimmed_start_is_skip(s);
    let upto = lemma_trimmed_end_is_take(trimmed_start(s));
    let t = trimmed(s);
    if t.contains(c) {
        let j = choose|j: int| 0 <= j < t.len() && t[j] == c;
        assert(t[j] == s[from + j]);
        assert(s.contains(s[from + j]));
    }
}

/// Whether `c` is whitespace.
pub fn is_whitespace(c: char) -> (b: bool)
    ensures
        b == is_space(c),
{
    let n: u32 = c as u32;
    (0x09 <= n && n <= 0x0D) || n == 0x20 || n == 0x85 || n == 0xA0 || n == 0x1680 || (0x2000 <= n
        && n <= 0x200A) || n == 0x2028 || n == 0x2029 || n == 0x202F || n == 0x205F || n == 0x3000
}

/// The ASCII lower-case form of `c`.
pub fn to_lower(c: char) -> (r: char)
    ensures
        r == lower(c),
{
    if 'A' <= c && c <= 'Z' {
        ((c as u8) + 32) as char
    } else {
        c
    }
}

/// The characters of `s`, in order.
pub fn to_chars(s: &str) -> (out: Vec<char>)
    ensures
        out@ == s@,
{
    let mut out: Vec<char> = Vec::new();
    for c in it: s.chars()
        invariant
            out@ == it.seq().take(it.index() as int),
            it.seq() == s@,
    {
        out.push(c);
    }
    out
}

/// A string made of the characters of `s`, in order.
pub fn from_chars(s: &[char]) -> (out: String)
    ensures
        out@ == s@,
{
    let mut out = String::new();
    let mut i: usize = 0;
    while i < s.len()
        invariant
            i <= s.len(),
            out@ == s@.take(i as int),
        decreases s.len() - i,
    {
        out.push(s[i]);
        i += 1;
    }
    assert(s@.take(s.len() as int) =~= s@);
    out
}

/// Whether two character slices hold the same characters.
pub fn same_chars(a: &[char], b: &[char]) -> (r: bool)
    ensures
        r == (a@ == b@),
{
    if a.len() != b.len() {
        return false;
    }
    let mut i: usize = 0;
    while i < a.len()
        invariant
            i <= a.len(),
            a.len() == b.len(),
            a@.take(i as int) == b@.take(i as int),
        decreases a.len() - i,
    {
        if a[i] != b[i] {
            return false;
        }
        assert(a@.take(i + 1) =~= a@.take(i as int).push(a@[i as int]));
        assert(b@.take(i + 1) =~= b@.take(i as int).push(b@[i as int]));
        i += 1;
    }
    assert(a@.take(a.len() as int) =~= a@);
    assert(b@.take(b.len() as int) =~= b@);
    true
}

/// Whether `s` spells exactly the text `word`.
pub fn spells(s: &[char], word: &str) -> (r: bool)
    ensures
        r == (s@ == word@),
{
    let w = to_chars(word);
    same_chars(s, w.as_slice())
}

/// `s` in ASCII lower case.
pub fn to_lowered(s: &[char]) -> (out: Vec<char>)
    ensures
        out@ == lowered(s@),
{
    let mut out: Vec<char> = Vec::new();
    let mut i: usize = 0;
    while i < s.len()
        invariant
            i <= s.len(),
            out@ == lowered(s@.take(i as int)),
        decreases s.len() - i,
    {
        out.push(to_lower(s[i]));
        assert(lowered(s@.take(i + 1)) =~= lowered(s@.take(i as int)).push(lower(s@[i as int])));
        i += 1;
    }
    assert(s@.take(s.len() as int) =~= s@);
    out
}

/// The position of the first `c` in `s`, or the length of `s`.
pub fn find(s: &[char], c: char) -> (i: usize)
    ensures
        i == first_index(s@, c),
{
    let mut i: usize = 0;
    while i < s.len() && s[i] != c
        invariant
            i <= s.len(),
            forall|j: int| 0 <= j < i ==> s@[j] != c,
        decreases s.len() - i,
    {
        i += 1;
    }
    proof {
        lemma_first_index_is(s@, c, i as int);
    }
    i
}

/// `s` without its surrounding whitespace, as a part of the same slice.
pub fn trim(s: &[char]) -> (r: &[char])
    ensures
        r@ == trimmed(s@),
{
    let n = s.len();
    let mut lo: usize = 0;
    assert(s@.subrange(0, n as int) =~= s@);
    while lo < n && is_whitespace(s[lo])
        invariant
            lo <= n,
            n == s.len(),
            trimmed_start(s@) == trimmed_start(s@.subrange(lo as int, n as int)),
        decreases n - lo,
    {
        assert(s@.subrange(lo as int, n as int).drop_first() =~= s@.subrange(lo + 1, n as int));
        lo += 1;
    }
    let mut hi: usize = n;
    assert(trimmed_start(s@) == s@.subrange(lo as int, n as int));
    while lo < hi && is_whitespace(s[hi - 1])
        invariant
            lo <= hi <= n,
            n == s.len(),
            trimmed(s@) == trimmed_end(s@.subrange(lo as int, hi as int)),
        decreases hi - lo,
    {
        assert(s@.subrange(lo as int, hi as int).drop_last() =~= s@.subrange(lo as int, hi - 1));
        hi -= 1;
    }
    slice_subrange(s, lo, hi)
}

/// The pieces of `s` between occurrences of `sep`, as parts of the same slice.
pub fn split<'a>(s: &'a [char], sep: char) -> (parts: Vec<&'a [char]>)
    ensures
        views(parts@) == split_on(s@, sep),
{
    let mut parts: Vec<&'a [char]> = Vec::new();
    let mut rest: &'a [char] = s;
    loop
        invariant_except_break
            split_on(s@, sep) == views(parts@) + split_on(rest@, sep),
        ensures
            views(parts@) == split_on(s@, sep),
        decreases rest@.len(),
    {
        let i = find(rest, sep);
        let ghost before = parts@;
        if i < rest.len() {
            parts.push(slice_subrange(rest, 0, i));
            let next = slice_subrange(rest, i + 1, rest.len());
            assert(views(parts@) =~= views(before) + seq![rest@.take(i as int)]);
            assert(next@ =~= rest@.skip(i + 1));
            rest = next;
        } else {
            parts.push(rest);
            assert(views(parts@) =~= views(before) + seq![rest@]);
            break;
        }
    }
    parts
}

/// `n` written in decimal.
pub fn to_decimal(n: usize) -> (out: String)
    ensures
        out@ == decimal(n as nat),
    decreases n,
{
    if n < 10 {
        let mut out = String::new();
        out.push((48u8 + (n as u8)) as char);
        out
    } else {
        let mut out = to_decimal(n / 10);
        out.push((48u8 + ((n % 10) as u8)) as char);
        out
    }
}

} // verus!
