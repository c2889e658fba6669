//! Text as sequences of characters: the vocabulary in which the other modules
//! state what they read and write.
//!
//! Every function on text works on slices of characters. [`chars`] and
//! [`string_of`] go from and to `str` and `String`.

use vstd::prelude::*;

verus! {

/// `String::push`: the character is appended at the end.
pub assume_specification[ String::push ](s: &mut String, c: char)
    ensures
        final(s)@ == old(s)@.push(c),
;

/// The texts that a sequence of strings holds.
pub open spec fn texts(v: Seq<String>) -> Seq<Seq<char>> {
    v.map_values(|s: String| s@)
}

/// The texts that a sequence of character slices holds.
pub open spec fn slices(v: Seq<&[char]>) -> Seq<Seq<char>> {
    v.map_values(|s: &[char]| s@)
}

/// The characters of `s`.
pub fn chars(s: &str) -> (r: Vec<char>)
    ensures
        r@ == s@,
{
    let mut out: Vec<char> = Vec::new();
    for c in it: s.chars()
        invariant
            out@ == it.seq().take(it.index() as int),
            it.seq() == s@,
    {
        out.push(c);
    }
    out
}

/// Appends the characters of `s` to `out`.
pub fn push_chars(out: &mut String, s: &[char])
    ensures
        final(out)@ == old(out)@ + s@,
{
    let mut i: usize = 0;
    while i < s.len()
        invariant
            i <= s.len(),
            out@ == old(out)@ + s@.take(i as int),
        decreases s.len() - i,
    {
        out.push(s[i]);
        i = i + 1;
        assert(s@.take(i as int) =~= s@.take(i - 1).push(s@[i - 1]));
    }
    assert(s@.take(i as int) =~= s@);
}

/// The string with the characters of `s`.
pub fn string_of(s: &[char]) -> (r: String)
    ensures
        r@ == s@,
{
    let mut out = String::new();
    push_chars(&mut out, s);
    assert(out@ =~= s@);
    out
}

/// The strings with the texts of `parts`.
pub fn strings(parts: &[&str]) -> (r: Vec<String>)
    ensures
        texts(r@) == parts@.map_values(|s: &str| s@),
{
    let mut out: Vec<String> = Vec::new();
    let mut i: usize = 0;
    while i < parts.len()
        invariant
            i <= parts.len(),
            out.len() == i,
            forall|j: int| 0 <= j < i ==> out@[j]@ == parts@[j]@,
        decreases parts.len() - i,
    {
        out.push(parts[i].to_owned());
        i = i + 1;
    }
    assert(texts(out@) =~= parts@.map_values(|s: &str| s@));
    out
}

/// Copies of the strings in `v`.
pub fn clone_strings(v: &Vec<String>) -> (r: Vec<String>)
    ensures
        texts(r@) == texts(v@),
{
    let mut out: Vec<String> = Vec::new();
    let mut i: usize = 0;
    while i < v.len()
        invariant
            i <= v.len(),
            out.len() == i,
            forall|j: int| 0 <= j < i ==> out@[j]@ == v@[j]@,
        decreases v.len() - i,
    {
        out.push(v[i].clone());
        i = i + 1;
    }
    assert(texts(out@) =~= texts(v@));
    out
}

// ---------------------------------------------------------------------------
// Equality, prefixes, suffixes, substrings

/// Whether two texts are the same.
pub fn same(a: &[char], b: &[char]) -> (r: bool)
    ensures
        r == (a@ == b@),
{
    if a.len() != b.len() {
        return false;
    }
    let mut i: usize = 0;
    while i < a.len()
        invariant
            i <= a.len(),
            a.len() == b.len(),
            forall|j: int| 0 <= j < i ==> a@[j] == b@[j],
        decreases a.len() - i,
    {
        if a[i] != b[i] {
            return false;
        }
        i = i + 1;
    }
    assert(a@ =~= b@);
    true
}

/// Whether a text is the one written in `b`.
pub fn is_text(a: &[char], b: &str) -> (r: bool)
    ensures
        r == (a@ == b@),
{
    let b = chars(b);
    same(a, b.as_slice())
}

/// Whether `s` begins with `p`.
pub open spec fn begins(s: Seq<char>, p: Seq<char>) -> bool {
    p.len() <= s.len() && s.take(p.len() as int) == p
}

/// Whether `s` ends with `p`.
pub open spec fn ends(s: Seq<char>, p: Seq<char>) -> bool {
    p.len() <= s.len() && s.skip(s.len() - p.len()) == p
}

/// Whether `p` occurs somewhere in `s`.
pub open spec fn occurs(s: Seq<char>, p: Seq<char>) -> bool {
    exists|i: int| 0 <= i <= s.len() - p.len() && #[trigger] s.subrange(i, i + p.len()) == p
}

/// What follows `p` in `s`, where `s` begins with `p`.
pub open spec fn after(s: Seq<char>, p: Seq<char>) -> Option<Seq<char>> {
    if begins(s, p) {
        Some(s.skip(p.len() as int))
    } else {
        None
    }
}

/// Whether `s` ends with `p`.
pub fn ends_with(s: &[char], p: &[char]) -> (r: bool)
    ensures
        r == ends(s@, p@),
{
    if p.len() > s.len() {
        return false;
    }
    let rest: &[char] = &s[s.len() - p.len()..s.len()];
    assert(rest@ =~= s@.skip(s@.len() - p@.len()));
    same(rest, p)
}

/// What follows `p` in `s`, where `s` begins with `p`.
pub fn strip_prefix<'a>(s: &'a [char], p: &str) -> (r: Option<&'a [char]>)
    ensures
        match r {
            Some(rest) => after(s@, p@) == Some(rest@),
            None => after(s@, p@) is None,
        },
{
    let p = chars(p);
    if p.len() > s.len() {
        return None;
    }
    let head: &[char] = &s[0..p.len()];
    assert(head@ =~= s@.take(p@.len() as int));
    if !same(head, p.as_slice()) {
        return None;
    }
    let rest: &'a [char] = &s[p.len()..s.len()];
    assert(rest@ =~= s@.skip(p@.len() as int));
    Some(rest)
}

/// Whether `p` occurs somewhere in `s`.
pub fn contains(s: &[char], p: &[char]) -> (r: bool)
    ensures
        r == occurs(s@, p@),
{
    if p.len() > s.len() {
        return false;
    }
    let last: usize = s.len() - p.len();
    let mut i: usize = 0;
    loop
        invariant
            last == s.len() - p.len(),
            i <= last,
            forall|j: int| 0 <= j < i ==> #[trigger] s@.subrange(j, j + p@.len()) != p@,
        decreases last - i,
    {
        let piece: &[char] = &s[i..i + p.len()];
        assert(piece@ == s@.subrange(i as int, i + p@.len()));
        if same(piece, p) {
            return true;
        }
        if i == last {
            return false;
        }
        i = i + 1;
    }
}

// ---------------------------------------------------------------------------
// White space

/// The characters with Unicode's property White_Space.
pub open spec fn is_space(c: char) -> bool {
    ||| '\u{9}' <= c <= '\u{d}'
    ||| c == ' '
    ||| c == '\u{85}'
    ||| c == '\u{a0}'
    ||| c == '\u{1680}'
    ||| '\u{2000}' <= c <= '\u{200a}'
    ||| c == '\u{2028}'
    ||| c == '\u{2029}'
    ||| c == '\u{202f}'
    ||| c == '\u{205f}'
    ||| c == '\u{3000}'
}

/// ASCII white space: space, tab, line feed, form feed and carriage return.
pub open spec fn is_ascii_space(c: char) -> bool {
    c == ' ' || c == '\t' || c == '\n' || c == '\u{c}' || c == '\r'
}

/// White space that separates words: ASCII's alone, or Unicode's.
pub open spec fn separates(c: char, ascii: bool) -> bool {
    if ascii {
        is_ascii_space(c)
    } else {
        is_space(c)
    }
}

/// Whether `c` separates words.
pub fn is_separator(c: char, ascii: bool) -> (r: bool)
    ensures
        r == separates(c, ascii),
{
    if ascii {
        c == ' ' || c == '\t' || c == '\n' || c == '\u{c}' || c == '\r'
    } else {
        ('\u{9}' <= c && c <= '\u{d}') || c == ' ' || c == '\u{85}' || c == '\u{a0}' || c
            == '\u{1680}' || ('\u{2000}' <= c && c <= '\u{200a}') || c == '\u{2028}' || c
            == '\u{2029}' || c == '\u{202f}' || c == '\u{205f}' || c == '\u{3000}'
    }
}

/// `s` without the white space at its start.
pub open spec fn trimmed_start(s: Seq<char>, ascii: bool) -> Seq<char>
    decreases s.len(),
{
    if s.len() > 0 && separates(s[0], ascii) {
        trimmed_start(s.skip(1), ascii)
    } else {
        s
    }
}

/// `s` without the white space at its end.
pub open spec fn trimmed_end(s: Seq<char>) -> Seq<char>
    decreases s.len(),
{
    if s.len() > 0 && is_space(s.last()) {
        trimmed_end(s.drop_last())
    } else {
        s
    }
}

/// `s` without the white space at its start and at its end.
pub open spec fn trimmed(s: Seq<char>) -> Seq<char> {
    trimmed_end(trimmed_start(s, false))
}

/// `s` without the characters `c` at its end.
pub open spec fn without_trailing(s: Seq<char>, c: char) -> Seq<char>
    decreases s.len(),
{
    if s.len() > 0 && s.last() == c {
        without_trailing(s.drop_last(), c)
    } else {
        s
    }
}

/// `s` without the white space at its start.
pub fn trim_start<'a>(s: &'a [char], ascii: bool) -> (r: &'a [char])
    ensures
        r@ == trimmed_start(s@, ascii),
{
    let mut i: usize = 0;
    assert(s@.skip(0) =~= s@);
    while i < s.len() && is_separator(s[i], ascii)
        invariant
            i <= s.len(),
            trimmed_start(s@, ascii) == trimmed_start(s@.skip(i as int), ascii),
        decreases s.len() - i,
    {
        assert(s@.skip(i as int).skip(1) =~= s@.skip(i + 1));
        i = i + 1;
    }
    let rest: &'a [char] = &s[i..s.len()];
    assert(rest@ =~= s@.skip(i as int));
    rest
}

/// `s` without the white space at its end.
pub fn trim_end<'a>(s: &'a [char]) -> (r: &'a [char])
    ensures
        r@ == trimmed_end(s@),
{
    let mut n: usize = s.len();
    assert(s@.take(n as int) =~= s@);
    while n > 0 && is_separator(s[n - 1], false)
        invariant
            n <= s.len(),
            trimmed_end(s@) == trimmed_end(s@.take(n as int)),
        decreases n,
    {
        assert(s@.take(n as int).drop_last() =~= s@.take(n - 1));
        n = n - 1;
    }
    let rest: &'a [char] = &s[0..n];
    assert(rest@ =~= s@.take(n as int));
    rest
}

/// `s` without the white space at its start and at its end.
pub fn trim<'a>(s: &'a [char]) -> (r: &'a [char])
    ensures
        r@ == trimmed(s@),
{
    trim_end(trim_start(s, false))
}

/// `s` without the characters `c` at its end.
pub fn trim_trailing<'a>(s: &'a [char], c: char) -> (r: &'a [char])
    ensures
        r@ == without_trailing(s@, c),
{
    let mut n: usize = s.len();
    assert(s@.take(n as int) =~= s@);
    while n > 0 && s[n - 1] == c
        invariant
            n <= s.len(),
            without_trailing(s@, c) == without_trailing(s@.take(n as int), c),
        decreases n,
    {
        assert(s@.take(n as int).drop_last() =~= s@.take(n - 1));
        n = n - 1;
    }
    let rest: &'a [char] = &s[0..n];
    assert(rest@ =~= s@.take(n as int));
    rest
}

// ---------------------------------------------------------------------------
// Pieces

/// Where `c` first stands in `s`; the length of `s` where it stands nowhere.
pub open spec fn position(s: Seq<char>, c: char) -> int
    decreases s.len(),
{
    if s.len() == 0 || s[0] == c {
        0
    } else {
        1 + position(s.skip(1), c)
    }
}

/// The pieces of `s` between the characters `c`: always one more than there are `c`.
pub open spec fn pieces(s: Seq<char>, c: char) -> Seq<Seq<char>>
    decreases s.len(),
{
    let i = position(s, c);
    if 0 <= i < s.len() {
        seq![s.take(i)] + pieces(s.skip(i + 1), c)
    } else {
        seq![s]
    }
}

/// A line as it stands between line feeds, without the carriage return at its end.
pub open spec fn without_return(s: Seq<char>) -> Seq<char> {
    if s.len() > 0 && s.last() == '\r' {
        s.drop_last()
    } else {
        s
    }
}

/// The lines of `s`. A line ends with a line feed, before which a carriage return
/// may stand; the last line need not end.
pub open spec fn lines_of(s: Seq<char>) -> Seq<Seq<char>>
    decreases s.len(),
{
    let i = position(s, '\n');
    if s.len() == 0 {
        seq![]
    } else if 0 <= i < s.len() {
        seq![without_return(s.take(i))] + lines_of(s.skip(i + 1))
    } else {
        seq![s]
    }
}

/// How many characters stand before the first white space of `s`.
pub open spec fn word_len(s: Seq<char>, ascii: bool) -> int
    decreases s.len(),
{
    if s.len() == 0 || separates(s[0], ascii) {
        0
    } else {
        1 + word_len(s.skip(1), ascii)
    }
}

/// The words of `s`: its longest parts without white space, in their order.
pub open spec fn words_of(s: Seq<char>, ascii: bool) -> Seq<Seq<char>>
    decreases s.len(),
{
    let t = trimmed_start(s, ascii);
    let n = word_len(t, ascii);
    if 0 < n <= t.len() <= s.len() {
        seq![t.take(n)] + words_of(t.skip(n), ascii)
    } else {
        seq![]
    }
}

/// [`position`] is the place before which `c` does not stand and at which it does.
pub proof fn lemma_position(s: Seq<char>, c: char)
    ensures
        0 <= position(s, c) <= s.len(),
        forall|i: int| 0 <= i < position(s, c) ==> s[i] != c,
        position(s, c) < s.len() ==> s[position(s, c)] == c,
    decreases s.len(),
{
    if s.len() > 0 && s[0] != c {
        lemma_position(s.skip(1), c);
        assert forall|i: int| 0 <= i < position(s, c) implies s[i] != c by {
            if i > 0 {
                assert(s[i] == s.skip(1)[i - 1]);
            }
        }
    }
}

/// A place with what [`lemma_position`] says of it is the [`position`].
pub proof fn lemma_position_is(s: Seq<char>, c: char, i: int)
    requires
        0 <= i <= s.len(),
        forall|j: int| 0 <= j < i ==> s[j] != c,
        i < s.len() ==> s[i] == c,
    ensures
        position(s, c) == i,
{
    lemma_position(s, c);
    let p = position(s, c);
    if p < i {
        assert(s[p] != c);
    } else if i < p {
        assert(s[i] != c);
    }
}

/// Whether `c` stands nowhere in `s`.
pub open spec fn lacks(s: Seq<char>, c: char) -> bool {
    forall|i: int| 0 <= i < s.len() ==> s[i] != c
}

/// A text without `c` is one piece.
pub proof fn lemma_one_piece(s: Seq<char>, c: char)
    requires
        lacks(s, c),
    ensures
        pieces(s, c) == seq![s],
{
    lemma_position(s, c);
}

/// The first piece ends at the first `c`.
pub proof fn lemma_first_piece(a: Seq<char>, c: char, rest: Seq<char>)
    requires
        lacks(a, c),
    ensures
        pieces(a.push(c) + rest, c) == seq![a] + pieces(rest, c),
{
    let s = a.push(c) + rest;
    assert(s[a.len() as int] == c);
    assert forall|j: int| 0 <= j < a.len() implies s[j] != c by {
        assert(s[j] == a[j]);
    }
    lemma_position_is(s, c, a.len() as int);
    assert(s.take(a.len() as int) =~= a);
    assert(s.skip(a.len() as int + 1) =~= rest);
}

/// The last piece begins after the last `c`.
pub proof fn lemma_last_piece(s: Seq<char>, c: char, last: Seq<char>)
    requires
        lacks(last, c),
    ensures
        pieces(s.push(c) + last, c) == pieces(s, c).push(last),
    decreases s.len(),
{
    lemma_position(s, c);
    let i = position(s, c);
    if i == s.len() {
        lemma_one_piece(s, c);
        lemma_first_piece(s, c, last);
        lemma_one_piece(last, c);
        assert(pieces(s.push(c) + last, c) =~= pieces(s, c).push(last));
    } else {
        let a = s.take(i);
        let rest = s.skip(i + 1);
        assert(s =~= a.push(c) + rest);
        lemma_last_piece(rest, c, last);
        lemma_first_piece(a, c, rest.push(c) + last);
        assert(s.push(c) + last =~= a.push(c) + (rest.push(c) + last));
        assert(pieces(s.push(c) + last, c) =~= pieces(s, c).push(last));
    }
}

/// Every other character than `c` stands in a piece.
pub proof fn lemma_in_some_piece(s: Seq<char>, c: char, i: int)
    requires
        0 <= i < s.len(),
        s[i] != c,
    ensures
        exists|k: int, j: int|
            0 <= k < pieces(s, c).len() && 0 <= j < pieces(s, c)[k].len()
                && #[trigger] pieces(s, c)[k][j] == s[i],
    decreases s.len(),
{
    lemma_position(s, c);
    let p = position(s, c);
    let all = pieces(s, c);
    if p == s.len() {
        assert(all[0][i] == s[i]);
    } else if i < p {
        assert(all[0] == s.take(p));
        assert(all[0][i] == s[i]);
    } else {
        let rest = s.skip(p + 1);
        assert(rest[i - p - 1] == s[i]);
        lemma_in_some_piece(rest, c, i - p - 1);
        let (k, j) = choose|k: int, j: int|
            0 <= k < pieces(rest, c).len() && 0 <= j < pieces(rest, c)[k].len()
                && #[trigger] pieces(rest, c)[k][j] == s[i];
        assert(all[k + 1] == pieces(rest, c)[k]);
        assert(all[k + 1][j] == s[i]);
    }
}

/// Texts without `c`, joined by `c`, are the pieces between the `c`.
pub proof fn lemma_pieces_of_joined(items: Seq<Seq<char>>, c: char)
    requires
        items.len() > 0,
        forall|i: int| 0 <= i < items.len() ==> lacks(#[trigger] items[i], c),
    ensures
        pieces(joined(items, seq![c]), c) == items,
    decreases items.len(),
{
    if items.len() == 1 {
        lemma_one_piece(items[0], c);
        assert(items =~= seq![items[0]]);
    } else {
        let front = items.drop_last();
        assert forall|i: int| 0 <= i < front.len() implies lacks(#[trigger] front[i], c) by {
            assert(lacks(items[i], c));
        }
        lemma_pieces_of_joined(front, c);
        assert(lacks(items[items.len() - 1], c));
        lemma_last_piece(joined(front, seq![c]), c, items.last());
        assert(joined(items, seq![c]) =~= joined(front, seq![c]).push(c) + items.last());
        assert(items =~= front.push(items.last()));
    }
}

/// What [`trimmed_start`] leaves is the end of `s`.
pub proof fn lemma_trimmed_start(s: Seq<char>, ascii: bool)
    ensures
        trimmed_start(s, ascii).len() <= s.len(),
        trimmed_start(s, ascii) == s.skip(s.len() - trimmed_start(s, ascii).len()),
        trimmed_start(s, ascii).len() > 0 ==> !separates(trimmed_start(s, ascii)[0], ascii),
    decreases s.len(),
{
    if s.len() > 0 && separates(s[0], ascii) {
        lemma_trimmed_start(s.skip(1), ascii);
        let t = trimmed_start(s, ascii);
        assert(s.skip(1).skip(s.skip(1).len() - t.len()) =~= s.skip(s.len() - t.len()));
    } else {
        assert(s.skip(0) =~= s);
    }
}

/// [`word_len`] stays within the text, and no white space stands before it.
pub proof fn lemma_word_len(s: Seq<char>, ascii: bool)
    ensures
        0 <= word_len(s, ascii) <= s.len(),
        s.len() > 0 && !separates(s[0], ascii) ==> word_len(s, ascii) > 0,
        forall|i: int| 0 <= i < word_len(s, ascii) ==> !separates(s[i], ascii),
        word_len(s, ascii) < s.len() ==> separates(s[word_len(s, ascii)], ascii),
    decreases s.len(),
{
    if s.len() > 0 && !separates(s[0], ascii) {
        lemma_word_len(s.skip(1), ascii);
        assert forall|i: int| 0 <= i < word_len(s, ascii) implies !separates(s[i], ascii) by {
            if i > 0 {
                assert(s[i] == s.skip(1)[i - 1]);
            }
        }
    }
}

/// Where `c` first stands in `s`; the length of `s` where it stands nowhere.
pub fn find(s: &[char], c: char) -> (r: usize)
    ensures
        r == position(s@, c),
        r <= s.len(),
{
    let mut i: usize = 0;
    while i < s.len() && s[i] != c
        invariant
            i <= s.len(),
            forall|j: int| 0 <= j < i ==> s@[j] != c,
        decreases s.len() - i,
    {
        i = i + 1;
    }
    proof {
        lemma_position_is(s@, c, i as int);
    }
    i
}

/// The pieces of `s` between the characters `c`.
pub fn split<'a>(s: &'a [char], c: char) -> (r: Vec<&'a [char]>)
    ensures
        slices(r@) == pieces(s@, c),
        r.len() > 0,
{
    let mut out: Vec<&'a [char]> = Vec::new();
    let mut rest: &'a [char] = s;
    assert(slices(out@) + pieces(rest@, c) =~= pieces(s@, c));
    loop
        invariant
            slices(out@) + pieces(rest@, c) == pieces(s@, c),
        decreases rest.len(),
    {
        let ghost before = out@;
        let ghost rest0 = rest@;
        let i: usize = find(rest, c);
        if i == rest.len() {
            out.push(rest);
            assert(slices(out@) =~= slices(before) + seq![rest0]);
            return out;
        }
        let piece: &'a [char] = &rest[0..i];
        out.push(piece);
        rest = &rest[i + 1..rest.len()];
        proof {
            assert(piece@ =~= rest0.take(i as int));
            assert(rest@ =~= rest0.skip(i + 1));
            assert(slices(out@) =~= slices(before) + seq![piece@]);
            assert(slices(out@) + pieces(rest@, c) =~= slices(before) + pieces(rest0, c));
        }
    }
}

/// The lines of `s`.
pub fn lines<'a>(s: &'a [char]) -> (r: Vec<&'a [char]>)
    ensures
        slices(r@) == lines_of(s@),
{
    let mut out: Vec<&'a [char]> = Vec::new();
    let mut rest: &'a [char] = s;
    assert(slices(out@) + lines_of(rest@) =~= lines_of(s@));
    while rest.len() > 0
        invariant
            slices(out@) + lines_of(rest@) == lines_of(s@),
        decreases rest.len(),
    {
        let ghost before = out@;
        let ghost rest0 = rest@;
        let i: usize = find(rest, '\n');
        if i == rest.len() {
            out.push(rest);
            assert(slices(out@) =~= slices(before) + seq![rest0]);
            return out;
        }
        let mut n: usize = i;
        if n > 0 && rest[n - 1] == '\r' {
            n = n - 1;
        }
        let line: &'a [char] = &rest[0..n];
        out.push(line);
        rest = &rest[i + 1..rest.len()];
        proof {
            assert(line@ =~= without_return(rest0.take(i as int)));
            assert(rest@ =~= rest0.skip(i + 1));
            assert(slices(out@) =~= slices(before) + seq![line@]);
            assert(slices(out@) + lines_of(rest@) =~= slices(before) + lines_of(rest0));
        }
    }
    assert(slices(out@) + lines_of(rest@) =~= slices(out@));
    out
}

/// The words of `s`.
pub fn words<'a>(s: &'a [char], ascii: bool) -> (r: Vec<&'a [char]>)
    ensures
        slices(r@) == words_of(s@, ascii),
{
    let mut out: Vec<&'a [char]> = Vec::new();
    let mut rest: &'a [char] = s;
    assert(slices(out@) + words_of(rest@, ascii) =~= words_of(s@, ascii));
    loop
        invariant
            slices(out@) + words_of(rest@, ascii) == words_of(s@, ascii),
        decreases rest.len(),
    {
        let ghost before = out@;
        let ghost rest0 = rest@;
        let text: &'a [char] = trim_start(rest, ascii);
        proof {
            lemma_trimmed_start(rest0, ascii);
            lemma_word_len(text@, ascii);
        }
        if text.len() == 0 {
            assert(slices(out@) + words_of(rest0, ascii) =~= slices(out@));
            return out;
        }
        let mut n: usize = 0;
        assert(text@.skip(0) =~= text@);
        while n < text.len() && !is_separator(text[n], ascii)
            invariant
                n <= text.len(),
                word_len(text@, ascii) == n + word_len(text@.skip(n as int), ascii),
            decreases text.len() - n,
        {
            assert(text@.skip(n as int).skip(1) =~= text@.skip(n + 1));
            n = n + 1;
        }
        let word: &'a [char] = &text[0..n];
        out.push(word);
        rest = &text[n..text.len()];
        proof {
            assert(word@ =~= text@.take(n as int));
            assert(rest@ =~= text@.skip(n as int));
            assert(slices(out@) =~= slices(before) + seq![word@]);
            assert(slices(out@) + words_of(rest@, ascii) =~= slices(before) + words_of(
                rest0,
                ascii,
            ));
        }
    }
}

/// Where the text `w` first stands in `items`; how many there are where it stands nowhere.
pub open spec fn index_of_text(items: Seq<Seq<char>>, w: Seq<char>) -> int
    decreases items.len(),
{
    if items.len() == 0 || items[0] == w {
        0
    } else {
        1 + index_of_text(items.skip(1), w)
    }
}

/// [`index_of_text`] is the place before which `w` does not stand and at which it does.
pub proof fn lemma_index_of_text(items: Seq<Seq<char>>, w: Seq<char>)
    ensures
        0 <= index_of_text(items, w) <= items.len(),
        forall|i: int| 0 <= i < index_of_text(items, w) ==> items[i] != w,
        index_of_text(items, w) < items.len() ==> items[index_of_text(items, w)] == w,
    decreases items.len(),
{
    if items.len() > 0 && items[0] != w {
        lemma_index_of_text(items.skip(1), w);
        assert forall|i: int| 0 <= i < index_of_text(items, w) implies items[i] != w by {
            if i > 0 {
                assert(items[i] == items.skip(1)[i - 1]);
            }
        }
    }
}

/// Where the text `w` first stands in `items`.
pub fn find_text(items: &[&[char]], w: &str) -> (r: usize)
    ensures
        r == index_of_text(slices(items@), w@),
        r <= items.len(),
{
    let w = chars(w);
    let ghost all = slices(items@);
    let mut i: usize = 0;
    assert(all.skip(0) =~= all);
    while i < items.len() && !same(items[i], w.as_slice())
        invariant
            i <= items.len(),
            all == slices(items@),
            index_of_text(all, w@) == i + index_of_text(all.skip(i as int), w@),
        decreases items.len() - i,
    {
        assert(all[i as int] == items@[i as int]@);
        assert(all.skip(i as int).skip(1) =~= all.skip(i + 1));
        i = i + 1;
    }
    if i < items.len() {
        assert(all[i as int] == items@[i as int]@);
        assert(all.skip(i as int)[0] == w@);
    }
    i
}

// ---------------------------------------------------------------------------
// Case

/// ASCII's upper-case letters become lower-case; every other character stays.
pub open spec fn lower(c: char) -> char {
    if 'A' <= c <= 'Z' {
        ((c as u8) + 32) as char
    } else {
        c
    }
}

/// `s` in lower case, as far as ASCII goes.
pub open spec fn lowered(s: Seq<char>) -> Seq<char> {
    s.map_values(|c: char| lower(c))
}

/// `s` in lower case, as far as ASCII goes.
pub fn to_lower(s: &[char]) -> (r: Vec<char>)
    ensures
        r@ == lowered(s@),
{
    let mut out: Vec<char> = Vec::new();
    let mut i: usize = 0;
    while i < s.len()
        invariant
            i <= s.len(),
            out.len() == i,
            forall|j: int| 0 <= j < i ==> out@[j] == lower(s@[j]),
        decreases s.len() - i,
    {
        let c = s[i];
        if 'A' <= c && c <= 'Z' {
            out.push(((c as u8) + 32) as char);
        } else {
            out.push(c);
        }
        i = i + 1;
    }
    assert(out@ =~= lowered(s@));
    out
}

// ---------------------------------------------------------------------------
// Joining and padding

/// `items` one after the other, with `sep` between them.
pub open spec fn joined(items: Seq<Seq<char>>, sep: Seq<char>) -> Seq<char>
    decreases items.len(),
{
    if items.len() == 0 {
        seq![]
    } else if items.len() == 1 {
        items[0]
    } else {
        joined(items.drop_last(), sep) + sep + items.last()
    }
}

/// Appends `items` to `out`, with `sep` between them.
pub fn push_joined(out: &mut String, items: &Vec<String>, sep: &str)
    ensures
        final(out)@ == old(out)@ + joined(texts(items@), sep@),
{
    let mut i: usize = 0;
    assert(out@ =~= old(out)@ + joined(texts(items@).take(0), sep@));
    while i < items.len()
        invariant
            i <= items.len(),
            out@ == old(out)@ + joined(texts(items@).take(i as int), sep@),
        decreases items.len() - i,
    {
        let ghost t = texts(items@);
        if i > 0 {
            out.append(sep);
        }
        out.append(items[i].as_str());
        proof {
            let whole = t.take(i + 1);
            assert(whole.drop_last() =~= t.take(i as int));
            assert(whole.last() == items@[i as int]@);
            if i == 0 {
                assert(t.take(0) =~= seq![]);
            }
            assert(out@ =~= old(out)@ + joined(whole, sep@));
        }
        i = i + 1;
    }
    assert(texts(items@).take(i as int) =~= texts(items@));
}

/// `n` spaces.
pub open spec fn spaces(n: nat) -> Seq<char> {
    Seq::new(n, |i: int| ' ')
}

/// `s`, filled with spaces on the right up to `width` characters.
pub open spec fn padded(s: Seq<char>, width: nat) -> Seq<char> {
    if s.len() < width {
        s + spaces((width - s.len()) as nat)
    } else {
        s
    }
}

/// Appends `s` to `out`, filled with spaces on the right up to `width` characters.
pub fn push_padded(out: &mut String, s: &str, width: usize)
    ensures
        final(out)@ == old(out)@ + padded(s@, width as nat),
{
    out.append(s);
    let len: usize = chars(s).len();
    let ghost start = out@;
    let mut n: usize = len;
    assert(out@ =~= start + spaces(0));
    while n < width
        invariant
            len <= n,
            n <= width || n == len,
            out@ == start + spaces((n - len) as nat),
        decreases width - n,
    {
        out.push(' ');
        n = n + 1;
        assert(out@ =~= start + spaces((n - len) as nat));
    }
    assert(out@ =~= old(out)@ + padded(s@, width as nat));
}

// ---------------------------------------------------------------------------
// Whole numbers

/// The digit for `d`, in hexadecimal where it is above nine.
pub open spec fn digit(d: nat) -> char {
    if d < 10 {
        ('0' as u8 + d) as u8 as char
    } else {
        ('a' as u8 + (d - 10)) as u8 as char
    }
}

/// The value of a digit in `base`, which is at most 16; `None` for other characters.
pub open spec fn digit_value(c: char, base: nat) -> Option<nat> {
    let v = if '0' <= c <= '9' {
        (c as int - '0' as int) as nat
    } else if 'a' <= c <= 'f' {
        (c as int - 'a' as int + 10) as nat
    } else if 'A' <= c <= 'F' {
        (c as int - 'A' as int + 10) as nat
    } else {
        16
    };
    if v < base {
        Some(v)
    } else {
        None
    }
}

/// Whether every character of `s` is a digit in `base`.
pub open spec fn all_digits(s: Seq<char>, base: nat) -> bool {
    forall|i: int| 0 <= i < s.len() ==> #[trigger] digit_value(s[i], base) is Some
}

/// The number that the digits `s` stand for in `base`.
pub open spec fn number(s: Seq<char>, base: nat) -> nat
    decreases s.len(),
{
    if s.len() == 0 {
        0
    } else {
        number(s.drop_last(), base) * base + digit_value(s.last(), base).unwrap_or(0)
    }
}

/// `n` in `base` (10 or 16), without leading zeros.
pub open spec fn numeral(n: nat, base: nat) -> Seq<char>
    decreases n,
{
    if n < base || base < 2 {
        seq![digit(n)]
    } else {
        proof {
            assert(n / base < n) by (nonlinear_arith)
                requires
                    n >= base,
                    base >= 2,
            ;
        }
        numeral(n / base, base).push(digit(n % base))
    }
}

/// `n` in decimal notation.
pub open spec fn decimal(n: nat) -> Seq<char> {
    numeral(n, 10)
}

/// What is wrong with a text that is no whole number within bounds.
#[derive(Clone, Copy, Debug, PartialEq, Eq, Structural)]
pub enum ParseIntError {
    /// Nothing is there.
    Empty,
    /// A character is no digit.
    InvalidDigit,
    /// The number is above the bound.
    PosOverflow,
}

impl ParseIntError {
    /// The error in words.
    pub open spec fn text(self) -> Seq<char> {
        match self {
            ParseIntError::Empty => "cannot parse integer from empty string"@,
            ParseIntError::InvalidDigit => "invalid digit found in string"@,
            ParseIntError::PosOverflow => "number too large to fit in target type"@,
        }
    }

    /// The error in words.
    pub fn message(&self) -> (r: String)
        ensures
            r@ == self.text(),
    {
        match self {
            ParseIntError::Empty => "cannot parse integer from empty string".to_owned(),
            ParseIntError::InvalidDigit => "invalid digit found in string".to_owned(),
            ParseIntError::PosOverflow => "number too large to fit in target type".to_owned(),
        }
    }
}

/// How many decimal digits stand at the start of `s`.
pub open spec fn digits_len(s: Seq<char>) -> int
    decreases s.len(),
{
    if s.len() == 0 || digit_value(s[0], 10) is None {
        0
    } else {
        1 + digits_len(s.skip(1))
    }
}

/// The digits of a whole number: all of it, or what follows one leading `+`.
pub open spec fn unsigned(s: Seq<char>) -> Seq<char> {
    if s.len() > 1 && s[0] == '+' {
        s.skip(1)
    } else {
        s
    }
}

/// Reads a whole number that is at most `max`. The error is the first that a reader
/// meets who goes from left to right.
pub open spec fn whole_number(s: Seq<char>, max: nat) -> Result<nat, ParseIntError> {
    let body = unsigned(s);
    let n = digits_len(body);
    if s.len() == 0 {
        Err(ParseIntError::Empty)
    } else if number(body.take(n), 10) > max {
        Err(ParseIntError::PosOverflow)
    } else if n < body.len() {
        Err(ParseIntError::InvalidDigit)
    } else {
        Ok(number(body, 10))
    }
}

/// [`digits_len`] stays within the text.
pub proof fn lemma_digits_len(s: Seq<char>)
    ensures
        0 <= digits_len(s) <= s.len(),
        forall|i: int| 0 <= i < digits_len(s) ==> #[trigger] digit_value(s[i], 10) is Some,
        digits_len(s) < s.len() ==> digit_value(s[digits_len(s)], 10) is None,
    decreases s.len(),
{
    if s.len() > 0 && digit_value(s[0], 10) is Some {
        lemma_digits_len(s.skip(1));
        assert forall|i: int| 0 <= i < digits_len(s) implies #[trigger] digit_value(
            s[i],
            10,
        ) is Some by {
            if i > 0 {
                assert(s[i] == s.skip(1)[i - 1]);
            }
        }
    }
}

/// More digits never make a smaller number.
pub proof fn lemma_number_grows(s: Seq<char>, i: int, base: nat)
    requires
        0 <= i <= s.len(),
        base >= 1,
    ensures
        number(s.take(i), base) <= number(s, base),
    decreases s.len(),
{
    if i == s.len() {
        assert(s.take(i) =~= s);
    } else {
        lemma_number_grows(s.drop_last(), i, base);
        assert(s.drop_last().take(i) =~= s.take(i));
        let n = number(s.drop_last(), base);
        assert(n <= n * base) by (nonlinear_arith)
            requires
                base >= 1,
        ;
    }
}

/// The value of a digit, where `c` is one in `base`.
pub fn digit_of(c: char, base: u32) -> (r: Option<u32>)
    requires
        base <= 16,
    ensures
        match r {
            Some(v) => digit_value(c, base as nat) == Some(v as nat),
            None => digit_value(c, base as nat) is None,
        },
{
    let v: u32 = if '0' <= c && c <= '9' {
        (c as u32) - ('0' as u32)
    } else if 'a' <= c && c <= 'f' {
        (c as u32) - ('a' as u32) + 10
    } else if 'A' <= c && c <= 'F' {
        (c as u32) - ('A' as u32) + 10
    } else {
        16
    };
    if v < base {
        Some(v)
    } else {
        None
    }
}

/// Reads a whole number that is at most `max`.
pub fn parse_uint(s: &[char], max: u32) -> (r: Result<u32, ParseIntError>)
    ensures
        match r {
            Ok(n) => n <= max && whole_number(s@, max as nat) == Ok::<nat, ParseIntError>(n as nat),
            Err(e) => whole_number(s@, max as nat) == Err::<nat, ParseIntError>(e),
        },
{
    if s.len() == 0 {
        return Err(ParseIntError::Empty);
    }
    let start: usize = if s.len() > 1 && s[0] == '+' {
        1
    } else {
        0
    };
    let body: &[char] = &s[start..s.len()];
    let mut i: usize = 0;
    let mut n: u64 = 0;
    proof {
        assert(body@ =~= unsigned(s@));
        assert(body@.skip(0) =~= body@);
        lemma_digits_len(body@);
    }
    while i < body.len()
        invariant
            i <= body.len(),
            s@.len() > 0,
            body@ == unsigned(s@),
            i <= digits_len(body@) <= body@.len(),
            digits_len(body@) < body@.len() ==> digit_value(
                body@[digits_len(body@)],
                10,
            ) is None,
            forall|j: int|
                0 <= j < digits_len(body@) ==> #[trigger] digit_value(body@[j], 10) is Some,
            n == number(body@.take(i as int), 10),
            n <= max,
        decreases body.len() - i,
    {
        match digit_of(body[i], 10) {
            None => {
                assert(i == digits_len(body@));
                return Err(ParseIntError::InvalidDigit);
            },
            Some(d) => {
                assert(i < digits_len(body@));
                n = n * 10 + d as u64;
                proof {
                    assert(body@.take(i + 1).drop_last() =~= body@.take(i as int));
                    assert(n == number(body@.take(i + 1), 10));
                }
                if n > max as u64 {
                    proof {
                        let all = body@.take(digits_len(body@));
                        lemma_number_grows(all, i + 1, 10);
                        assert(all.take(i + 1) =~= body@.take(i + 1));
                    }
                    return Err(ParseIntError::PosOverflow);
                }
            },
        }
        i = i + 1;
    }
    assert(body@.take(i as int) =~= body@);
    Ok(n as u32)
}

/// Appends the numeral of `n` in `base` to `out`.
pub fn push_numeral(out: &mut String, n: u64, base: u64)
    requires
        2 <= base <= 16,
    ensures
        final(out)@ == old(out)@ + numeral(n as nat, base as nat),
    decreases n,
{
    let ghost start = out@;
    if n >= base {
        assert(n / base < n) by (nonlinear_arith)
            requires
                n >= base,
                base >= 2,
        ;
        push_numeral(out, n / base, base);
    }
    let d: u64 = n % base;
    let c: char = if d < 10 {
        ('0' as u8 + d as u8) as char
    } else {
        ('a' as u8 + (d - 10) as u8) as char
    };
    proof {
        if n < base {
            vstd::arithmetic::div_mod::lemma_small_mod(n as nat, base as nat);
        }
        assert(c == digit(d as nat));
    }
    out.push(c);
    assert(out@ =~= start + numeral(n as nat, base as nat));
}

/// Appends `n` in decimal notation to `out`.
pub fn push_decimal(out: &mut String, n: u64)
    ensures
        final(out)@ == old(out)@ + decimal(n as nat),
{
    push_numeral(out, n, 10);
}

/// A digit stands for what it was made from.
pub proof fn lemma_digit(d: nat, base: nat)
    requires
        d < base <= 16,
    ensures
        digit_value(digit(d), base) == Some(d),
{
}

/// A numeral is made of digits, and stands for the number that it was made from.
pub proof fn lemma_numeral(n: nat, base: nat)
    requires
        2 <= base <= 16,
    ensures
        numeral(n, base).len() > 0,
        all_digits(numeral(n, base), base),
        number(numeral(n, base), base) == n,
        numeral(n, base)[0] == digit(0) ==> n == 0,
    decreases n,
{
    let s = numeral(n, base);
    if n < base {
        lemma_digit(n, base);
        assert(s.drop_last() =~= seq![]);
        assert(number(s.drop_last(), base) == 0);
        if n != 0 {
            lemma_digit(0, base);
        }
    } else {
        let q = n / base;
        let d = n % base;
        assert(q < n && q > 0 && q * base + d == n && d < base) by (nonlinear_arith)
            requires
                n >= base,
                base >= 2,
                q == n / base,
                d == n % base,
        ;
        lemma_numeral(q, base);
        lemma_digit(d, base);
        assert(s.drop_last() =~= numeral(q, base));
        assert(s[0] == numeral(q, base)[0]);
        assert forall|i: int| 0 <= i < s.len() implies #[trigger] digit_value(
            s[i],
            base,
        ) is Some by {
            if i < s.len() - 1 {
                assert(s[i] == numeral(q, base)[i]);
            }
        }
    }
}

/// A decimal numeral reads as the number that it was made from.
pub proof fn lemma_decimal_reads_back(n: nat, max: nat)
    ensures
        whole_number(decimal(n), max) == if n <= max {
            Ok::<nat, ParseIntError>(n)
        } else {
            Err::<nat, ParseIntError>(ParseIntError::PosOverflow)
        },
{
    let s = decimal(n);
    lemma_numeral(n, 10);
    assert(digit_value(s[0], 10) is Some);
    assert(unsigned(s) == s);
    lemma_digits_len(s);
    if digits_len(s) < s.len() {
        assert(digit_value(s[digits_len(s)], 10) is Some);
    }
    assert(s.take(s.len() as int) =~= s);
}

// ---------------------------------------------------------------------------
// Laws

/// A text begins with another one if it is that one and something behind it, and the latter is
/// what follows.
pub proof fn what_follows_a_beginning(s: Seq<char>, p: Seq<char>, rest: Seq<char>)
    ensures
        begins(s, p) <==> exists|x: Seq<char>| s == #[trigger] (p + x),
        after(s, p) == Some(rest) <==> s == p + rest,
        after(s, p) is None <==> !begins(s, p),
{
    if begins(s, p) {
        assert(s =~= p + s.skip(p.len() as int));
    }
    if exists|x: Seq<char>| s == #[trigger] (p + x) {
        let x = choose|x: Seq<char>| s == #[trigger] (p + x);
        assert(s.take(p.len() as int) =~= p);
    }
    if s == p + rest {
        assert(s.take(p.len() as int) =~= p);
        assert(s.skip(p.len() as int) =~= rest);
    }
}

/// A text ends with another one if it is something and that one behind it.
pub proof fn what_stands_before_an_end(s: Seq<char>, p: Seq<char>)
    ensures
        ends(s, p) <==> exists|x: Seq<char>| s == #[trigger] (x + p),
{
    if ends(s, p) {
        assert(s =~= s.take(s.len() - p.len()) + p);
    }
    if exists|x: Seq<char>| s == #[trigger] (x + p) {
        let x = choose|x: Seq<char>| s == #[trigger] (x + p);
        assert(s.skip(s.len() - p.len()) =~= p);
    }
}

/// Whether a text stands in another one, between two others.
pub open spec fn stands_between(s: Seq<char>, a: Seq<char>, p: Seq<char>, b: Seq<char>) -> bool {
    s == a + p + b
}

/// A text occurs in another one if the latter is that one between two others.
pub proof fn what_occurs_stands_between(s: Seq<char>, p: Seq<char>)
    ensures
        occurs(s, p) <==> exists|a: Seq<char>, b: Seq<char>| stands_between(s, a, p, b),
{
    if occurs(s, p) {
        let i = choose|i: int|
            0 <= i <= s.len() - p.len() && #[trigger] s.subrange(i, i + p.len()) == p;
        assert(s =~= s.take(i) + p + s.skip(i + p.len()));
        assert(stands_between(s, s.take(i), p, s.skip(i + p.len())));
    }
    if exists|a: Seq<char>, b: Seq<char>| stands_between(s, a, p, b) {
        let (a, b) = choose|a: Seq<char>, b: Seq<char>| stands_between(s, a, p, b);
        let i = a.len() as int;
        assert(s.subrange(i, i + p.len()) =~= p);
    }
}

/// The characters that separate words, by their numbers.
pub proof fn white_space_by_number(c: char)
    ensures
        separates(c, true) <==> (c as int == 9 || c as int == 10 || c as int == 12 || c as int == 13
            || c as int == 32),
        separates(c, false) <==> (9 <= c as int <= 13 || c as int == 32 || c as int == 0x85
            || c as int == 0xa0 || c as int == 0x1680 || 0x2000 <= c as int <= 0x200a || c as int
            == 0x2028 || c as int == 0x2029 || c as int == 0x202f || c as int == 0x205f || c as int
            == 0x3000),
        is_space(c) == separates(c, false),
{
}

/// Whether a text is white space alone.
pub open spec fn blank(s: Seq<char>, ascii: bool) -> bool {
    forall|i: int| 0 <= i < s.len() ==> separates(#[trigger] s[i], ascii)
}

/// Whether no white space stands in a text.
pub open spec fn solid(s: Seq<char>, ascii: bool) -> bool {
    forall|i: int| 0 <= i < s.len() ==> !separates(#[trigger] s[i], ascii)
}

/// White space before a text that does not begin with it is what is taken off its start.
pub proof fn blanks_go_from_the_start(a: Seq<char>, t: Seq<char>, ascii: bool)
    requires
        blank(a, ascii),
        t.len() > 0 ==> !separates(t[0], ascii),
    ensures
        trimmed_start(a + t, ascii) == t,
    decreases a.len(),
{
    if a.len() == 0 {
        assert(a + t =~= t);
    } else {
        let rest = a.skip(1);
        assert forall|i: int| 0 <= i < rest.len() implies separates(#[trigger] rest[i], ascii) by {
            assert(rest[i] == a[i + 1]);
        }
        assert((a + t)[0] == a[0]);
        assert((a + t).skip(1) =~= rest + t);
        blanks_go_from_the_start(rest, t, ascii);
    }
}

/// White space behind a text that does not end with it is what is taken off its end.
pub proof fn blanks_go_from_the_end(t: Seq<char>, b: Seq<char>)
    requires
        blank(b, false),
        t.len() > 0 ==> !separates(t.last(), false),
    ensures
        trimmed_end(t + b) == t,
    decreases b.len(),
{
    if b.len() == 0 {
        assert(t + b =~= t);
    } else {
        let rest = b.drop_last();
        assert forall|i: int| 0 <= i < rest.len() implies separates(#[trigger] rest[i], false) by {
            assert(rest[i] == b[i]);
        }
        assert((t + b).last() == b[b.len() - 1]);
        assert((t + b).drop_last() =~= t + rest);
        blanks_go_from_the_end(t, rest);
    }
}

/// White space around a text that neither begins nor ends with it is what is taken off.
pub proof fn blanks_go_from_both_ends(a: Seq<char>, t: Seq<char>, b: Seq<char>)
    requires
        blank(a, false),
        blank(b, false),
        t.len() > 0 ==> !separates(t[0], false) && !separates(t.last(), false),
    ensures
        trimmed(a + t + b) == t,
{
    if t.len() == 0 {
        let ab = a + b;
        assert forall|i: int| 0 <= i < ab.len() implies separates(#[trigger] ab[i], false) by {
            if i < a.len() {
                assert(ab[i] == a[i]);
            } else {
                assert(ab[i] == b[i - a.len()]);
            }
        }
        assert(a + t + b =~= ab + t);
        blanks_go_from_the_start(ab, t, false);
        assert(trimmed_end(t) == t);
    } else {
        let tb = t + b;
        assert(tb[0] == t[0]);
        assert(a + t + b =~= a + tb);
        blanks_go_from_the_start(a, tb, false);
        blanks_go_from_the_end(t, b);
    }
}

/// All of a character at the end of a text is taken off, and nothing before it.
pub proof fn trailing_characters_go(t: Seq<char>, b: Seq<char>, c: char)
    requires
        forall|i: int| 0 <= i < b.len() ==> #[trigger] b[i] == c,
        t.len() > 0 ==> t.last() != c,
    ensures
        without_trailing(t + b, c) == t,
    decreases b.len(),
{
    if b.len() == 0 {
        assert(t + b =~= t);
    } else {
        let rest = b.drop_last();
        assert forall|i: int| 0 <= i < rest.len() implies #[trigger] rest[i] == c by {
            assert(rest[i] == b[i]);
        }
        assert((t + b).last() == b[b.len() - 1]);
        assert((t + b).drop_last() =~= t + rest);
        trailing_characters_go(t, rest, c);
    }
}

/// The pieces, with the character between them, make up the text; the character stands in none
/// of them.
pub proof fn pieces_make_up_the_text(s: Seq<char>, c: char)
    ensures
        pieces(s, c).len() > 0,
        joined(pieces(s, c), seq![c]) == s,
        forall|i: int| 0 <= i < pieces(s, c).len() ==> lacks(#[trigger] pieces(s, c)[i], c),
    decreases s.len(),
{
    lemma_position(s, c);
    let i = position(s, c);
    let all = pieces(s, c);
    if i < s.len() {
        let (first, rest) = (s.take(i), s.skip(i + 1));
        let others = pieces(rest, c);
        pieces_make_up_the_text(rest, c);
        assert(lacks(first, c));
        joined_parts_are_joined(seq![first], others, seq![c]);
        assert(joined(seq![first], seq![c]) == first);
        assert(s =~= first + seq![c] + rest);
        assert forall|k: int| 0 <= k < all.len() implies lacks(#[trigger] all[k], c) by {
            if k > 0 {
                assert(all[k] == others[k - 1]);
            }
        }
    } else {
        assert(all =~= seq![s]);
        assert(joined(all, seq![c]) == s);
    }
}

/// Two lists that are joined one after the other are joined as one.
pub proof fn joined_parts_are_joined(a: Seq<Seq<char>>, b: Seq<Seq<char>>, sep: Seq<char>)
    requires
        a.len() > 0,
        b.len() > 0,
    ensures
        joined(a + b, sep) == joined(a, sep) + sep + joined(b, sep),
    decreases b.len(),
{
    let all = a + b;
    if b.len() == 1 {
        assert(all.drop_last() =~= a);
        assert(all.last() == b[0]);
    } else {
        joined_parts_are_joined(a, b.drop_last(), sep);
        assert(all.drop_last() =~= a + b.drop_last());
        assert(joined(all, sep) =~= joined(a, sep) + sep + joined(b, sep));
    }
}

/// Nothing joined is nothing, and one text joined is that text.
pub proof fn a_single_text_is_joined_as_it_is(x: Seq<char>, sep: Seq<char>)
    ensures
        joined(seq![], sep) == Seq::<char>::empty(),
        joined(seq![x], sep) == x,
{
}

/// A line ends at its line feed. The carriage return before it is not part of the line.
pub proof fn a_line_ends_at_its_line_feed(a: Seq<char>, rest: Seq<char>)
    requires
        lacks(a, '\n'),
    ensures
        lines_of(a.push('\n') + rest) == seq![
            if a.len() > 0 && a[a.len() - 1] == '\r' {
                a.take(a.len() - 1)
            } else {
                a
            },
        ] + lines_of(rest),
{
    let s = a.push('\n') + rest;
    assert(s[a.len() as int] == '\n');
    assert forall|j: int| 0 <= j < a.len() implies s[j] != '\n' by {
        assert(s[j] == a[j]);
    }
    lemma_position_is(s, '\n', a.len() as int);
    assert(s.take(a.len() as int) =~= a);
    assert(s.skip(a.len() as int + 1) =~= rest);
    if a.len() > 0 {
        assert(a.drop_last() =~= a.take(a.len() - 1));
    }
}

/// The last line need not end; where nothing stands behind the last line feed there is none.
pub proof fn the_last_line_need_not_end(a: Seq<char>)
    requires
        lacks(a, '\n'),
    ensures
        lines_of(a) == if a.len() == 0 {
            seq![]
        } else {
            seq![a]
        },
{
    lemma_position(a, '\n');
}

/// The first word is what stands between the white space at the start and the next white space.
pub proof fn words_stand_between_white_space(
    a: Seq<char>,
    w: Seq<char>,
    rest: Seq<char>,
    ascii: bool,
)
    requires
        blank(a, ascii),
        w.len() > 0,
        solid(w, ascii),
        rest.len() > 0 ==> separates(rest[0], ascii),
    ensures
        words_of(a + w + rest, ascii) == seq![w] + words_of(rest, ascii),
{
    let t = w + rest;
    assert(t[0] == w[0]);
    assert(a + w + rest =~= a + t);
    blanks_go_from_the_start(a, t, ascii);
    lemma_word_len(t, ascii);
    let n = word_len(t, ascii);
    if n < w.len() {
        assert(t[n] == w[n]);
    } else if n > w.len() {
        assert(t[w.len() as int] == rest[0]);
    }
    assert(t.take(n) =~= w);
    assert(t.skip(n) =~= rest);
}

/// White space has no words in it.
pub proof fn white_space_has_no_words(a: Seq<char>, ascii: bool)
    requires
        blank(a, ascii),
    ensures
        words_of(a, ascii) == Seq::<Seq<char>>::empty(),
{
    let none: Seq<char> = seq![];
    assert(a + none =~= a);
    blanks_go_from_the_start(a, none, ascii);
}

/// Letters of ASCII become lower-case, by their numbers; no other character changes, and none
/// comes or goes.
pub proof fn lower_case_by_number(s: Seq<char>, i: int)
    requires
        0 <= i < s.len(),
    ensures
        lowered(s).len() == s.len(),
        lowered(s)[i] as int == if 65 <= s[i] as int <= 90 {
            s[i] as int + 32
        } else {
            s[i] as int
        },
{
}

/// A text that is filled up is as long as asked for, or as long as it was; it begins with what it
/// was, and spaces follow.
pub proof fn padding_is_spaces_on_the_right(s: Seq<char>, width: nat)
    ensures
        padded(s, width).len() == if s.len() < width {
            width
        } else {
            s.len()
        },
        padded(s, width).take(s.len() as int) == s,
        forall|i: int| s.len() <= i < padded(s, width).len() ==> padded(s, width)[i] == ' ',
{
    assert(padded(s, width).take(s.len() as int) =~= s);
}

/// The value of a digit, by the number of its character.
pub proof fn digits_by_number(c: char, base: nat)
    requires
        base == 10 || base == 16,
    ensures
        digit_value(c, base) == if 48 <= c as int <= 57 {
            Some((c as int - 48) as nat)
        } else if base == 16 && 97 <= c as int <= 102 {
            Some((c as int - 87) as nat)
        } else if base == 16 && 65 <= c as int <= 70 {
            Some((c as int - 55) as nat)
        } else {
            None
        },
{
}

/// One more digit multiplies a number by the base, and counts for itself.
pub proof fn one_more_digit(s: Seq<char>, c: char, base: nat)
    ensures
        number(seq![], base) == 0,
        number(s.push(c), base) == number(s, base) * base + digit_value(c, base).unwrap_or(0),
{
    assert(s.push(c).drop_last() =~= s);
}

/// Decimal digits without a superfluous zero are the numeral of the number that they stand for.
pub proof fn decimal_digits_are_a_numeral(s: Seq<char>)
    requires
        s.len() > 0,
        all_digits(s, 10),
        s[0] == '0' ==> s.len() == 1,
    ensures
        decimal(number(s, 10)) == s,
        s[0] != '0' ==> number(s, 10) > 0,
    decreases s.len(),
{
    let front = s.drop_last();
    let last = s[s.len() - 1];
    assert(digit_value(s[s.len() - 1], 10) is Some);
    let d = digit_value(last, 10)->0;
    assert(digit(d) == last);
    if s.len() == 1 {
        assert(number(front, 10) == 0);
        assert(s =~= seq![last]);
    } else {
        assert(front[0] == s[0]);
        assert forall|i: int| 0 <= i < front.len() implies #[trigger] digit_value(
            front[i],
            10,
        ) is Some by {
            assert(digit_value(s[i], 10) is Some);
        }
        decimal_digits_are_a_numeral(front);
        let n = number(front, 10);
        assert(number(s, 10) == n * 10 + d);
        assert((n * 10 + d) / 10 == n);
        assert((n * 10 + d) % 10 == d);
        assert(decimal(number(s, 10)) =~= front.push(last));
        assert(front.push(last) =~= s);
    }
}

/// Which texts read as which number: digits, before which one plus may stand, whose number is
/// within the bound. An empty text is told apart from one that is not.
pub proof fn whole_numbers_are_digits(s: Seq<char>, max: nat, n: nat)
    ensures
        ({
            let body = if s.len() > 1 && s[0] == '+' {
                s.skip(1)
            } else {
                s
            };
            &&& whole_number(s, max) == Ok::<nat, ParseIntError>(n) <==> s.len() > 0
                && all_digits(body, 10) && number(body, 10) == n && n <= max
            &&& whole_number(s, max) == Err::<nat, ParseIntError>(ParseIntError::Empty)
                <==> s.len() == 0
            &&& s.len() > 0 && all_digits(body, 10) && number(body, 10) > max ==> whole_number(
                s,
                max,
            ) == Err::<nat, ParseIntError>(ParseIntError::PosOverflow)
            &&& s.len() > 0 && digit_value(body[0], 10) is None ==> whole_number(s, max) == Err::<
                nat,
                ParseIntError,
            >(ParseIntError::InvalidDigit)
        }),
{
    let body = unsigned(s);
    lemma_digits_len(body);
    let k = digits_len(body);
    if all_digits(body, 10) && k < body.len() {
        assert(digit_value(body[k], 10) is Some);
    }
    if k == body.len() {
        assert(body.take(k) =~= body);
    }
    if s.len() > 0 && digit_value(body[0], 10) is None {
        assert(k == 0);
        assert(body.take(0) =~= seq![]);
    }
}

/// Whether a text shows another one: the latter stands in it between two others.
pub open spec fn shows(s: Seq<char>, t: Seq<char>) -> bool {
    exists|a: Seq<char>, b: Seq<char>| stands_between(s, a, t, b)
}

/// A text shows what stands in it.
pub proof fn a_text_shows_its_parts(a: Seq<char>, t: Seq<char>, b: Seq<char>)
    ensures
        shows(a + t + b, t),
        shows(a + t, t),
        shows(t + b, t),
        shows(t, t),
{
    let none: Seq<char> = seq![];
    assert(stands_between(a + t + b, a, t, b));
    assert(a + t =~= a + t + none);
    assert(stands_between(a + t, a, t, none));
    assert(t + b =~= none + t + b);
    assert(stands_between(t + b, none, t, b));
    assert(t =~= none + t + none);
    assert(stands_between(t, none, t, none));
}

/// What a part of a text shows, the text shows.
pub proof fn a_text_shows_what_its_parts_show(s: Seq<char>, t: Seq<char>, u: Seq<char>)
    requires
        shows(s, t),
        shows(t, u),
    ensures
        shows(s, u),
{
    let (a, b) = choose|a: Seq<char>, b: Seq<char>| stands_between(s, a, t, b);
    let (c, d) = choose|c: Seq<char>, d: Seq<char>| stands_between(t, c, u, d);
    assert(s =~= (a + c) + u + (d + b));
    assert(stands_between(s, a + c, u, d + b));
}

/// The numeral of a number below the base is one digit: from 0 to 9, and then small letters from
/// a on. That of another number is the numeral of the number without its last digit, and then
/// that digit.
pub proof fn numerals_grow_digit_by_digit(n: nat, d: nat, base: nat)
    requires
        2 <= base <= 16,
        d < base,
    ensures
        numeral(d, base).len() == 1,
        numeral(d, base)[0] as int == if d < 10 {
            48 + d
        } else {
            87 + d
        },
        n > 0 ==> numeral(n * base + d, base) == numeral(n, base) + numeral(d, base),
{
    if n > 0 {
        let m = n * base + d;
        assert(m / base == n && m % base == d && m >= base) by (nonlinear_arith)
            requires
                m == n * base + d,
                d < base,
                n > 0,
        ;
        assert(numeral(m, base) =~= numeral(n, base) + numeral(d, base));
    }
}

/// Texts that are no number are refused in these words.
pub proof fn other_texts_are_refused_in_words(e: ParseIntError)
    ensures
        e == ParseIntError::Empty ==> e.text() == "cannot parse integer from empty string"@,
        e == ParseIntError::InvalidDigit ==> e.text() == "invalid digit found in string"@,
        e == ParseIntError::PosOverflow ==> e.text() == "number too large to fit in target type"@,
{
}

} // verus!
