//! Text as sequences of characters: trimming, lines, words, cells and
//! substring search, with the meaning that `str` gives to each of them.

use vstd::prelude::*;
use vstd::string::*;

verus! {

// ─── Model ───────────────────────────────────────────────────────────────────

/// The characters with the Unicode property `White_Space`.
pub open spec fn is_white(c: char) -> bool {
    ||| '\u{9}' <= c <= '\u{d}'
    ||| c == ' '
    ||| c == '\u{85}'
    ||| c == '\u{a0}'
    ||| c == '\u{1680}'
    ||| '\u{2000}' <= c <= '\u{200a}'
    ||| c == '\u{2028}'
    ||| c == '\u{2029}'
    ||| c == '\u{202f}'
    ||| c == '\u{205f}'
    ||| c == '\u{3000}'
}

/// The ASCII digits `0` to `9`.
pub open spec fn is_digit(c: char) -> bool {
    '0' <= c <= '9'
}

/// `s` without its leading white space.
pub open spec fn trim_start(s: Seq<char>) -> Seq<char>
    decreases s.len(),
{
    if s.len() > 0 && is_white(s[0]) {
        trim_start(s.skip(1))
    } else {
        s
    }
}

/// `s` without its trailing white space.
pub open spec fn trim_end(s: Seq<char>) -> Seq<char>
    decreases s.len(),
{
    if s.len() > 0 && is_white(s.last()) {
        trim_end(s.drop_last())
    } else {
        s
    }
}

/// `s` without leading and trailing white space.
pub open spec fn trimmed(s: Seq<char>) -> Seq<char> {
    trim_end(trim_start(s))
}

/// `s` without the characters `c` at its end.
pub open spec fn trim_end_char(s: Seq<char>, c: char) -> Seq<char>
    decreases s.len(),
{
    if s.len() > 0 && s.last() == c {
        trim_end_char(s.drop_last(), c)
    } else {
        s
    }
}

/// How many characters precede the first `c` in `s` (all of them if there is none).
pub open spec fn before(s: Seq<char>, c: char) -> nat
    decreases s.len(),
{
    if s.len() == 0 || s[0] == c {
        0
    } else {
        1 + before(s.skip(1), c)
    }
}

/// The pieces of `s` between the separators `c`; there is always at least one.
pub open spec fn cells(s: Seq<char>, c: char) -> Seq<Seq<char>>
    decreases s.len(),
{
    let n = before(s, c);
    if n >= s.len() {
        seq![s]
    } else {
        seq![s.take(n as int)] + cells(s.skip(n as int + 1), c)
    }
}

/// The pieces of `s` between the separators `c`, each without the white space around it.
pub open spec fn trimmed_cells(s: Seq<char>, c: char) -> Seq<Seq<char>> {
    Seq::new(cells(s, c).len(), |i: int| trimmed(cells(s, c)[i]))
}

/// `s` without one carriage return at its end.
pub open spec fn without_cr(s: Seq<char>) -> Seq<char> {
    if s.len() > 0 && s.last() == '\r' {
        s.drop_last()
    } else {
        s
    }
}

/// The lines of `s`: each ends with a line feed, or a carriage return and a
/// line feed, which are not part of it; the last one may lack the ending.
pub open spec fn lines(s: Seq<char>) -> Seq<Seq<char>>
    decreases s.len(),
{
    let n = before(s, '\n');
    if s.len() == 0 {
        seq![]
    } else if n >= s.len() {
        seq![s]
    } else {
        seq![without_cr(s.take(n as int))] + lines(s.skip(n as int + 1))
    }
}

/// How many characters precede the first white space in `s`.
pub open spec fn word_len(s: Seq<char>) -> nat
    decreases s.len(),
{
    if s.len() == 0 || is_white(s[0]) {
        0
    } else {
        1 + word_len(s.skip(1))
    }
}

/// The maximal runs of characters of `s` that are not white space.
pub open spec fn words(s: Seq<char>) -> Seq<Seq<char>>
    decreases s.len(),
    via words_decreases
{
    if s.len() == 0 {
        seq![]
    } else if is_white(s[0]) {
        words(s.skip(1))
    } else {
        let n = word_len(s);
        seq![s.take(n as int)] + words(s.skip(n as int))
    }
}

#[via_fn]
proof fn words_decreases(s: Seq<char>) {
    lemma_word_len(s);
}

/// A word is no longer than the text, is free of white space, and ends where
/// the text or the word does.
pub proof fn lemma_word_len(s: Seq<char>)
    ensures
        word_len(s) <= s.len(),
        forall|i: int| 0 <= i < word_len(s) ==> !is_white(s[i]),
        word_len(s) < s.len() ==> is_white(s[word_len(s) as int]),
    decreases s.len(),
{
    if s.len() > 0 && !is_white(s[0]) {
        lemma_word_len(s.skip(1));
        assert forall|i: int| 0 <= i < word_len(s) implies !is_white(s[i]) by {
            if i > 0 {
                assert(s[i] == s.skip(1)[i - 1]);
            }
        }
    }
}

/// The separator does not stand before its first position, and stands there.
pub proof fn lemma_before(s: Seq<char>, c: char)
    ensures
        before(s, c) <= s.len(),
        forall|i: int| 0 <= i < before(s, c) ==> s[i] != c,
        before(s, c) < s.len() ==> s[before(s, c) as int] == c,
    decreases s.len(),
{
    if s.len() > 0 && s[0] != c {
        lemma_before(s.skip(1), c);
        assert forall|i: int| 0 <= i < before(s, c) implies s[i] != c by {
            if i > 0 {
                assert(s[i] == s.skip(1)[i - 1]);
            }
        }
    }
}

/// The first separator is where nothing before it is one.
pub proof fn lemma_before_is(s: Seq<char>, c: char, n: nat)
    requires
        n <= s.len(),
        forall|i: int| 0 <= i < n ==> s[i] != c,
        n < s.len() ==> s[n as int] == c,
    ensures
        before(s, c) == n,
{
    lemma_before(s, c);
    let m = before(s, c);
    if m < n {
        assert(s[m as int] != c);
    } else if n < m {
        assert(s[n as int] != c);
    }
}

/// A word ends at the first white space.
pub proof fn lemma_word_len_is(s: Seq<char>, n: nat)
    requires
        n <= s.len(),
        forall|i: int| 0 <= i < n ==> !is_white(s[i]),
        n < s.len() ==> is_white(s[n as int]),
    ensures
        word_len(s) == n,
{
    lemma_word_len(s);
    let m = word_len(s);
    if m < n {
        assert(!is_white(s[m as int]));
    } else if n < m {
        assert(!is_white(s[n as int]));
    }
}

/// Whether `p` stands in `s` at position `i`.
pub open spec fn occurs_at(s: Seq<char>, p: Seq<char>, i: int) -> bool {
    0 <= i && i + p.len() <= s.len() && s.subrange(i, i + p.len()) == p
}

/// Whether `s` begins with `p`.
pub open spec fn has_prefix(s: Seq<char>, p: Seq<char>) -> bool {
    occurs_at(s, p, 0)
}

/// Whether `s` ends with `p`.
pub open spec fn has_suffix(s: Seq<char>, p: Seq<char>) -> bool {
    occurs_at(s, p, s.len() - p.len())
}

/// Whether `p` stands anywhere in `s`.
pub open spec fn has_text(s: Seq<char>, p: Seq<char>) -> bool {
    exists|i: int| occurs_at(s, p, i)
}

/// Whether `i` is the first position at which `p` stands in `s`.
pub open spec fn first_at(s: Seq<char>, p: Seq<char>, i: int) -> bool {
    &&& occurs_at(s, p, i)
    &&& forall|j: int| 0 <= j < i ==> !occurs_at(s, p, j)
}

/// `s` with every occurrence of the non-empty text `p` taken out, scanning from the left.
pub open spec fn without(s: Seq<char>, p: Seq<char>) -> Seq<char>
    decreases s.len(),
{
    if s.len() == 0 {
        s
    } else if p.len() > 0 && has_prefix(s, p) {
        without(s.skip(p.len() as int), p)
    } else {
        seq![s[0]] + without(s.skip(1), p)
    }
}

/// `c` with an ASCII capital letter made small.
pub open spec fn ascii_lower_char(c: char) -> char {
    if 'A' <= c <= 'Z' {
        (c as u32 + 32) as char
    } else {
        c
    }
}

/// `s` with its ASCII capital letters made small.
pub open spec fn ascii_lower(s: Seq<char>) -> Seq<char> {
    Seq::new(s.len(), |i: int| ascii_lower_char(s[i]))
}

/// Whether `s` is made of ASCII characters only.
pub open spec fn is_ascii_text(s: Seq<char>) -> bool {
    forall|i: int| 0 <= i < s.len() ==> s[i] < '\u{80}'
}

/// `s` in lowercase: letter by letter where it is ASCII, else as Unicode maps it.
pub open spec fn lowercased(s: Seq<char>) -> Seq<char> {
    if is_ascii_text(s) {
        ascii_lower(s)
    } else {
        lowercase_of(s)
    }
}

/// The texts that a list of character vectors holds.
pub open spec fn texts(v: Seq<Vec<char>>) -> Seq<Seq<char>> {
    Seq::new(v.len(), |i: int| v[i]@)
}

/// The texts that a list of strings holds.
pub open spec fn strings(v: Seq<String>) -> Seq<Seq<char>> {
    Seq::new(v.len(), |i: int| v[i]@)
}

/// The text that an optional string holds.
pub open spec fn opt_string(s: Option<String>) -> Option<Seq<char>> {
    match s {
        Some(t) => Some(t@),
        None => None,
    }
}

// ─── Characters and strings ──────────────────────────────────────────────────

/// `String::push` appends the character to the string.
pub assume_specification[ String::push ](s: &mut String, c: char)
    ensures
        final(s)@ == old(s)@.push(c),
;

/// What `str::to_lowercase` makes of a text.
pub uninterp spec fn lowercase_of(s: Seq<char>) -> Seq<char>;

/// `str::to_lowercase`: the Unicode lowercase of the text.
#[verifier::external_body]
fn unicode_lowercase(s: &str) -> (r: String)
    ensures
        r@ == lowercase_of(s@),
{
    s.to_lowercase()
}

/// The characters of a string.
pub fn chars_of(s: &str) -> (r: Vec<char>)
    ensures
        r@ == s@,
{
    let mut r: Vec<char> = Vec::new();
    for c in it: s.chars()
        invariant
            r@ == it.seq().take(it.index() as int),
            it.seq() == s@,
    {
        r.push(c);
    }
    r
}

/// The string made of some characters.
pub fn text_of(v: &Vec<char>) -> (r: String)
    ensures
        r@ == v@,
{
    let mut r: String = String::new();
    let mut i: usize = 0;
    while i < v.len()
        invariant
            i <= v.len(),
            r@ == v@.take(i as int),
        decreases v.len() - i,
    {
        r.push(v[i]);
        i += 1;
        assert(v@.take(i as int) == v@.take(i - 1).push(v@[i - 1]));
    }
    assert(v@.take(i as int) == v@);
    r
}

/// The characters of `v` from `from` up to `to`.
pub fn part(v: &Vec<char>, from: usize, to: usize) -> (r: Vec<char>)
    requires
        from <= to <= v.len(),
    ensures
        r@ == v@.subrange(from as int, to as int),
{
    let mut r: Vec<char> = Vec::new();
    let mut i: usize = from;
    while i < to
        invariant
            from <= i <= to <= v.len(),
            r@ == v@.subrange(from as int, i as int),
        decreases to - i,
    {
        r.push(v[i]);
        i += 1;
        assert(v@.subrange(from as int, i as int) == v@.subrange(from as int, i - 1).push(
            v@[i - 1],
        ));
    }
    r
}

/// Whether two character vectors hold the same text.
pub fn same(a: &Vec<char>, b: &Vec<char>) -> (r: bool)
    ensures
        r == (a@ == b@),
{
    if a.len() != b.len() {
        return false;
    }
    let mut i: usize = 0;
    while i < a.len()
        invariant
            i <= a.len(),
            a.len() == b.len(),
            forall|j: int| 0 <= j < i ==> a@[j] == b@[j],
        decreases a.len() - i,
    {
        if a[i] != b[i] {
            return false;
        }
        i += 1;
    }
    assert(a@ == b@);
    true
}

/// Whether `a` holds the text `b`.
pub fn is_text(a: &Vec<char>, b: &str) -> (r: bool)
    ensures
        r == (a@ == b@),
{
    let b = chars_of(b);
    same(a, &b)
}

/// Whether two strings hold the same text.
pub fn same_text(a: &str, b: &str) -> (r: bool)
    ensures
        r == (a@ == b@),
{
    let a = chars_of(a);
    is_text(&a, b)
}

/// Whether `c` is white space.
pub fn white(c: char) -> (r: bool)
    ensures
        r == is_white(c),
{
    ('\u{9}' <= c && c <= '\u{d}') || c == ' ' || c == '\u{85}' || c == '\u{a0}' || c == '\u{1680}'
        || ('\u{2000}' <= c && c <= '\u{200a}') || c == '\u{2028}' || c == '\u{2029}' || c
        == '\u{202f}' || c == '\u{205f}' || c == '\u{3000}'
}

/// Whether `c` is an ASCII digit.
pub fn digit(c: char) -> (r: bool)
    ensures
        r == is_digit(c),
        r <==> 48 <= c as u32 <= 57,
{
    '0' <= c && c <= '9'
}


/// `v` without leading and trailing white space.
pub fn trim(v: &Vec<char>) -> (r: Vec<char>)
    ensures
        r@ == trimmed(v@),
{
    let mut i: usize = 0;
    assert(v@.skip(0) == v@);
    while i < v.len() && white(v[i])
        invariant
            i <= v.len(),
            trim_start(v@) == trim_start(v@.skip(i as int)),
        decreases v.len() - i,
    {
        assert(v@.skip(i as int).skip(1) == v@.skip(i + 1));
        i += 1;
    }
    let ghost s = trim_start(v@);
    assert(s == v@.skip(i as int));
    let mut j: usize = v.len();
    while j > i && white(v[j - 1])
        invariant
            i <= j <= v.len(),
            s == v@.skip(i as int),
            trim_end(s) == trim_end(v@.subrange(i as int, j as int)),
        decreases j,
    {
        assert(v@.subrange(i as int, j as int).drop_last() == v@.subrange(i as int, j - 1));
        j -= 1;
    }
    part(v, i, j)
}

/// `v` without the characters `c` at its end.
pub fn trim_end_of(v: &Vec<char>, c: char) -> (r: Vec<char>)
    ensures
        r@ == trim_end_char(v@, c),
{
    let mut j: usize = v.len();
    assert(v@.take(j as int) == v@);
    while j > 0 && v[j - 1] == c
        invariant
            j <= v.len(),
            trim_end_char(v@, c) == trim_end_char(v@.take(j as int), c),
        decreases j,
    {
        assert(v@.take(j as int).drop_last() == v@.take(j - 1));
        j -= 1;
    }
    part(v, 0, j)
}

/// The pieces of `v` between the separators `c`.
pub fn split(v: &Vec<char>, c: char) -> (r: Vec<Vec<char>>)
    ensures
        texts(r@) == cells(v@, c),
{
    let mut r: Vec<Vec<char>> = Vec::new();
    let mut start: usize = 0;
    let mut i: usize = 0;
    assert(v@.skip(0) == v@);
    while i < v.len()
        invariant
            start <= i <= v.len(),
            forall|k: int| start <= k < i ==> v@[k] != c,
            texts(r@) + cells(v@.skip(start as int), c) == cells(v@, c),
        decreases v.len() - i,
    {
        if v[i] == c {
            let piece = part(v, start, i);
            proof {
                let s = v@.skip(start as int);
                lemma_before_is(s, c, (i - start) as nat);
                assert(s.take(i - start) == piece@);
                assert(s.skip(i - start + 1) == v@.skip(i + 1));
                let old_r = r@;
                assert(texts(old_r.push(piece)) == texts(old_r).push(piece@));
                assert(texts(old_r).push(piece@) + cells(v@.skip(i + 1), c) == texts(old_r) + (seq![
                    piece@,
                ] + cells(v@.skip(i + 1), c)));
            }
            r.push(piece);
            start = i + 1;
        }
        i += 1;
    }
    let piece = part(v, start, v.len());
    proof {
        let s = v@.skip(start as int);
        lemma_before_is(s, c, s.len());
        assert(s == piece@);
        assert(texts(r@.push(piece)) == texts(r@) + seq![piece@]);
    }
    r.push(piece);
    r
}

/// The pieces of `v` between the separators `c`, each without the white space around it.
pub fn split_trimmed(v: &Vec<char>, c: char) -> (r: Vec<Vec<char>>)
    ensures
        texts(r@) == trimmed_cells(v@, c),
{
    let pieces = split(v, c);
    let mut r: Vec<Vec<char>> = Vec::new();
    let mut i: usize = 0;
    while i < pieces.len()
        invariant
            i <= pieces.len(),
            texts(pieces@) == cells(v@, c),
            texts(r@) == trimmed_cells(v@, c).take(i as int),
        decreases pieces.len() - i,
    {
        let t = trim(&pieces[i]);
        assert(texts(pieces@)[i as int] == pieces@[i as int]@);
        r.push(t);
        i += 1;
        assert(texts(r@) == trimmed_cells(v@, c).take(i - 1).push(t@));
    }
    r
}

/// The lines of `v`.
pub fn split_lines(v: &Vec<char>) -> (r: Vec<Vec<char>>)
    ensures
        texts(r@) == lines(v@),
{
    let mut r: Vec<Vec<char>> = Vec::new();
    let mut start: usize = 0;
    let mut i: usize = 0;
    assert(v@.skip(0) == v@);
    while i < v.len()
        invariant
            start <= i <= v.len(),
            forall|k: int| start <= k < i ==> v@[k] != '\n',
            texts(r@) + lines(v@.skip(start as int)) == lines(v@),
        decreases v.len() - i,
    {
        if v[i] == '\n' {
            let end: usize = if i > start && v[i - 1] == '\r' {
                i - 1
            } else {
                i
            };
            let piece = part(v, start, end);
            proof {
                let s = v@.skip(start as int);
                lemma_before_is(s, '\n', (i - start) as nat);
                assert(piece@ == without_cr(s.take(i - start)));
                assert(s.skip(i - start + 1) == v@.skip(i + 1));
                let old_r = r@;
                assert(texts(old_r.push(piece)) == texts(old_r).push(piece@));
                assert(texts(old_r).push(piece@) + lines(v@.skip(i + 1)) == texts(old_r) + (seq![
                    piece@,
                ] + lines(v@.skip(i + 1))));
            }
            r.push(piece);
            start = i + 1;
        }
        i += 1;
    }
    if start < v.len() {
        let piece = part(v, start, v.len());
        proof {
            let s = v@.skip(start as int);
            lemma_before_is(s, '\n', s.len());
            assert(s == piece@);
            assert(texts(r@.push(piece)) == texts(r@) + seq![piece@]);
        }
        r.push(piece);
    }
    r
}

/// The words of `v`.
pub fn split_words(v: &Vec<char>) -> (r: Vec<Vec<char>>)
    ensures
        texts(r@) == words(v@),
{
    let mut r: Vec<Vec<char>> = Vec::new();
    let mut i: usize = 0;
    assert(v@.skip(0) == v@);
    while i < v.len()
        invariant
            i <= v.len(),
            texts(r@) + words(v@.skip(i as int)) == words(v@),
        decreases v.len() - i,
    {
        let ghost s = v@.skip(i as int);
        if white(v[i]) {
            assert(s.skip(1) == v@.skip(i + 1));
            i += 1;
        } else {
            let start: usize = i;
            while i < v.len() && !white(v[i])
                invariant
                    start <= i <= v.len(),
                    forall|k: int| start <= k < i ==> !is_white(v@[k]),
                decreases v.len() - i,
            {
                i += 1;
            }
            let piece = part(v, start, i);
            proof {
                lemma_word_len_is(s, (i - start) as nat);
                assert(s.take(i - start) == piece@);
                assert(s.skip(i - start) == v@.skip(i as int));
                let old_r = r@;
                assert(texts(old_r.push(piece)) == texts(old_r).push(piece@));
                assert(texts(old_r).push(piece@) + words(v@.skip(i as int)) == texts(old_r) + (seq![
                    piece@,
                ] + words(v@.skip(i as int))));
            }
            r.push(piece);
        }
    }
    r
}

/// Whether `p` stands in `v` at position `i`.
fn found_at(v: &Vec<char>, p: &Vec<char>, i: usize) -> (r: bool)
    requires
        i <= v.len(),
    ensures
        r == occurs_at(v@, p@, i as int),
{
    if v.len() - i < p.len() {
        return false;
    }
    let mut k: usize = 0;
    while k < p.len()
        invariant
            k <= p.len(),
            i + p.len() <= v.len(),
            forall|j: int| 0 <= j < k ==> v@[i + j] == p@[j],
        decreases p.len() - k,
    {
        if v[i + k] != p[k] {
            assert(v@.subrange(i as int, i + p@.len())[k as int] != p@[k as int]);
            return false;
        }
        k += 1;
    }
    assert(v@.subrange(i as int, i + p@.len()) == p@);
    true
}

/// Whether `v` begins with `p`.
pub fn starts_with(v: &Vec<char>, p: &str) -> (r: bool)
    ensures
        r == has_prefix(v@, p@),
{
    let p = chars_of(p);
    found_at(v, &p, 0)
}

/// Whether `v` ends with `p`.
pub fn ends_with(v: &Vec<char>, p: &str) -> (r: bool)
    ensures
        r == has_suffix(v@, p@),
{
    let p = chars_of(p);
    if v.len() < p.len() {
        return false;
    }
    found_at(v, &p, v.len() - p.len())
}

/// The first position at which `p` stands in `v`.
pub fn find(v: &Vec<char>, p: &str) -> (r: Option<usize>)
    ensures
        match r {
            Some(i) => first_at(v@, p@, i as int),
            None => !has_text(v@, p@),
        },
{
    let pat = chars_of(p);
    let mut i: usize = 0;
    loop
        invariant
            i <= v.len(),
            pat@ == p@,
            forall|j: int| 0 <= j < i ==> !occurs_at(v@, p@, j),
        ensures
            forall|j: int| 0 <= j <= v.len() ==> !occurs_at(v@, p@, j),
        decreases v.len() - i,
    {
        if found_at(v, &pat, i) {
            return Some(i);
        }
        if i == v.len() {
            break;
        }
        i += 1;
    }
    proof {
        if has_text(v@, p@) {
            let i = choose|i: int| occurs_at(v@, p@, i);
            assert(i <= v.len());
        }
    }
    None
}

/// Whether `p` stands anywhere in `v`.
pub fn contains(v: &Vec<char>, p: &str) -> (r: bool)
    ensures
        r == has_text(v@, p@),
{
    find(v, p).is_some()
}

/// `v` with every occurrence of the text `p` taken out.
pub fn remove_all(v: &Vec<char>, p: &str) -> (r: Vec<char>)
    requires
        p@.len() > 0,
    ensures
        r@ == without(v@, p@),
{
    let pat = chars_of(p);
    let mut r: Vec<char> = Vec::new();
    let mut i: usize = 0;
    assert(v@.skip(0) == v@);
    while i < v.len()
        invariant
            i <= v.len(),
            pat@ == p@,
            p@.len() > 0,
            r@ + without(v@.skip(i as int), p@) == without(v@, p@),
        decreases v.len() - i,
    {
        let ghost s = v@.skip(i as int);
        if found_at(v, &pat, i) {
            proof {
                assert(s.subrange(0, p@.len() as int) == v@.subrange(i as int, i + p@.len()));
                assert(s.skip(p@.len() as int) == v@.skip(i + p@.len()));
            }
            i += pat.len();
        } else {
            proof {
                if has_prefix(s, p@) {
                    assert(s.subrange(0, p@.len() as int) == v@.subrange(i as int, i + p@.len()));
                }
                assert(s.skip(1) == v@.skip(i + 1));
                assert(r@.push(v@[i as int]) + without(s.skip(1), p@) == r@ + (seq![s[0]] + without(
                    s.skip(1),
                    p@,
                )));
            }
            r.push(v[i]);
            i += 1;
        }
    }
    r
}

/// Whether two texts are the same but for the case of their ASCII letters.
pub fn same_ignoring_case(a: &Vec<char>, b: &Vec<char>) -> (r: bool)
    ensures
        r == (ascii_lower(a@) == ascii_lower(b@)),
{
    if a.len() != b.len() {
        assert(ascii_lower(a@).len() != ascii_lower(b@).len());
        return false;
    }
    let mut i: usize = 0;
    while i < a.len()
        invariant
            i <= a.len(),
            a.len() == b.len(),
            forall|j: int| 0 <= j < i ==> ascii_lower_char(a@[j]) == ascii_lower_char(b@[j]),
        decreases a.len() - i,
    {
        if small(a[i]) != small(b[i]) {
            assert(ascii_lower(a@)[i as int] != ascii_lower(b@)[i as int]);
            return false;
        }
        i += 1;
    }
    assert(ascii_lower(a@) == ascii_lower(b@));
    true
}

/// `c` with an ASCII capital letter made small.
fn small(c: char) -> (r: char)
    ensures
        r == ascii_lower_char(c),
{
    if 'A' <= c && c <= 'Z' {
        let n: u8 = c as u8;
        (n + 32) as char
    } else {
        c
    }
}

/// `v` in lowercase.
pub fn lower(v: &Vec<char>) -> (r: Vec<char>)
    ensures
        r@ == lowercased(v@),
{
    let mut r: Vec<char> = Vec::new();
    let mut i: usize = 0;
    while i < v.len()
        invariant
            i <= v.len(),
            r@ == ascii_lower(v@).take(i as int),
            forall|k: int| 0 <= k < i ==> v@[k] < '\u{80}',
        decreases v.len() - i,
    {
        if v[i] >= '\u{80}' {
            assert(!is_ascii_text(v@));
            let t = text_of(v);
            return chars_of(unicode_lowercase(t.as_str()).as_str());
        }
        r.push(small(v[i]));
        i += 1;
        assert(r@ == ascii_lower(v@).take(i as int));
    }
    assert(ascii_lower(v@).take(i as int) == ascii_lower(v@));
    r
}

// ─── Laws ────────────────────────────────────────────────────────────────────

/// White space is the tab and the four characters after it, the space, and the
/// further characters that Unicode lists.
pub proof fn law_white_space(c: char)
    ensures
        is_white(c) <==> {
            let n = c as u32;
            ||| 9 <= n <= 13
            ||| n == 32
            ||| n == 0x85
            ||| n == 0xa0
            ||| n == 0x1680
            ||| 0x2000 <= n <= 0x200a
            ||| n == 0x2028
            ||| n == 0x2029
            ||| n == 0x202f
            ||| n == 0x205f
            ||| n == 0x3000
        },
{
}

/// What is trimmed off a text is white space at its two ends, and all of it.
pub proof fn law_trimmed_is_the_middle(s: Seq<char>) -> (w: (Seq<char>, Seq<char>))
    ensures
        s == w.0 + trimmed(s) + w.1,
        forall|i: int| 0 <= i < w.0.len() ==> is_white(#[trigger] w.0[i]),
        forall|i: int| 0 <= i < w.1.len() ==> is_white(#[trigger] w.1[i]),
        trimmed(s).len() > 0 ==> !is_white(trimmed(s)[0]) && !is_white(trimmed(s).last()),
{
    let a = lemma_trim_start_is(s);
    let t = trim_start(s);
    let b = lemma_trim_end_is(t);
    assert(s == a + trimmed(s) + b);
    if trimmed(s).len() > 0 {
        assert(trimmed(s)[0] == t[0]);
    }
    (a, b)
}

proof fn lemma_trim_start_is(s: Seq<char>) -> (a: Seq<char>)
    ensures
        s == a + trim_start(s),
        forall|i: int| 0 <= i < a.len() ==> is_white(#[trigger] a[i]),
        trim_start(s).len() > 0 ==> !is_white(trim_start(s)[0]),
    decreases s.len(),
{
    if s.len() > 0 && is_white(s[0]) {
        let rest = lemma_trim_start_is(s.skip(1));
        let a = seq![s[0]] + rest;
        assert(s == seq![s[0]] + s.skip(1));
        assert(s == a + trim_start(s));
        a
    } else {
        assert(s == Seq::<char>::empty() + s);
        Seq::empty()
    }
}

proof fn lemma_trim_end_is(s: Seq<char>) -> (b: Seq<char>)
    ensures
        s == trim_end(s) + b,
        forall|i: int| 0 <= i < b.len() ==> is_white(#[trigger] b[i]),
        trim_end(s).len() > 0 ==> !is_white(trim_end(s).last()),
    decreases s.len(),
{
    if s.len() > 0 && is_white(s.last()) {
        let rest = lemma_trim_end_is(s.drop_last());
        let b = rest.push(s.last());
        assert(s == s.drop_last().push(s.last()));
        assert(s == trim_end(s) + b);
        b
    } else {
        assert(s == s + Seq::<char>::empty());
        Seq::empty()
    }
}

/// What is taken off the end of a text is the given character, as often as it
/// stands there.
pub proof fn law_trimmed_character(s: Seq<char>, c: char)
    ensures
        trim_end_char(s, c).len() <= s.len(),
        trim_end_char(s, c) == s.take(trim_end_char(s, c).len() as int),
        forall|i: int| trim_end_char(s, c).len() <= i < s.len() ==> #[trigger] s[i] == c,
        trim_end_char(s, c).len() > 0 ==> trim_end_char(s, c).last() != c,
    decreases s.len(),
{
    if s.len() > 0 && s.last() == c {
        law_trimmed_character(s.drop_last(), c);
        let t = trim_end_char(s, c);
        assert(s.drop_last().take(t.len() as int) == s.take(t.len() as int));
        assert forall|i: int| t.len() <= i < s.len() implies #[trigger] s[i] == c by {
            if i < s.len() - 1 {
                assert(s.drop_last()[i] == s[i]);
            }
        }
    } else {
        assert(s.take(s.len() as int) == s);
    }
}

/// Texts with a separator between each two.
pub open spec fn separated(ws: Seq<Seq<char>>, c: char) -> Seq<char>
    decreases ws.len(),
{
    if ws.len() == 0 {
        seq![]
    } else if ws.len() == 1 {
        ws[0]
    } else {
        ws[0] + seq![c] + separated(ws.skip(1), c)
    }
}

/// The cells of a text hold no separator, and with the separators put back
/// between them they give the text.
pub proof fn law_cells_give_the_text(s: Seq<char>, c: char)
    ensures
        cells(s, c).len() > 0,
        separated(cells(s, c), c) == s,
        forall|i: int, k: int|
            0 <= i < cells(s, c).len() && 0 <= k < cells(s, c)[i].len() ==> #[trigger] cells(
                s,
                c,
            )[i][k] != c,
    decreases s.len(),
{
    let n = before(s, c) as int;
    lemma_before(s, c);
    if n >= s.len() {
        assert(cells(s, c) == seq![s]);
    } else {
        let rest = s.skip(n + 1);
        law_cells_give_the_text(rest, c);
        let all = cells(s, c);
        assert(all.skip(1) == cells(rest, c));
        assert(s == s.take(n) + seq![c] + rest);
        assert forall|i: int, k: int| 0 <= i < all.len() && 0 <= k < all[i].len() implies #[trigger] all[i][k]
            != c by {
            if i > 0 {
                assert(all[i] == cells(rest, c)[i - 1]);
                assert(cells(rest, c)[i - 1][k] != c);
            } else {
                assert(all[0] == s.take(n));
            }
        }
    }
}

/// Texts without the separator are read back as cells.
pub proof fn law_cells_read_back(ws: Seq<Seq<char>>, c: char)
    requires
        ws.len() > 0,
        forall|i: int, k: int|
            0 <= i < ws.len() && 0 <= k < ws[i].len() ==> #[trigger] ws[i][k] != c,
    ensures
        cells(separated(ws, c), c) == ws,
    decreases ws.len(),
{
    let s = separated(ws, c);
    if ws.len() == 1 {
        assert forall|k: int| 0 <= k < s.len() implies s[k] != c by {
            assert(ws[0][k] != c);
        }
        lemma_before_is(s, c, s.len());
        assert(ws == seq![s]);
    } else {
        let rest = ws.skip(1);
        assert forall|i: int, k: int|
            0 <= i < rest.len() && 0 <= k < rest[i].len() implies #[trigger] rest[i][k] != c by {
            assert(ws[i + 1][k] != c);
        }
        law_cells_read_back(rest, c);
        let n = ws[0].len();
        assert(s[n as int] == c);
        assert forall|k: int| 0 <= k < n implies s[k] != c by {
            assert(ws[0][k] != c);
        }
        lemma_before_is(s, c, n);
        assert(s.take(n as int) == ws[0]);
        assert(s.skip(n as int + 1) == separated(rest, c));
        assert(seq![ws[0]] + rest == ws);
    }
}

/// A line ends with a line feed, or with a carriage return and a line feed; what
/// follows is read as lines of its own, and the last line needs no ending.
pub proof fn law_line_endings(l: Seq<char>, rest: Seq<char>)
    requires
        forall|i: int| 0 <= i < l.len() ==> #[trigger] l[i] != '\n',
    ensures
        lines(l + seq!['\r', '\n'] + rest) == seq![l] + lines(rest),
        (l.len() == 0 || l.last() != '\r') ==> lines(l + seq!['\n'] + rest) == seq![l] + lines(
            rest,
        ),
        l.len() > 0 ==> lines(l) == seq![l],
        lines(Seq::<char>::empty()) == Seq::<Seq<char>>::empty(),
{
    let s = l + seq!['\r', '\n'] + rest;
    lemma_before_is(s, '\n', l.len() + 1);
    assert(s.take(l.len() as int + 1) == l.push('\r'));
    assert(l.push('\r').drop_last() == l);
    assert(s.skip(l.len() as int + 2) == rest);
    let t = l + seq!['\n'] + rest;
    assert(t[l.len() as int] == '\n');
    lemma_before_is(t, '\n', l.len());
    assert(t.take(l.len() as int) == l);
    assert(t.skip(l.len() as int + 1) == rest);
    lemma_before_is(l, '\n', l.len());
}

/// A text without white space is one word, white space separates words, and
/// there is no word without a character.
#[verifier::rlimit(40)]
pub proof fn law_words_are_separated(a: Seq<char>, c: char, b: Seq<char>)
    requires
        is_white(c),
    ensures
        words(a + seq![c] + b) == words(a) + words(b),
        words(Seq::<char>::empty()) == Seq::<Seq<char>>::empty(),
        a.len() > 0 && (forall|i: int| 0 <= i < a.len() ==> !is_white(#[trigger] a[i])) ==> words(a)
            == seq![a],
    decreases a.len(),
{
    let s = a + seq![c] + b;
    lemma_word_len(a);
    if a.len() == 0 {
        assert(s[0] == c);
        assert(s.skip(1) == b);
        assert(words(a) + words(b) == words(b));
    } else if is_white(a[0]) {
        assert(s[0] == a[0]);
        assert(s.skip(1) == a.skip(1) + seq![c] + b);
        law_words_are_separated(a.skip(1), c, b);
    } else {
        let n = word_len(a);
        assert(s[0] == a[0]);
        assert forall|i: int| 0 <= i < n implies !is_white(s[i]) by {
            assert(s[i] == a[i]);
        }
        if n < a.len() {
            assert(s[n as int] == a[n as int]);
        } else {
            assert(s[n as int] == c);
        }
        lemma_word_len_is(s, n);
        assert(s.take(n as int) == a.take(n as int));
        assert(s.skip(n as int) == a.skip(n as int) + seq![c] + b);
        law_words_are_separated(a.skip(n as int), c, b);
        assert(seq![a.take(n as int)] + words(a.skip(n as int)) + words(b) == seq![a.take(n as int)]
            + (words(a.skip(n as int)) + words(b)));
        if forall|i: int| 0 <= i < a.len() ==> !is_white(#[trigger] a[i]) {
            assert(n == a.len());
            assert(a.take(n as int) == a);
            assert(a.skip(n as int) == Seq::<char>::empty());
            assert(words(a) == seq![a]);
        }
    }
}

/// Words with a space between each two are read back.
pub proof fn law_words_read_back(ws: Seq<Seq<char>>)
    requires
        forall|i: int| 0 <= i < ws.len() ==> (#[trigger] ws[i]).len() > 0,
        forall|i: int, k: int|
            0 <= i < ws.len() && 0 <= k < ws[i].len() ==> !is_white(#[trigger] ws[i][k]),
    ensures
        words(separated(ws, ' ')) == ws,
    decreases ws.len(),
{
    if ws.len() > 0 {
        let w = ws[0];
        let rest = ws.skip(1);
        assert forall|i: int| 0 <= i < rest.len() implies (#[trigger] rest[i]).len() > 0 by {
            assert(rest[i] == ws[i + 1]);
        }
        assert forall|i: int, k: int| 0 <= i < rest.len() && 0 <= k < rest[i].len() implies !is_white(
            #[trigger] rest[i][k],
        ) by {
            assert(!is_white(ws[i + 1][k]));
        }
        law_words_read_back(rest);
        assert forall|i: int| 0 <= i < w.len() implies !is_white(#[trigger] w[i]) by {
            assert(!is_white(ws[0][i]));
        }
        law_words_are_separated(w, ' ', separated(rest, ' '));
        assert(seq![w] + rest == ws);
        if ws.len() == 1 {
            assert(rest.len() == 0);
            assert(ws == seq![w]);
        }
    }
}

/// A text begins with another if it is that text and something after it.
pub proof fn law_prefix_and_suffix(s: Seq<char>, p: Seq<char>, rest: Seq<char>)
    ensures
        has_prefix(p + rest, p),
        has_suffix(rest + p, p),
        has_prefix(s, p) ==> s == p + s.skip(p.len() as int),
        has_suffix(s, p) ==> s == s.take(s.len() - p.len()) + p,
{
    assert((p + rest).subrange(0, p.len() as int) == p);
    assert((rest + p).subrange(rest.len() as int, (rest + p).len() as int) == p);
}

/// A text holds another if it stands between two parts of it.
pub proof fn law_text_holds_its_parts(a: Seq<char>, p: Seq<char>, b: Seq<char>)
    ensures
        has_text(a + p + b, p),
{
    assert((a + p + b).subrange(a.len() as int, (a.len() + p.len()) as int) == p);
    assert(occurs_at(a + p + b, p, a.len() as int));
}

/// Taking a text out leaves what stands before its first occurrence, and then
/// what is left of the rest; where it does not occur nothing changes.
#[verifier::rlimit(40)]
pub proof fn law_first_occurrence_is_taken_out(s: Seq<char>, p: Seq<char>, i: int)
    requires
        p.len() > 0,
    ensures
        first_at(s, p, i) ==> without(s, p) == s.take(i) + without(s.skip(i + p.len()), p),
        !has_text(s, p) ==> without(s, p) == s,
    decreases s.len(),
{
    if s.len() > 0 {
        let t = s.skip(1);
        assert forall|j: int| 0 <= j implies occurs_at(t, p, j) == occurs_at(s, p, j + 1) by {
            if j + 1 + p.len() <= s.len() {
                assert(t.subrange(j, j + p.len()) == s.subrange(j + 1, j + 1 + p.len()));
            }
        }
        if !has_text(s, p) {
            assert(!occurs_at(s, p, 0));
            if has_text(t, p) {
                let j = choose|j: int| occurs_at(t, p, j);
                assert(occurs_at(s, p, j + 1));
            }
            law_first_occurrence_is_taken_out(t, p, i - 1);
            assert(seq![s[0]] + t == s);
        }
        if first_at(s, p, i) {
            if i == 0 {
                assert(s.take(0) + without(s.skip(p.len() as int), p) == without(
                    s.skip(p.len() as int),
                    p,
                ));
            } else {
                assert(!occurs_at(s, p, 0));
                assert(occurs_at(s, p, i - 1 + 1));
                assert(occurs_at(t, p, i - 1));
                assert forall|j: int| 0 <= j < i - 1 implies !occurs_at(t, p, j) by {
                    assert(!occurs_at(s, p, j + 1));
                }
                law_first_occurrence_is_taken_out(t, p, i - 1);
                assert(t.skip(i - 1 + p.len()) == s.skip(i + p.len()));
                assert(seq![s[0]] + (t.take(i - 1) + without(s.skip(i + p.len()), p)) == s.take(i)
                    + without(s.skip(i + p.len()), p));
            }
        }
    }
}

/// Lowercase ASCII text has each capital letter made small, and nothing else
/// changed.
pub proof fn law_small_letters(s: Seq<char>, i: int)
    requires
        0 <= i < s.len(),
        forall|k: int| 0 <= k < s.len() ==> #[trigger] s[k] < '\u{80}',
    ensures
        lowercased(s).len() == s.len(),
        'A' <= s[i] <= 'Z' ==> lowercased(s)[i] as int == s[i] as int + 32,
        !('A' <= s[i] <= 'Z') ==> lowercased(s)[i] == s[i],
{
}

/// Words with a separator between each two begin as the first does, end as the
/// last does, and hold no character that neither they nor the separator hold.
pub proof fn lemma_separated(ws: Seq<Seq<char>>, c: char, d: char)
    requires
        ws.len() > 0,
        forall|i: int| 0 <= i < ws.len() ==> (#[trigger] ws[i]).len() > 0,
    ensures
        separated(ws, c).len() > 0,
        separated(ws, c).last() == ws.last().last(),
        ws[0].len() <= separated(ws, c).len(),
        separated(ws, c).take(ws[0].len() as int) == ws[0],
        c != d && (forall|i: int, k: int|
            0 <= i < ws.len() && 0 <= k < ws[i].len() ==> #[trigger] ws[i][k] != d) ==> forall|k: int|
            0 <= k < separated(ws, c).len() ==> #[trigger] separated(ws, c)[k] != d,
    decreases ws.len(),
{
    let s = separated(ws, c);
    if ws.len() == 1 {
        assert(s.take(ws[0].len() as int) == ws[0]);
        if c != d && (forall|i: int, k: int|
            0 <= i < ws.len() && 0 <= k < ws[i].len() ==> #[trigger] ws[i][k] != d) {
            assert forall|k: int| 0 <= k < s.len() implies #[trigger] s[k] != d by {
                assert(ws[0][k] != d);
            }
        }
    } else {
        let rest = ws.skip(1);
        assert forall|i: int| 0 <= i < rest.len() implies (#[trigger] rest[i]).len() > 0 by {
            assert(rest[i] == ws[i + 1]);
        }
        lemma_separated(rest, c, d);
        let t = separated(rest, c);
        assert(s == ws[0] + seq![c] + t);
        assert(s.take(ws[0].len() as int) == ws[0]);
        assert(rest.last() == ws.last());
        assert(s.last() == t.last());
        if c != d && (forall|i: int, k: int|
            0 <= i < ws.len() && 0 <= k < ws[i].len() ==> #[trigger] ws[i][k] != d) {
            assert forall|i: int, k: int|
                0 <= i < rest.len() && 0 <= k < rest[i].len() implies #[trigger] rest[i][k] != d by {
                assert(ws[i + 1][k] != d);
            }
            assert forall|k: int| 0 <= k < s.len() implies #[trigger] s[k] != d by {
                if k < ws[0].len() {
                    assert(ws[0][k] != d);
                } else if k > ws[0].len() {
                    assert(s[k] == t[k - ws[0].len() - 1]);
                }
            }
        }
    }
}

/// Text with a character beyond ASCII is made lowercase as Unicode has it.
pub proof fn law_other_letters(s: Seq<char>, i: int)
    requires
        0 <= i < s.len(),
        s[i] >= '\u{80}',
    ensures
        lowercased(s) == lowercase_of(s),
{
}

} // verus!
