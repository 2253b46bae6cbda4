//! Equaliser settings in the AutoEQ text format.

use crate::document::{is_number_char, lemma_number_chars, lemma_trim_clean};
use crate::number::{
    digit_run, is_float, is_unsigned_number, lemma_digit_run, lemma_digit_run_is, reads_as_float,
    without_sign,
};
use crate::text::{
    ascii_lower, ascii_lower_char, before, chars_of, has_prefix, is_digit, is_text, is_white,
    law_line_endings, law_words_read_back, lemma_before, lemma_before_is, lemma_separated, lines,
    part, separated, split_lines, split_words, starts_with, text_of, texts, trim, trimmed,
    without_cr, words,
};
use vstd::prelude::*;
use vstd::string::*;

verus! {

/// One filter: its type (1 low shelf, 2 peak, 3 high shelf) and its frequency,
/// gain and quality as they are written.
pub struct AutoEqFilter {
    pub type_code: i32,
    pub freq: String,
    pub gain: String,
    pub q: String,
}

/// A profile: the preamplification as it is written, and the filters in order.
pub struct AutoEqProfile {
    pub preamp: String,
    pub filters: Vec<AutoEqFilter>,
}

/// What a filter line says.
pub struct FilterText {
    pub type_code: i32,
    pub freq: Seq<char>,
    pub gain: Seq<char>,
    pub q: Seq<char>,
}

impl View for AutoEqFilter {
    type V = FilterText;

    open spec fn view(&self) -> FilterText {
        FilterText { type_code: self.type_code, freq: self.freq@, gain: self.gain@, q: self.q@ }
    }
}

/// The filters that a list holds.
pub open spec fn filter_texts(v: Seq<AutoEqFilter>) -> Seq<FilterText> {
    Seq::new(v.len(), |i: int| v[i]@)
}

/// Where the first token equal to `kw` stands (the number of tokens if none does).
pub open spec fn token_index(toks: Seq<Seq<char>>, kw: Seq<char>) -> nat
    decreases toks.len(),
{
    if toks.len() == 0 || toks[0] == kw {
        0
    } else {
        1 + token_index(toks.skip(1), kw)
    }
}

/// The number that follows the first token equal to `kw`.
pub open spec fn number_after(toks: Seq<Seq<char>>, kw: Seq<char>) -> Option<Seq<char>> {
    let i = token_index(toks, kw) as int + 1;
    if i < toks.len() && is_float(toks[i]) {
        Some(toks[i])
    } else {
        None
    }
}

/// The filter type that the tokens name; a low shelf goes before a high shelf,
/// and both before a peak.
pub open spec fn filter_type(toks: Seq<Seq<char>>) -> Option<i32> {
    if toks.contains("LSC"@) || toks.contains("LS"@) {
        Some(1)
    } else if toks.contains("HSC"@) || toks.contains("HS"@) {
        Some(3)
    } else if toks.contains("PK"@) || toks.contains("PEQ"@) {
        Some(2)
    } else {
        None
    }
}

/// The filter that a line switches on. A line that lacks the word `ON`, a known
/// type, or one of the three numbers, gives none.
pub open spec fn filter_of(line: Seq<char>) -> Option<FilterText> {
    let toks = words(line);
    if !has_prefix(line, "Filter"@) || !toks.contains("ON"@) {
        None
    } else {
        match (
            filter_type(toks),
            number_after(toks, "Fc"@),
            number_after(toks, "Gain"@),
            number_after(toks, "Q"@),
        ) {
            (Some(type_code), Some(freq), Some(gain), Some(q)) => Some(
                FilterText { type_code, freq, gain, q },
            ),
            _ => None,
        }
    }
}

/// The filters that the lines switch on, in order.
pub open spec fn filters_of(ls: Seq<Seq<char>>) -> Seq<FilterText>
    decreases ls.len(),
{
    if ls.len() == 0 {
        seq![]
    } else {
        let before = filters_of(ls.drop_last());
        match filter_of(trimmed(ls.last())) {
            Some(f) => before.push(f),
            None => before,
        }
    }
}

/// The number on a line `Preamp: ..`.
pub open spec fn preamp_on(line: Seq<char>) -> Option<Seq<char>> {
    let toks = words(line.skip("Preamp:"@.len() as int));
    if has_prefix(line, "Preamp:"@) && toks.len() > 0 && is_float(toks[0]) {
        Some(toks[0])
    } else {
        None
    }
}

/// The preamplification that the lines set: the last one that is a number, else zero.
pub open spec fn preamp_of(ls: Seq<Seq<char>>) -> Seq<char>
    decreases ls.len(),
{
    if ls.len() == 0 {
        "0.0"@
    } else {
        match preamp_on(trimmed(ls.last())) {
            Some(p) => p,
            None => preamp_of(ls.drop_last()),
        }
    }
}

/// The first position of a token is where no earlier one equals it.
proof fn lemma_token_index_is(toks: Seq<Seq<char>>, kw: Seq<char>, n: nat)
    requires
        n <= toks.len(),
        forall|i: int| 0 <= i < n ==> toks[i] != kw,
        n < toks.len() ==> toks[n as int] == kw,
    ensures
        token_index(toks, kw) == n,
    decreases n,
{
    if n > 0 {
        assert forall|i: int| 0 <= i < n - 1 implies toks.skip(1)[i] != kw by {
            assert(toks.skip(1)[i] == toks[i + 1]);
        }
        lemma_token_index_is(toks.skip(1), kw, (n - 1) as nat);
    }
}

/// Whether one of the tokens is `kw`.
fn has_token(toks: &Vec<Vec<char>>, kw: &str) -> (r: bool)
    ensures
        r == texts(toks@).contains(kw@),
{
    find_token(toks, kw) < toks.len()
}

/// Where the first token equal to `kw` stands.
fn find_token(toks: &Vec<Vec<char>>, kw: &str) -> (n: usize)
    ensures
        n == token_index(texts(toks@), kw@),
        n <= toks.len(),
        n < toks.len() <==> texts(toks@).contains(kw@),
{
    let mut i: usize = 0;
    while i < toks.len() && !is_text(&toks[i], kw)
        invariant
            i <= toks.len(),
            forall|k: int| 0 <= k < i ==> texts(toks@)[k] != kw@,
        decreases toks.len() - i,
    {
        i += 1;
    }
    proof {
        lemma_token_index_is(texts(toks@), kw@, i as nat);
        if i < toks.len() {
            assert(texts(toks@)[i as int] == kw@);
        }
    }
    i
}

/// The number that follows the first token equal to `kw`.
fn read_after(toks: &Vec<Vec<char>>, kw: &str) -> (r: Option<String>)
    ensures
        match r {
            Some(t) => number_after(texts(toks@), kw@) == Some(t@),
            None => number_after(texts(toks@), kw@) is None,
        },
{
    let i: usize = find_token(toks, kw);
    if i < toks.len() && i + 1 < toks.len() {
        assert(texts(toks@)[i + 1] == toks@[i + 1]@);
        if reads_as_float(&toks[i + 1]) {
            return Some(text_of(&toks[i + 1]));
        }
    }
    None
}

/// The filter that a line switches on.
fn read_filter(line: &Vec<char>) -> (r: Option<AutoEqFilter>)
    ensures
        match r {
            Some(f) => filter_of(line@) == Some(f@),
            None => filter_of(line@) is None,
        },
{
    if !starts_with(line, "Filter") {
        return None;
    }
    let toks = split_words(line);
    if !has_token(&toks, "ON") {
        return None;
    }
    let type_code: i32 = if has_token(&toks, "LSC") || has_token(&toks, "LS") {
        1
    } else if has_token(&toks, "HSC") || has_token(&toks, "HS") {
        3
    } else if has_token(&toks, "PK") || has_token(&toks, "PEQ") {
        2
    } else {
        return None;
    };
    match (read_after(&toks, "Fc"), read_after(&toks, "Gain"), read_after(&toks, "Q")) {
        (Some(freq), Some(gain), Some(q)) => Some(AutoEqFilter { type_code, freq, gain, q }),
        _ => None,
    }
}

/// The number on a line `Preamp: ..`.
fn read_preamp(line: &Vec<char>) -> (r: Option<String>)
    ensures
        match r {
            Some(t) => preamp_on(line@) == Some(t@),
            None => preamp_on(line@) is None,
        },
{
    if !starts_with(line, "Preamp:") {
        return None;
    }
    let prefix = chars_of("Preamp:");
    let rest = part(line, prefix.len(), line.len());
    assert(rest@ == line@.skip("Preamp:"@.len() as int));
    let toks = split_words(&rest);
    if toks.len() > 0 {
        assert(texts(toks@)[0] == toks@[0]@);
        if reads_as_float(&toks[0]) {
            return Some(text_of(&toks[0]));
        }
    }
    None
}

/// Reads a profile. Lines that are neither a preamplification nor a filter that
/// is switched on are passed over.
pub fn parse_autoeq(content: &str) -> (r: AutoEqProfile)
    ensures
        r.preamp@ == preamp_of(lines(content@)),
        filter_texts(r.filters@) == filters_of(lines(content@)),
        r.filters.len() == filters_of(lines(content@)).len(),
        forall|i: int|
            0 <= i < r.filters.len() ==> {
                let f = #[trigger] r.filters@[i];
                let said = filters_of(lines(content@))[i];
                &&& f.type_code == said.type_code
                &&& f.freq@ == said.freq
                &&& f.gain@ == said.gain
                &&& f.q@ == said.q
            },
{
    let chars = chars_of(content);
    let ls = split_lines(&chars);
    let mut preamp: String = "0.0".to_owned();
    let mut filters: Vec<AutoEqFilter> = Vec::new();
    let ghost all = lines(content@);
    let mut i: usize = 0;
    while i < ls.len()
        invariant
            i <= ls.len(),
            texts(ls@) == all,
            preamp@ == preamp_of(all.take(i as int)),
            filter_texts(filters@) == filters_of(all.take(i as int)),
        decreases ls.len() - i,
    {
        let line = trim(&ls[i]);
        proof {
            assert(all[i as int] == ls@[i as int]@);
            assert(all.take(i + 1).drop_last() == all.take(i as int));
            assert(all.take(i + 1).last() == all[i as int]);
            if has_prefix(line@, "Preamp:"@) {
                lemma_preamp_is_no_filter(line@);
            }
        }
        if let Some(p) = read_preamp(&line) {
            preamp = p;
        } else if let Some(f) = read_filter(&line) {
            let ghost had = filters@;
            filters.push(f);
            assert(filter_texts(filters@) == filter_texts(had).push(f@));
        }
        i += 1;
    }
    assert(all.take(i as int) == all);
    assert forall|k: int| 0 <= k < filters.len() implies {
        let f = #[trigger] filters@[k];
        let said = filters_of(all)[k];
        &&& f.type_code == said.type_code
        &&& f.freq@ == said.freq
        &&& f.gain@ == said.gain
        &&& f.q@ == said.q
    } by {
        assert(filter_texts(filters@)[k] == filters@[k]@);
    }
    AutoEqProfile { preamp, filters }
}

/// A preamplification line is no filter line.
proof fn lemma_preamp_is_no_filter(line: Seq<char>)
    requires
        has_prefix(line, "Preamp:"@),
    ensures
        !has_prefix(line, "Filter"@),
{
    reveal_strlit("Preamp:");
    reveal_strlit("Filter");
    assert(line.subrange(0, 7)[0] == line[0]);
    if has_prefix(line, "Filter"@) {
        assert(line.subrange(0, 6)[0] == line[0]);
    }
}

/// Every filter that is read has a shelf or peak type and three numbers.
pub proof fn law_filters_are_complete(content: Seq<char>, i: int)
    requires
        0 <= i < filters_of(lines(content)).len(),
    ensures
        1 <= filters_of(lines(content))[i].type_code <= 3,
        is_float(filters_of(lines(content))[i].freq),
        is_float(filters_of(lines(content))[i].gain),
        is_float(filters_of(lines(content))[i].q),
{
    lemma_filters_complete(lines(content), i);
}

proof fn lemma_filters_complete(ls: Seq<Seq<char>>, i: int)
    requires
        0 <= i < filters_of(ls).len(),
    ensures
        1 <= filters_of(ls)[i].type_code <= 3,
        is_float(filters_of(ls)[i].freq),
        is_float(filters_of(ls)[i].gain),
        is_float(filters_of(ls)[i].q),
    decreases ls.len(),
{
    if i < filters_of(ls.drop_last()).len() {
        lemma_filters_complete(ls.drop_last(), i);
    }
}

/// The preamplification that is read is a number.
pub proof fn law_preamp_is_number(ls: Seq<Seq<char>>)
    ensures
        is_float(preamp_of(ls)),
    decreases ls.len(),
{
    if ls.len() == 0 {
        reveal_strlit("0.0");
        let s = "0.0"@;
        lemma_digit_run_is(s, 1);
        assert(s.skip(2) =~= seq!['0']);
        lemma_digit_run_is(s.skip(2), 1);
        assert(s.skip(2).skip(1).len() == 0);
    } else {
        law_preamp_is_number(ls.drop_last());
    }
}

/// Whether one of the lines sets the preamplification.
pub open spec fn sets_preamp(ls: Seq<Seq<char>>) -> bool {
    exists|i: int| 0 <= i < ls.len() && preamp_on(trimmed(#[trigger] ls[i])) is Some
}

/// Lines after other lines add their filters, and set the preamplification
/// where they do.
proof fn lemma_more_lines(x: Seq<Seq<char>>, y: Seq<Seq<char>>)
    ensures
        filters_of(x + y) == filters_of(x) + filters_of(y),
        preamp_of(x + y) == if sets_preamp(y) {
            preamp_of(y)
        } else {
            preamp_of(x)
        },
        sets_preamp(x + y) == (sets_preamp(x) || sets_preamp(y)),
    decreases y.len(),
{
    let all = x + y;
    if y.len() == 0 {
        assert(all == x);
        assert(filters_of(x) + filters_of(y) == filters_of(x));
    } else {
        let front = y.drop_last();
        lemma_more_lines(x, front);
        assert(all.drop_last() == x + front);
        assert(all.last() == y.last());
        match filter_of(trimmed(y.last())) {
            Some(f) => assert(filters_of(x) + filters_of(front).push(f) == (filters_of(x)
                + filters_of(front)).push(f)),
            None => {},
        }
        if sets_preamp(front) {
            let i = choose|i: int|
                0 <= i < front.len() && preamp_on(trimmed(#[trigger] front[i])) is Some;
            assert(y[i] == front[i]);
        }
        if preamp_on(trimmed(y.last())) is Some {
            assert(preamp_on(trimmed(y[y.len() - 1])) is Some);
        } else if sets_preamp(y) {
            let i = choose|i: int| 0 <= i < y.len() && preamp_on(trimmed(#[trigger] y[i])) is Some;
            assert(i < y.len() - 1);
            assert(front[i] == y[i]);
        }
    }
    lemma_sets_preamp(x, y);
}

proof fn lemma_sets_preamp(x: Seq<Seq<char>>, y: Seq<Seq<char>>)
    ensures
        sets_preamp(x + y) == (sets_preamp(x) || sets_preamp(y)),
{
    let all = x + y;
    if sets_preamp(x) {
        let i = choose|i: int| 0 <= i < x.len() && preamp_on(trimmed(#[trigger] x[i])) is Some;
        assert(all[i] == x[i]);
    }
    if sets_preamp(y) {
        let i = choose|i: int| 0 <= i < y.len() && preamp_on(trimmed(#[trigger] y[i])) is Some;
        assert(all[x.len() + i] == y[i]);
    }
    if sets_preamp(all) {
        let i = choose|i: int| 0 <= i < all.len() && preamp_on(trimmed(#[trigger] all[i])) is Some;
        if i < x.len() {
            assert(x[i] == all[i]);
        } else {
            assert(y[i - x.len()] == all[i]);
        }
    }
}

/// White space at the end of a text is trimmed anyway.
proof fn lemma_trimmed_end(s: Seq<char>)
    requires
        s.len() > 0,
        is_white(s.last()),
    ensures
        trimmed(s.drop_last()) == trimmed(s),
    decreases s.len(),
{
    let t = s.drop_last();
    if is_white(s[0]) {
        if s.len() > 1 {
            lemma_trimmed_end(s.skip(1));
            assert(s.skip(1).drop_last() == t.skip(1));
            assert(s.skip(1).last() == s.last());
        } else {
            assert(s.skip(1) == t);
        }
    } else {
        assert(t[0] == s[0]);
    }
}

/// One line gives the same with or without its carriage return.
proof fn lemma_one_line(s: Seq<char>)
    ensures
        filters_of(seq![without_cr(s)]) == filters_of(seq![s]),
        preamp_of(seq![without_cr(s)]) == preamp_of(seq![s]),
        sets_preamp(seq![without_cr(s)]) == sets_preamp(seq![s]),
{
    let x = seq![without_cr(s)];
    let y = seq![s];
    if without_cr(s) != s {
        lemma_trimmed_end(s);
    }
    assert(trimmed(x[0]) == trimmed(y[0]));
    assert(x.drop_last() == y.drop_last());
    assert(x.last() == x[0] && y.last() == y[0]);
    if sets_preamp(x) {
        assert(preamp_on(trimmed(y[0])) is Some);
    }
    if sets_preamp(y) {
        assert(preamp_on(trimmed(x[0])) is Some);
    }
}

/// An empty line gives nothing.
proof fn lemma_empty_line()
    ensures
        filters_of(seq![Seq::<char>::empty()]) == Seq::<FilterText>::empty(),
        preamp_of(seq![Seq::<char>::empty()]) == preamp_of(seq![]),
        !sets_preamp(seq![Seq::<char>::empty()]),
{
    reveal_strlit("Filter");
    reveal_strlit("Preamp:");
    reveal_with_fuel(filters_of, 2);
    reveal_with_fuel(preamp_of, 2);
    let x = seq![Seq::<char>::empty()];
    assert(x.drop_last() == Seq::<Seq<char>>::empty());
    assert(trimmed(x[0]).len() == 0);
    assert(filter_of(trimmed(x.last())) is None);
    assert(preamp_on(trimmed(x.last())) is None);
}

/// Two texts with a line break between them give the filters of the first and
/// then those of the second, and the preamplification of the second if it sets
/// one, else that of the first.
pub proof fn law_joined_profiles(a: Seq<char>, b: Seq<char>)
    ensures
        filters_of(lines(a + seq!['\n'] + b)) == filters_of(lines(a)) + filters_of(lines(b)),
        preamp_of(lines(a + seq!['\n'] + b)) == if sets_preamp(lines(b)) {
            preamp_of(lines(b))
        } else {
            preamp_of(lines(a))
        },
        sets_preamp(lines(a + seq!['\n'] + b)) == (sets_preamp(lines(a)) || sets_preamp(lines(b))),
    decreases a.len(),
{
    let s = a + seq!['\n'] + b;
    let n = before(a, '\n');
    lemma_before(a, '\n');
    lemma_before_is(s, '\n', n);
    assert(s.take(n as int) == a.take(n as int));
    let head = seq![without_cr(a.take(n as int))];
    if n >= a.len() {
        assert(a.take(n as int) == a);
        assert(s.skip(n as int + 1) == b);
        lemma_more_lines(head, lines(b));
        if a.len() == 0 {
            assert(without_cr(a) == Seq::<char>::empty());
            lemma_empty_line();
            assert(filters_of(head) + filters_of(lines(b)) == filters_of(lines(a)) + filters_of(
                lines(b),
            ));
        } else {
            lemma_one_line(a);
            assert(lines(a) == seq![a]);
        }
    } else {
        let rest = a.skip(n as int + 1);
        assert(s.skip(n as int + 1) == rest + seq!['\n'] + b);
        law_joined_profiles(rest, b);
        lemma_more_lines(head, lines(rest));
        lemma_more_lines(head, lines(rest + seq!['\n'] + b));
        assert(filters_of(head) + (filters_of(lines(rest)) + filters_of(lines(b))) == filters_of(head)
            + filters_of(lines(rest)) + filters_of(lines(b)));
    }
}

/// Whether the first token equal to `kw` is followed by `value`.
pub open spec fn first_is_followed_by(toks: Seq<Seq<char>>, kw: Seq<char>, value: Seq<char>) -> bool {
    exists|i: int|
        #![trigger toks[i]]
        0 <= i < toks.len() - 1 && toks[i] == kw && toks[i + 1] == value && (forall|j: int|
            0 <= j < i ==> #[trigger] toks[j] != kw)
}

proof fn lemma_token_index(toks: Seq<Seq<char>>, kw: Seq<char>)
    ensures
        token_index(toks, kw) <= toks.len(),
        token_index(toks, kw) < toks.len() ==> toks[token_index(toks, kw) as int] == kw,
        forall|i: int| 0 <= i < token_index(toks, kw) ==> #[trigger] toks[i] != kw,
    decreases toks.len(),
{
    if toks.len() > 0 && toks[0] != kw {
        lemma_token_index(toks.skip(1), kw);
        assert forall|i: int| 0 <= i < token_index(toks, kw) implies #[trigger] toks[i] != kw by {
            if i > 0 {
                assert(toks.skip(1)[i - 1] == toks[i]);
            }
        }
    }
}

proof fn lemma_number_after(toks: Seq<Seq<char>>, kw: Seq<char>, value: Seq<char>)
    ensures
        number_after(toks, kw) == Some(value) <==> (first_is_followed_by(toks, kw, value) && is_float(
            value,
        )),
{
    lemma_token_index(toks, kw);
    let i = token_index(toks, kw) as int;
    if number_after(toks, kw) == Some(value) {
        assert(toks[i] == kw && toks[i + 1] == value);
        assert(first_is_followed_by(toks, kw, value));
    }
    if first_is_followed_by(toks, kw, value) {
        let k = choose|k: int|
            #![trigger toks[k]]
            0 <= k < toks.len() - 1 && toks[k] == kw && toks[k + 1] == value && (forall|j: int|
                0 <= j < k ==> #[trigger] toks[j] != kw);
        lemma_token_index_is(toks, kw, k as nat);
    }
}

/// A line gives a filter just when it begins with `Filter`, holds the word `ON`,
/// a word for its type, and numbers after its first `Fc`, `Gain` and `Q`: the
/// frequency, the gain and the quality are those three, each after its own word.
#[verifier::rlimit(40)]
pub proof fn law_filter_is_what_its_line_says(line: Seq<char>, f: FilterText)
    ensures
        filter_of(line) == Some(f) <==> {
            let toks = words(line);
            &&& line.len() >= 6 && line.take(6) == "Filter"@
            &&& toks.contains("ON"@)
            &&& f.type_code == 1 <==> (toks.contains("LSC"@) || toks.contains("LS"@))
            &&& f.type_code == 3 <==> (toks.contains("HSC"@) || toks.contains("HS"@)) && !(
            toks.contains("LSC"@) || toks.contains("LS"@))
            &&& f.type_code == 2 <==> (toks.contains("PK"@) || toks.contains("PEQ"@)) && !(
            toks.contains("LSC"@) || toks.contains("LS"@) || toks.contains("HSC"@) || toks.contains(
                "HS"@,
            ))
            &&& 1 <= f.type_code <= 3
            &&& first_is_followed_by(toks, "Fc"@, f.freq) && is_float(f.freq)
            &&& first_is_followed_by(toks, "Gain"@, f.gain) && is_float(f.gain)
            &&& first_is_followed_by(toks, "Q"@, f.q) && is_float(f.q)
        },
{
    reveal_strlit("Filter");
    let toks = words(line);
    lemma_number_after(toks, "Fc"@, f.freq);
    lemma_number_after(toks, "Gain"@, f.gain);
    lemma_number_after(toks, "Q"@, f.q);
    if line.len() >= 6 {
        assert(line.take(6) == line.subrange(0, 6));
    }
}

/// A number does not begin with a letter that a word of a filter line begins with.
proof fn lemma_number_start(s: Seq<char>)
    requires
        is_float(s),
    ensures
        s.len() > 0,
        forall|i: int| 0 <= i < s.len() ==> !is_white(#[trigger] s[i]) && s[i] != '\n',
        !(s[0] == 'O' || s[0] == 'L' || s[0] == 'H' || s[0] == 'P' || s[0] == 'F' || s[0] == 'G'
            || s[0] == 'Q'),
{
    reveal_strlit("inf");
    reveal_strlit("infinity");
    reveal_strlit("nan");
    lemma_number_chars(s);
    assert forall|i: int| 0 <= i < s.len() implies !is_white(#[trigger] s[i]) && s[i] != '\n' by {
        assert(is_number_char(s[i]));
    }
    let u = without_sign(s);
    if u == s {
        if is_unsigned_number(u) {
            lemma_digit_run(u);
            if digit_run(u) > 0 {
                assert(is_digit(u[0]));
            }
        } else {
            let l = ascii_lower(u);
            assert(l[0] == ascii_lower_char(u[0]));
        }
    }
}

/// The words of a filter line: its number, its state, its type, and its three
/// numbers.
pub open spec fn filter_words(
    id: Seq<char>,
    state: Seq<char>,
    kind: Seq<char>,
    freq: Seq<char>,
    gain: Seq<char>,
    q: Seq<char>,
) -> Seq<Seq<char>> {
    seq![
        "Filter"@,
        id,
        state,
        kind,
        "Fc"@,
        freq,
        "Hz"@,
        "Gain"@,
        gain,
        "dB"@,
        "Q"@,
        q,
    ]
}

/// A filter line, such as `Filter 1: ON PK Fc 1000 Hz Gain -2.5 dB Q 1.41`: its
/// words with a space between each two.
pub open spec fn filter_line(
    id: Seq<char>,
    state: Seq<char>,
    kind: Seq<char>,
    freq: Seq<char>,
    gain: Seq<char>,
    q: Seq<char>,
) -> Seq<char> {
    separated(filter_words(id, state, kind, freq, gain, q), ' ')
}

/// Whether a text can number a filter: it ends with a colon and holds no white
/// space.
pub open spec fn is_filter_id(id: Seq<char>) -> bool {
    &&& id.len() > 0
    &&& id.last() == ':'
    &&& forall|i: int| 0 <= i < id.len() ==> !is_white(#[trigger] id[i])
}

#[verifier::rlimit(40)]
proof fn lemma_filter_line(
    id: Seq<char>,
    state: Seq<char>,
    kind: Seq<char>,
    freq: Seq<char>,
    gain: Seq<char>,
    q: Seq<char>,
)
    requires
        is_filter_id(id),
        state.len() > 0,
        forall|i: int| 0 <= i < state.len() ==> !is_white(#[trigger] state[i]),
        kind.len() > 0,
        forall|i: int| 0 <= i < kind.len() ==> !is_white(#[trigger] kind[i]),
        is_float(freq),
        is_float(gain),
        is_float(q),
    ensures
        ({
            let line = filter_line(id, state, kind, freq, gain, q);
            &&& words(line) == filter_words(id, state, kind, freq, gain, q)
            &&& trimmed(line) == line
            &&& has_prefix(line, "Filter"@)
            &&& lines(line) == seq![line]
        }),
{
    reveal_strlit("Filter");
    reveal_strlit("Fc");
    reveal_strlit("Hz");
    reveal_strlit("Gain");
    reveal_strlit("dB");
    reveal_strlit("Q");
    lemma_number_start(freq);
    lemma_number_start(gain);
    lemma_number_start(q);
    let ws = filter_words(id, state, kind, freq, gain, q);
    let line = filter_line(id, state, kind, freq, gain, q);
    assert forall|i: int| 0 <= i < ws.len() implies (#[trigger] ws[i]).len() > 0 by {}
    assert forall|i: int, k: int| 0 <= i < ws.len() && 0 <= k < ws[i].len() implies !is_white(
        #[trigger] ws[i][k],
    ) by {
        let w = ws[i];
        assert(w == "Filter"@ || w == id || w == state || w == kind || w == "Fc"@ || w == freq || w
            == "Hz"@ || w == "Gain"@ || w == gain || w == "dB"@ || w == "Q"@ || w == q);
        assert(!is_white(w[k]));
    }
    law_words_read_back(ws);
    assert forall|i: int, k: int| 0 <= i < ws.len() && 0 <= k < ws[i].len() implies #[trigger] ws[i][k]
        != '\n' by {
        assert(!is_white(ws[i][k]));
    }
    lemma_separated(ws, ' ', '\n');
    assert(line.take(6) == "Filter"@);
    assert(line.take(6)[0] == line[0]);
    assert(!is_white(q[q.len() - 1]));
    lemma_trim_clean(line);
    assert(line.subrange(0, 6) == line.take(6));
    law_line_endings(line, seq![]);
}

/// The type codes of the six words for a type.
pub open spec fn is_kind(kind: Seq<char>, code: int) -> bool {
    ||| code == 1 && (kind == "LSC"@ || kind == "LS"@)
    ||| code == 2 && (kind == "PK"@ || kind == "PEQ"@)
    ||| code == 3 && (kind == "HSC"@ || kind == "HS"@)
}

/// A line `Filter <id> ON <kind> Fc <freq> Hz Gain <gain> dB Q <q>` gives exactly
/// one filter: of that type, with that frequency, that gain and that quality,
/// and sets no preamplification. With any other word in place of `ON` it gives
/// none.
#[verifier::rlimit(40)]
pub proof fn law_filter_line_is_read(
    id: Seq<char>,
    state: Seq<char>,
    kind: Seq<char>,
    code: i32,
    freq: Seq<char>,
    gain: Seq<char>,
    q: Seq<char>,
)
    requires
        is_filter_id(id),
        state.len() > 0,
        forall|i: int| 0 <= i < state.len() ==> !is_white(#[trigger] state[i]),
        is_kind(kind, code as int),
        is_float(freq),
        is_float(gain),
        is_float(q),
    ensures
        ({
            let line = filter_line(id, state, kind, freq, gain, q);
            &&& state == "ON"@ ==> filters_of(lines(line)) == seq![
                FilterText { type_code: code, freq, gain, q },
            ]
            &&& state != "ON"@ ==> filters_of(lines(line)) == Seq::<FilterText>::empty()
            &&& !sets_preamp(lines(line))
        }),
{
    reveal_strlit("Filter");
    reveal_strlit("ON");
    reveal_strlit("LSC");
    reveal_strlit("LS");
    reveal_strlit("PK");
    reveal_strlit("PEQ");
    reveal_strlit("HSC");
    reveal_strlit("HS");
    reveal_strlit("Fc");
    reveal_strlit("Hz");
    reveal_strlit("Gain");
    reveal_strlit("dB");
    reveal_strlit("Q");
    reveal_strlit("Preamp:");
    reveal_with_fuel(filters_of, 2);
    let line = filter_line(id, state, kind, freq, gain, q);
    let toks = filter_words(id, state, kind, freq, gain, q);
    let f = FilterText { type_code: code, freq, gain, q };
    lemma_number_start(freq);
    lemma_number_start(gain);
    lemma_number_start(q);
    assert forall|i: int| 0 <= i < kind.len() implies !is_white(#[trigger] kind[i]) by {}
    lemma_filter_line(id, state, kind, freq, gain, q);
    assert(line.subrange(0, 6)[0] == line[0]);
    assert(!has_prefix(line, "Preamp:"@)) by {
        if has_prefix(line, "Preamp:"@) {
            assert(line.subrange(0, 7)[0] == line[0]);
        }
    }
    let one = seq![line];
    assert(one.drop_last() == Seq::<Seq<char>>::empty());
    assert(one.last() == line);
    lemma_filter_tokens(id, state, kind, code, freq, gain, q);
    assert(line.take(6) == line.subrange(0, 6));
    law_filter_is_what_its_line_says(line, f);
    if state == "ON"@ {
        assert(filter_of(line) == Some(f));
        assert(filters_of(one) == seq![f]);
    } else {
        assert(filter_of(line) is None);
    }
}

#[verifier::rlimit(40)]
proof fn lemma_filter_tokens(
    id: Seq<char>,
    state: Seq<char>,
    kind: Seq<char>,
    code: i32,
    freq: Seq<char>,
    gain: Seq<char>,
    q: Seq<char>,
)
    requires
        is_filter_id(id),
        is_kind(kind, code as int),
        is_float(freq),
        is_float(gain),
        is_float(q),
    ensures
        ({
            let toks = filter_words(id, state, kind, freq, gain, q);
            &&& toks.contains("ON"@) <==> state == "ON"@
            &&& state == "ON"@ ==> {
                &&& code == 1 <==> (toks.contains("LSC"@) || toks.contains("LS"@))
                &&& code == 3 <==> (toks.contains("HSC"@) || toks.contains("HS"@))
                &&& code == 2 <==> (toks.contains("PK"@) || toks.contains("PEQ"@))
                &&& first_is_followed_by(toks, "Fc"@, freq)
                &&& first_is_followed_by(toks, "Gain"@, gain)
                &&& first_is_followed_by(toks, "Q"@, q)
            }
        }),
{
    reveal_strlit("Filter");
    reveal_strlit("ON");
    reveal_strlit("LSC");
    reveal_strlit("LS");
    reveal_strlit("PK");
    reveal_strlit("PEQ");
    reveal_strlit("HSC");
    reveal_strlit("HS");
    reveal_strlit("Fc");
    reveal_strlit("Hz");
    reveal_strlit("Gain");
    reveal_strlit("dB");
    reveal_strlit("Q");
    let toks = filter_words(id, state, kind, freq, gain, q);
    lemma_number_start(freq);
    lemma_number_start(gain);
    lemma_number_start(q);
    assert(toks[2] == state && toks[3] == kind);
    assert(toks[4] == "Fc"@ && toks[5] == freq);
    assert(toks[7] == "Gain"@ && toks[8] == gain);
    assert(toks[10] == "Q"@ && toks[11] == q);
    if state != "ON"@ {
        assert forall|i: int| 0 <= i < toks.len() implies toks[i] != "ON"@ by {
            assert("ON"@[0] == 'O');
            assert("ON"@.last() == 'N');
            assert(toks[i] == state || toks[i][0] != 'O' || toks[i].last() != 'N');
        }
    } else {
        assert forall|i: int| 0 <= i < toks.len() && i != 3 implies toks[i] != "LSC"@ && toks[i]
            != "LS"@ && toks[i] != "HSC"@ && toks[i] != "HS"@ && toks[i] != "PK"@ && toks[i]
            != "PEQ"@ by {
            assert(toks[i] == id || toks[i] == "Hz"@ || (toks[i][0] != 'L' && toks[i][0] != 'H'
                && toks[i][0] != 'P'));
            assert("LSC"@.last() == 'C' && "LS"@.last() == 'S' && "HSC"@.last() == 'C'
                && "HS"@.last() == 'S' && "PK"@.last() == 'K' && "PEQ"@.last() == 'Q');
            assert("Hz"@.last() == 'z');
        }
        assert("LSC"@.len() == 3 && "HSC"@.len() == 3 && "PEQ"@.len() == 3);
        assert("LSC"@[0] == 'L' && "LS"@[0] == 'L' && "HSC"@[0] == 'H' && "HS"@[0] == 'H'
            && "PK"@[0] == 'P' && "PEQ"@[0] == 'P');
        assert("Fc"@[0] == 'F' && "Fc"@[1] == 'c' && "Filter"@[1] == 'i');
        assert("Fc"@.last() == 'c' && "Gain"@.last() == 'n' && "Gain"@[0] == 'G' && "Q"@[0] == 'Q'
            && "Q"@.last() == 'Q');
        assert("ON"@[0] == 'O' && "Hz"@[0] == 'H' && "dB"@[0] == 'd');
        assert forall|j: int| 0 <= j < 4 implies #[trigger] toks[j] != "Fc"@ by {}
        assert forall|j: int| 0 <= j < 7 implies #[trigger] toks[j] != "Gain"@ by {}
        assert forall|j: int| 0 <= j < 10 implies #[trigger] toks[j] != "Q"@ by {}
        assert(first_is_followed_by(toks, "Fc"@, freq));
        assert(first_is_followed_by(toks, "Gain"@, gain));
        assert(first_is_followed_by(toks, "Q"@, q));
        assert(toks.contains(kind));
    }
}

/// A line sets the preamplification just when it begins with `Preamp:` and the
/// first word after that is a number, which is the one that is set.
pub proof fn law_preamp_is_what_its_line_says(line: Seq<char>, p: Seq<char>)
    ensures
        preamp_on(line) == Some(p) <==> {
            &&& line.len() >= 7 && line.take(7) == "Preamp:"@
            &&& words(line.skip(7)).len() > 0
            &&& words(line.skip(7))[0] == p
            &&& is_float(p)
        },
{
    reveal_strlit("Preamp:");
    if line.len() >= 7 {
        assert(line.take(7) == line.subrange(0, 7));
    }
}

/// The last line that sets the preamplification decides; where none does it is
/// zero.
pub proof fn law_last_preamp_decides(ls: Seq<Seq<char>>, i: int)
    ensures
        0 <= i < ls.len() && preamp_on(trimmed(ls[i])) is Some && (forall|k: int|
            i < k < ls.len() ==> preamp_on(trimmed(#[trigger] ls[k])) is None) ==> preamp_on(
            trimmed(ls[i]),
        ) == Some(preamp_of(ls)),
        (forall|k: int| 0 <= k < ls.len() ==> preamp_on(trimmed(#[trigger] ls[k])) is None)
            ==> preamp_of(ls) == "0.0"@,
    decreases ls.len(),
{
    if ls.len() > 0 {
        let front = ls.drop_last();
        law_last_preamp_decides(front, i);
        assert forall|k: int| 0 <= k < front.len() implies #[trigger] front[k] == ls[k] by {}
        assert(ls.last() == ls[ls.len() - 1]);
        if forall|k: int| 0 <= k < ls.len() ==> preamp_on(trimmed(#[trigger] ls[k])) is None {
            assert forall|k: int| 0 <= k < front.len() implies preamp_on(
                trimmed(#[trigger] front[k]),
            ) is None by {
                assert(front[k] == ls[k]);
            }
        }
        if 0 <= i < ls.len() - 1 && (forall|k: int|
            i < k < ls.len() ==> preamp_on(trimmed(#[trigger] ls[k])) is None) {
            assert forall|k: int| i < k < front.len() implies preamp_on(
                trimmed(#[trigger] front[k]),
            ) is None by {
                assert(front[k] == ls[k]);
            }
            assert(front[i] == ls[i]);
        }
    }
}

/// Every line is read by itself: what a list of lines gives is what its lines
/// give, one after the other.
pub proof fn law_lines_are_read_one_by_one(x: Seq<Seq<char>>, y: Seq<Seq<char>>, line: Seq<char>)
    ensures
        filters_of(x + y) == filters_of(x) + filters_of(y),
        filters_of(seq![line]) == match filter_of(trimmed(line)) {
            Some(f) => seq![f],
            None => seq![],
        },
        filters_of(Seq::<Seq<char>>::empty()) == Seq::<FilterText>::empty(),
{
    lemma_more_lines(x, y);
    reveal_with_fuel(filters_of, 2);
    let one = seq![line];
    assert(one.drop_last() == Seq::<Seq<char>>::empty());
    assert(one.last() == line);
    match filter_of(trimmed(line)) {
        Some(f) => {
            assert(filters_of(one) == seq![f]);
        },
        None => {},
    }
}

/// A line `Preamp: <p> dB` sets the preamplification to that number and gives no
/// filter.
#[verifier::rlimit(40)]
pub proof fn law_preamp_line_is_read(p: Seq<char>)
    requires
        is_float(p),
    ensures
        ({
            let line = separated(seq!["Preamp:"@, p, "dB"@], ' ');
            &&& preamp_of(lines(line)) == p
            &&& filters_of(lines(line)) == Seq::<FilterText>::empty()
            &&& sets_preamp(lines(line))
        }),
{
    reveal_strlit("Preamp:");
    reveal_strlit("dB");
    reveal_strlit("Filter");
    lemma_number_start(p);
    let ws = seq!["Preamp:"@, p, "dB"@];
    let line = separated(ws, ' ');
    assert forall|i: int| 0 <= i < ws.len() implies (#[trigger] ws[i]).len() > 0 by {}
    assert forall|i: int, k: int| 0 <= i < ws.len() && 0 <= k < ws[i].len() implies #[trigger] ws[i][k]
        != '\n' by {
        let w = ws[i];
        assert(w == "Preamp:"@ || w == p || w == "dB"@);
        if w == p {
            assert(!is_white(p[k]));
        }
    }
    lemma_separated(ws, ' ', '\n');
    law_line_endings(line, seq![]);
    assert(line.take(7) == "Preamp:"@);
    assert(line.take(7)[0] == line[0]);
    assert("dB"@.last() == 'B');
    assert(ws.last() == "dB"@);
    lemma_trim_clean(line);
    let rest = separated(ws.skip(1), ' ');
    assert(line.skip(7) == seq![' '] + rest);
    assert(line.skip(7).skip(1) == rest);
    assert(words(line.skip(7)) == words(rest));
    let two = ws.skip(1);
    assert(two == seq![p, "dB"@]);
    assert forall|i: int| 0 <= i < two.len() implies (#[trigger] two[i]).len() > 0 by {}
    assert forall|i: int, k: int| 0 <= i < two.len() && 0 <= k < two[i].len() implies !is_white(
        #[trigger] two[i][k],
    ) by {
        let w = two[i];
        assert(w == p || w == "dB"@);
        if w == p {
            assert(!is_white(p[k]));
        }
    }
    law_words_read_back(two);
    law_preamp_is_what_its_line_says(line, p);
    assert(line.subrange(0, 7) == line.take(7));
    lemma_preamp_is_no_filter(line);
    let one = seq![line];
    assert(one[0] == line);
    assert(one.last() == line);
    law_lines_are_read_one_by_one(seq![], seq![], line);
    assert(preamp_on(trimmed(one[0])) is Some);
}

/// A filter as it is written: its number, the word for its type, and what it is.
pub struct WrittenFilter {
    pub id: Seq<char>,
    pub kind: Seq<char>,
    pub filter: FilterText,
}

/// Whether a filter can be written on a line.
pub open spec fn is_written(w: WrittenFilter) -> bool {
    &&& is_filter_id(w.id)
    &&& is_kind(w.kind, w.filter.type_code as int)
    &&& is_float(w.filter.freq)
    &&& is_float(w.filter.gain)
    &&& is_float(w.filter.q)
}

/// A profile as it is written: a line for the preamplification, and one for each
/// filter.
pub open spec fn profile_text(preamp: Seq<char>, ws: Seq<WrittenFilter>) -> Seq<char>
    decreases ws.len(),
{
    if ws.len() == 0 {
        separated(seq!["Preamp:"@, preamp, "dB"@], ' ')
    } else {
        let w = ws.last();
        profile_text(preamp, ws.drop_last()) + seq!['\n'] + filter_line(
            w.id,
            "ON"@,
            w.kind,
            w.filter.freq,
            w.filter.gain,
            w.filter.q,
        )
    }
}

/// A profile that is written out is read back: its preamplification, and its
/// filters in order.
pub proof fn law_profile_reads_back(preamp: Seq<char>, ws: Seq<WrittenFilter>)
    requires
        is_float(preamp),
        forall|i: int| 0 <= i < ws.len() ==> is_written(#[trigger] ws[i]),
    ensures
        preamp_of(lines(profile_text(preamp, ws))) == preamp,
        filters_of(lines(profile_text(preamp, ws))) == Seq::new(
            ws.len(),
            |i: int| ws[i].filter,
        ),
    decreases ws.len(),
{
    let said = Seq::new(ws.len(), |i: int| ws[i].filter);
    if ws.len() == 0 {
        law_preamp_line_is_read(preamp);
        assert(said == Seq::<FilterText>::empty());
    } else {
        let front = ws.drop_last();
        assert forall|i: int| 0 <= i < front.len() implies is_written(#[trigger] front[i]) by {
            assert(front[i] == ws[i]);
        }
        law_profile_reads_back(preamp, front);
        let w = ws.last();
        assert(w == ws[ws.len() - 1]);
        reveal_strlit("ON");
        assert forall|i: int| 0 <= i < "ON"@.len() implies !is_white(#[trigger] "ON"@[i]) by {}
        law_filter_line_is_read(
            w.id,
            "ON"@,
            w.kind,
            w.filter.type_code,
            w.filter.freq,
            w.filter.gain,
            w.filter.q,
        );
        let line = filter_line(
            w.id,
            "ON"@,
            w.kind,
            w.filter.freq,
            w.filter.gain,
            w.filter.q,
        );
        law_joined_profiles(profile_text(preamp, front), line);
        assert(said == Seq::new(front.len(), |i: int| front[i].filter) + seq![w.filter]);
    }
}

} // verus!
