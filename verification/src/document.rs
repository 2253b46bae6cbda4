//! Markdown documents as lines, and what is read back of the rows of a table.

use crate::number::{
    digit_run, ends_number, is_float, is_unsigned_number, lemma_digit_run, without_sign,
};
use crate::text::{
    ascii_lower, ascii_lower_char, cells, has_text, is_digit, is_white, lemma_before_is, lines,
    occurs_at, strings, trim_end, trimmed, without_cr,
};
use vstd::prelude::*;
use vstd::string::*;

verus! {

/// The text of a document with the given lines, each ended by a line feed.
pub open spec fn joined(ls: Seq<Seq<char>>) -> Seq<char>
    decreases ls.len(),
{
    if ls.len() == 0 {
        seq![]
    } else {
        ls[0] + seq!['\n'] + joined(ls.skip(1))
    }
}

/// Whether `s` can stand as a line of a document: it holds no line feed and does
/// not end with a carriage return.
pub open spec fn is_line(s: Seq<char>) -> bool {
    &&& forall|i: int| 0 <= i < s.len() ==> s[i] != '\n'
    &&& s.len() > 0 ==> s.last() != '\r'
}

/// A line put at the end of a document ends its text.
pub proof fn lemma_joined_push(ls: Seq<Seq<char>>, l: Seq<char>)
    ensures
        joined(ls.push(l)) == joined(ls) + l + seq!['\n'],
    decreases ls.len(),
{
    if ls.len() == 0 {
        assert(ls.push(l).skip(1) == Seq::<Seq<char>>::empty());
        assert(joined(ls.push(l).skip(1)) == Seq::<char>::empty());
        assert(joined(ls.push(l)) == joined(ls) + l + seq!['\n']);
    } else {
        lemma_joined_push(ls.skip(1), l);
        assert(ls.push(l).skip(1) == ls.skip(1).push(l));
        assert(joined(ls.push(l)) == joined(ls) + l + seq!['\n']);
    }
}

/// The lines of a document are read back from its text.
pub proof fn law_lines_read_back(ls: Seq<Seq<char>>)
    requires
        forall|i: int| 0 <= i < ls.len() ==> is_line(#[trigger] ls[i]),
    ensures
        lines(joined(ls)) == ls,
    decreases ls.len(),
{
    if ls.len() > 0 {
        let s = joined(ls);
        let l = ls[0];
        let rest = ls.skip(1);
        assert forall|i: int| 0 <= i < rest.len() implies is_line(#[trigger] rest[i]) by {
            assert(rest[i] == ls[i + 1]);
        }
        law_lines_read_back(rest);
        assert(is_line(ls[0]));
        assert(s[l.len() as int] == '\n');
        lemma_before_is(s, '\n', l.len());
        assert(s.take(l.len() as int) == l);
        assert(s.skip(l.len() as int + 1) == joined(rest));
        assert(without_cr(l) == l);
        assert(seq![l] + rest == ls);
    }
}

/// Puts a line at the end of a document.
pub fn push_line(ls: &mut Vec<String>, line: &str)
    ensures
        strings(final(ls)@) == strings(old(ls)@).push(line@),
{
    let ghost had = ls@;
    ls.push(line.to_owned());
    assert(strings(ls@) == strings(had).push(line@));
}

/// Joins the lines of a document.
pub fn join_lines(ls: &Vec<String>) -> (r: String)
    ensures
        r@ == joined(strings(ls@)),
{
    let mut r: String = String::new();
    let mut i: usize = 0;
    let ghost all = strings(ls@);
    assert(all.take(0) == Seq::<Seq<char>>::empty());
    while i < ls.len()
        invariant
            i <= ls.len(),
            all == strings(ls@),
            r@ == joined(all.take(i as int)),
        decreases ls.len() - i,
    {
        proof {
            lemma_joined_push(all.take(i as int), all[i as int]);
            assert(all.take(i + 1) == all.take(i as int).push(all[i as int]));
        }
        r.append(ls[i].as_str());
        r.push('\n');
        i += 1;
    }
    assert(all.take(i as int) == all);
    r
}

/// Whether no white space surrounds `s`.
pub open spec fn is_clean(s: Seq<char>) -> bool {
    s.len() > 0 ==> !is_white(s[0]) && !is_white(s.last())
}

/// Whether `s` is made of white space.
pub open spec fn is_blank(s: Seq<char>) -> bool {
    forall|i: int| 0 <= i < s.len() ==> is_white(s[i])
}

/// Trimming takes away the white space around a clean text, and no more.
pub proof fn lemma_trim(pre: Seq<char>, s: Seq<char>, post: Seq<char>)
    requires
        is_blank(pre),
        is_clean(s),
        is_blank(post),
    ensures
        trimmed(pre + s + post) == s,
    decreases pre.len() + post.len(),
{
    if pre.len() > 0 {
        let t = pre + s + post;
        assert(t[0] == pre[0]);
        assert(t.skip(1) == pre.skip(1) + s + post);
        assert forall|i: int| 0 <= i < pre.skip(1).len() implies is_white(pre.skip(1)[i]) by {
            assert(pre.skip(1)[i] == pre[i + 1]);
        }
        lemma_trim(pre.skip(1), s, post);
    } else {
        assert(pre + s + post == s + post);
        if s.len() > 0 {
            assert((s + post)[0] == s[0]);
            lemma_trim_end(s, post);
        } else if post.len() > 0 {
            assert(s + post == post);
            assert(post.skip(1) == seq![] + s + post.skip(1));
            assert forall|i: int| 0 <= i < post.skip(1).len() implies is_white(post.skip(1)[i]) by {
                assert(post.skip(1)[i] == post[i + 1]);
            }
            lemma_trim(seq![], s, post.skip(1));
        } else {
            assert(s + post == s);
        }
    }
}

proof fn lemma_trim_end(s: Seq<char>, post: Seq<char>)
    requires
        is_clean(s),
        is_blank(post),
    ensures
        trim_end(s + post) == s,
    decreases post.len(),
{
    if post.len() > 0 {
        assert((s + post).last() == post.last());
        assert((s + post).drop_last() == s + post.drop_last());
        assert forall|i: int| 0 <= i < post.drop_last().len() implies is_white(
            post.drop_last()[i],
        ) by {
            assert(post.drop_last()[i] == post[i]);
        }
        lemma_trim_end(s, post.drop_last());
    } else {
        assert(s + post == s);
    }
}

/// A clean text is its own trimming.
pub proof fn lemma_trim_clean(s: Seq<char>)
    requires
        is_clean(s),
    ensures
        trimmed(s) == s,
{
    lemma_trim(seq![], s, seq![]);
    assert(seq![] + s + seq![] == s);
}

/// The first cell ends at the first separator.
pub proof fn lemma_first_cell(s: Seq<char>, rest: Seq<char>, c: char)
    requires
        forall|i: int| 0 <= i < s.len() ==> s[i] != c,
    ensures
        cells(s + seq![c] + rest, c) == seq![s] + cells(rest, c),
{
    let t = s + seq![c] + rest;
    assert(t[s.len() as int] == c);
    lemma_before_is(t, c, s.len());
    assert(t.take(s.len() as int) == s);
    assert(t.skip(s.len() as int + 1) == rest);
}

/// A text does not hold another whose first character it lacks.
pub proof fn lemma_no_text(s: Seq<char>, p: Seq<char>)
    requires
        p.len() > 0,
        forall|i: int| 0 <= i < s.len() ==> s[i] != p[0],
    ensures
        !has_text(s, p),
{
    if has_text(s, p) {
        let i = choose|i: int| occurs_at(s, p, i);
        assert(s.subrange(i, i + p.len())[0] == s[i]);
    }
}

/// There is always a cell.
pub proof fn lemma_some_cell(s: Seq<char>, c: char)
    ensures
        cells(s, c).len() >= 1,
{
}

/// The characters that numbers are written with.
pub open spec fn is_number_char(c: char) -> bool {
    is_digit(c) || c == '+' || c == '-' || c == '.' || 'a' <= c <= 'z' || 'A' <= c <= 'Z'
}

/// A number is not empty, and written with digits, signs, points and letters.
pub proof fn lemma_number_chars(s: Seq<char>)
    requires
        is_float(s),
    ensures
        s.len() > 0,
        forall|i: int| 0 <= i < s.len() ==> is_number_char(s[i]),
{
    reveal_strlit("inf");
    reveal_strlit("infinity");
    reveal_strlit("nan");
    let u = without_sign(s);
    assert(u.len() > 0) by {
        if u.len() == 0 {
            assert(ascii_lower(u).len() == 0);
        }
    }
    assert forall|i: int| 0 <= i < u.len() implies is_number_char(u[i]) by {
        if is_unsigned_number(u) {
            lemma_unsigned_chars(u);
        } else {
            let l = ascii_lower(u);
            assert(l[i] == ascii_lower_char(u[i]));
            if l == "infinity"@ {
                assert(l.len() == 8);
                assert('a' <= l[i] <= 'z');
            } else {
                assert(l.len() == 3);
                assert('a' <= l[i] <= 'z');
            }
        }
    }
    assert forall|i: int| 0 <= i < s.len() implies is_number_char(s[i]) by {
        if u.len() < s.len() && i > 0 {
            assert(u[i - 1] == s[i]);
        }
    }
}

proof fn lemma_unsigned_chars(s: Seq<char>)
    requires
        is_unsigned_number(s),
    ensures
        forall|i: int| 0 <= i < s.len() ==> is_number_char(s[i]),
{
    let whole = digit_run(s) as int;
    lemma_digit_run(s);
    let point = whole < s.len() && s[whole] == '.';
    let rest = if point {
        s.skip(whole + 1)
    } else {
        s.skip(whole)
    };
    let fraction = if point {
        digit_run(rest) as int
    } else {
        0
    };
    lemma_digit_run(rest);
    let tail = rest.skip(fraction);
    let k = s.len() - tail.len();
    if !point {
        assert(tail == s.skip(whole));
    }
    lemma_tail_chars(tail);
    assert forall|i: int| 0 <= i < s.len() implies is_number_char(s[i]) by {
        if i >= k {
            assert(s[i] == tail[i - k]);
        } else if i > whole {
            assert(s[i] == rest[i - whole - 1]);
        }
    }
}

proof fn lemma_tail_chars(s: Seq<char>)
    requires
        ends_number(s),
    ensures
        forall|i: int| 0 <= i < s.len() ==> is_number_char(s[i]),
{
    if s.len() > 0 {
        let u = s.skip(1);
        let w = without_sign(u);
        lemma_digit_run(w);
        assert forall|i: int| 0 <= i < s.len() implies is_number_char(s[i]) by {
            if i > 0 {
                assert(s[i] == u[i - 1]);
                if i - 1 >= u.len() - w.len() {
                    assert(u[i - 1] == w[i - 1 - (u.len() - w.len())]);
                }
            }
        }
    }
}

/// A document is its lines one after the other, each with a line feed behind it.
pub proof fn law_lines_are_joined(a: Seq<Seq<char>>, b: Seq<Seq<char>>, l: Seq<char>)
    ensures
        joined(a + b) == joined(a) + joined(b),
        joined(seq![l]) == l.push('\n'),
        joined(Seq::<Seq<char>>::empty()) == Seq::<char>::empty(),
    decreases a.len(),
{
    let one = seq![l];
    assert(one.skip(1) == Seq::<Seq<char>>::empty());
    assert(joined(one.skip(1)) == Seq::<char>::empty());
    assert(joined(one) == l.push('\n'));
    if a.len() == 0 {
        assert(a + b == b);
        assert(joined(a) + joined(b) == joined(b));
    } else {
        law_lines_are_joined(a.skip(1), b, l);
        assert((a + b).skip(1) == a.skip(1) + b);
        assert((a + b)[0] == a[0]);
        assert(joined(a + b) == joined(a) + joined(b));
    }
}

} // verus!
