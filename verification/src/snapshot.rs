//! Snapshots: the files that a measurement is written to.

use crate::number::{
    decimal, law_decimal_reads_back, law_padding_keeps_number, parse_u32, parsed_u32, without_plus,
    write_padded, zero_padded,
};
use crate::text::{chars_of, ends_with, has_prefix, has_suffix, part, starts_with, strings, text_of};
use vstd::prelude::*;
use vstd::string::*;

verus! {

// ─── File names ──────────────────────────────────────────────────────────────

/// The number of a snapshot file by its name: what stands between `SNAPSHOT-`
/// and `.md`, if it is a number.
pub open spec fn snapshot_number(name: Seq<char>) -> Option<u32> {
    let rest = name.skip("SNAPSHOT-"@.len() as int);
    if has_prefix(name, "SNAPSHOT-"@) && has_suffix(rest, ".md"@) {
        parsed_u32(rest.take(rest.len() - ".md"@.len()))
    } else {
        None
    }
}

/// The largest number among the first `n` file names; zero if none has one.
pub open spec fn largest_number(names: Seq<Seq<char>>, n: int) -> u32
    decreases n,
{
    if n <= 0 {
        0
    } else {
        let had = largest_number(names, n - 1);
        match snapshot_number(names[n - 1]) {
            Some(k) => if k > had {
                k
            } else {
                had
            },
            None => had,
        }
    }
}

/// The name of the snapshot file with a number, in at least three digits.
pub open spec fn snapshot_name(n: nat) -> Seq<char> {
    "SNAPSHOT-"@ + zero_padded(decimal(n), 3) + ".md"@
}

/// The number of a snapshot file by its name.
fn read_number(name: &Vec<char>) -> (r: Option<u32>)
    ensures
        r == snapshot_number(name@),
{
    let head = chars_of("SNAPSHOT-");
    let tail = chars_of(".md");
    if !starts_with(name, "SNAPSHOT-") {
        return None;
    }
    let skip: usize = head.len();
    let end: usize = name.len();
    assert(skip <= end);
    let rest = part(name, skip, end);
    assert(rest@ == name@.skip("SNAPSHOT-"@.len() as int));
    if !ends_with(&rest, ".md") {
        return None;
    }
    let rest_len: usize = rest.len();
    let cut: usize = tail.len();
    assert(cut <= rest_len);
    let inner = part(&rest, 0, rest_len - cut);
    assert(inner@ == rest@.take(rest@.len() - ".md"@.len()));
    parse_u32(&inner)
}

/// The largest number among the snapshot files of a directory; zero if it
/// holds none.
pub fn largest_snapshot(names: &Vec<String>) -> (r: u32)
    ensures
        r == largest_number(strings(names@), names.len() as int),
        forall|i: int|
            0 <= i < names.len() ==> match snapshot_number((#[trigger] names@[i])@) {
                Some(k) => k <= r,
                None => true,
            },
        r == 0 || exists|i: int|
            0 <= i < names.len() && snapshot_number((#[trigger] names@[i])@) == Some(r),
{
    let mut max_n: u32 = 0;
    let mut i: usize = 0;
    let ghost all = strings(names@);
    while i < names.len()
        invariant
            i <= names.len(),
            all == strings(names@),
            max_n == largest_number(all, i as int),
        decreases names.len() - i,
    {
        assert(all[i as int] == names@[i as int]@);
        if let Some(k) = read_number(&chars_of(names[i].as_str())) {
            if k > max_n {
                max_n = k;
            }
        }
        i += 1;
    }
    proof {
        let w = law_largest_number_is_there(all, names.len() as int);
        assert forall|i: int| 0 <= i < names.len() implies match snapshot_number(
            (#[trigger] names@[i])@,
        ) {
            Some(k) => k <= max_n,
            None => true,
        } by {
            assert(all[i] == names@[i]@);
            lemma_largest(all, names.len() as int, i);
        }
        if max_n != 0 {
            assert(all[w] == names@[w]@);
        }
    }
    max_n
}

/// The name of the next snapshot file in a directory that holds the given files.
pub fn snap_filename(names: &Vec<String>) -> (r: String)
    requires
        largest_number(strings(names@), names.len() as int) < u32::MAX,
    ensures
        r@ == snapshot_name((largest_number(strings(names@), names.len() as int) + 1) as nat),
        r@ == "SNAPSHOT-"@ + zero_padded(
            decimal((largest_number(strings(names@), names.len() as int) + 1) as nat),
            3,
        ) + ".md"@,
{
    let mut s: String = "SNAPSHOT-".to_owned();
    let digits = text_of(&write_padded(largest_snapshot(names) as u64 + 1, 3));
    s.append(digits.as_str());
    s.append(".md");
    s
}

proof fn lemma_largest(names: Seq<Seq<char>>, n: int, i: int)
    requires
        0 <= i < n <= names.len(),
    ensures
        match snapshot_number(names[i]) {
            Some(k) => k <= largest_number(names, n),
            None => true,
        },
    decreases n,
{
    if i < n - 1 {
        lemma_largest(names, n - 1, i);
    }
}

/// The name of a snapshot file is read back as its number.
pub proof fn law_snapshot_name_reads_back(n: u32)
    ensures
        snapshot_number(snapshot_name(n as nat)) == Some(n),
{
    reveal_strlit("SNAPSHOT-");
    reveal_strlit(".md");
    let digits = zero_padded(decimal(n as nat), 3);
    law_decimal_reads_back(n as nat);
    law_padding_keeps_number(decimal(n as nat), 3);
    let name = snapshot_name(n as nat);
    let rest = name.skip(9);
    assert(name.subrange(0, 9) == "SNAPSHOT-"@);
    assert(rest == digits + ".md"@);
    assert(rest.subrange(rest.len() - 3, rest.len() as int) == ".md"@);
    assert(rest.take(rest.len() - 3) == digits);
    assert(without_plus(digits) == digits);
}

/// The next snapshot file is none of those that are there.
pub proof fn law_next_snapshot_is_new(names: Seq<Seq<char>>, i: int)
    requires
        largest_number(names, names.len() as int) < u32::MAX,
        0 <= i < names.len(),
    ensures
        names[i] != snapshot_name((largest_number(names, names.len() as int) + 1) as nat),
{
    let next = (largest_number(names, names.len() as int) + 1) as u32;
    law_snapshot_name_reads_back(next);
    lemma_largest(names, names.len() as int, i);
}

// ─── Text pieces ─────────────────────────────────────────────────────────────

/// Some texts with a separator between them.
pub open spec fn joined_with(parts: Seq<Seq<char>>, sep: Seq<char>) -> Seq<char>
    decreases parts.len(),
{
    if parts.len() == 0 {
        seq![]
    } else if parts.len() == 1 {
        parts[0]
    } else {
        joined_with(parts.drop_last(), sep) + sep + parts.last()
    }
}

/// Joins some texts with a separator between them.
pub fn join_with(parts: &Vec<String>, sep: &str) -> (r: String)
    ensures
        r@ == joined_with(strings(parts@), sep@),
{
    let mut r: String = String::new();
    let mut i: usize = 0;
    let ghost all = strings(parts@);
    while i < parts.len()
        invariant
            i <= parts.len(),
            all == strings(parts@),
            r@ == joined_with(all.take(i as int), sep@),
        decreases parts.len() - i,
    {
        proof {
            assert(all.take(i + 1).drop_last() == all.take(i as int));
            assert(all.take(i + 1).last() == all[i as int]);
            assert(all.take(1)[0] == all[0]);
        }
        if i > 0 {
            r.append(sep);
        }
        r.append(parts[i].as_str());
        i += 1;
        assert(r@ == joined_with(all.take(i as int), sep@));
    }
    assert(all.take(i as int) == all);
    r
}

/// The largest number is that of one of the files, or zero, and no file has a
/// larger one.
pub proof fn law_largest_number_is_there(names: Seq<Seq<char>>, n: int) -> (w: int)
    requires
        0 <= n <= names.len(),
    ensures
        largest_number(names, n) != 0 ==> 0 <= w < n && snapshot_number(names[w]) == Some(
            largest_number(names, n),
        ),
        forall|i: int|
            0 <= i < n ==> match snapshot_number(#[trigger] names[i]) {
                Some(k) => k <= largest_number(names, n),
                None => true,
            },
    decreases n,
{
    if n <= 0 {
        0
    } else {
        let w = law_largest_number_is_there(names, n - 1);
        if largest_number(names, n) == largest_number(names, n - 1) {
            w
        } else {
            n - 1
        }
    }
}

/// A file has the number that stands between `SNAPSHOT-` and `.md`, if it is
/// one, and no other name has a number.
pub proof fn law_snapshot_number_is_in_the_middle(name: Seq<char>, middle: Seq<char>)
    ensures
        snapshot_number("SNAPSHOT-"@ + middle + ".md"@) == parsed_u32(middle),
        snapshot_number(name) is Some ==> name.len() >= 12 && name == "SNAPSHOT-"@ + name.subrange(
            9,
            name.len() - 3,
        ) + ".md"@,
{
    reveal_strlit("SNAPSHOT-");
    reveal_strlit(".md");
    let s = "SNAPSHOT-"@ + middle + ".md"@;
    let rest = s.skip(9);
    assert(s.subrange(0, 9) == "SNAPSHOT-"@);
    assert(rest == middle + ".md"@);
    assert(rest.subrange(rest.len() - 3, rest.len() as int) == ".md"@);
    assert(rest.take(rest.len() - 3) == middle);
    if snapshot_number(name) is Some {
        let r = name.skip(9);
        assert(name.subrange(0, 9) == "SNAPSHOT-"@);
        assert(r.subrange(r.len() - 3, r.len() as int) == ".md"@);
        assert(name == name.subrange(0, 9) + name.subrange(9, name.len() - 3) + r.subrange(
            r.len() - 3,
            r.len() as int,
        ));
    }
}

/// One text stands as it is, none gives nothing, and between two lists of texts
/// stands the separator.
pub proof fn law_joined_lists(a: Seq<Seq<char>>, b: Seq<Seq<char>>, x: Seq<char>, sep: Seq<char>)
    ensures
        joined_with(Seq::<Seq<char>>::empty(), sep) == Seq::<char>::empty(),
        joined_with(seq![x], sep) == x,
        a.len() > 0 && b.len() > 0 ==> joined_with(a + b, sep) == joined_with(a, sep) + sep
            + joined_with(b, sep),
    decreases b.len(),
{
    if a.len() > 0 && b.len() > 0 {
        let all = a + b;
        assert(all.last() == b.last());
        assert(all.drop_last() == a + b.drop_last());
        if b.len() == 1 {
            assert(all.drop_last() == a);
        } else {
            law_joined_lists(a, b.drop_last(), x, sep);
            assert(joined_with(all, sep) == joined_with(a, sep) + sep + joined_with(b, sep));
        }
    }
}

} // verus!
