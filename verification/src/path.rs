//! The path commands with which curves are drawn, from coordinates as they are
//! written.

use crate::single::Single;
use vstd::prelude::*;
use vstd::string::*;

verus! {

/// A point of a curve, its coordinates written out.
pub struct PathPoint {
    pub x: String,
    pub y: String,
}

/// The lowest frequency that is drawn, 20 Hz.
pub const LOWEST_HZ_BITS: u32 = 0x41a0_0000;

/// The highest frequency that is drawn, 20 kHz.
pub const HIGHEST_HZ_BITS: u32 = 0x469c_4000;

/// The level up to which a masking bar is not drawn, -89 dB.
pub const BAR_FLOOR_BITS: u32 = 0xc2b2_0000;

/// The corners of a masking bar and the height of the drawing.
pub struct Bar {
    pub left: String,
    pub right: String,
    pub top: String,
    pub bottom: String,
}

/// Where a resonance marker stands: its middle, its sides and the height of the
/// drawing.
pub struct Marker {
    pub x: String,
    pub left: String,
    pub right: String,
    pub bottom: String,
}

/// A point as it is written behind a command.
pub open spec fn point_text(p: PathPoint) -> Seq<char> {
    p.x@ + " "@ + p.y@
}

/// Lines to the points from `from` up to `n`.
pub open spec fn lines_to(points: Seq<PathPoint>, from: int, n: int) -> Seq<char>
    decreases n - from,
{
    if n <= from {
        seq![]
    } else {
        lines_to(points, from, n - 1) + " L "@ + point_text(points[n - 1])
    }
}

/// A line through the points.
pub open spec fn line_text(points: Seq<PathPoint>) -> Seq<char> {
    "M "@ + point_text(points[0]) + lines_to(points, 1, points.len() as int)
}

/// A line through the points, closed along the baseline, which runs at `base`
/// from left of the drawing to `end`.
pub open spec fn filled_text(points: Seq<PathPoint>, base: Seq<char>, end: Seq<char>) -> Seq<char> {
    "M -2.0 "@ + base + " L "@ + point_text(points[0]) + lines_to(points, 1, points.len() as int)
        + " L "@ + points[points.len() - 1].x@ + " "@ + base + " L "@ + end + " "@ + base + " Z"@
}

fn push_lines(out: &mut String, points: &Vec<PathPoint>, from: usize)
    requires
        from <= points.len(),
    ensures
        final(out)@ == old(out)@ + lines_to(points@, from as int, points.len() as int),
{
    let mut i: usize = from;
    while i < points.len()
        invariant
            from <= i <= points.len(),
            out@ == old(out)@ + lines_to(points@, from as int, i as int),
        decreases points.len() - i,
    {
        out.append(" L ");
        out.append(points[i].x.as_str());
        out.append(" ");
        out.append(points[i].y.as_str());
        i += 1;
        assert(out@ == old(out)@ + lines_to(points@, from as int, i as int));
    }
}

/// The commands for a curve: a line through its points, closed along the
/// baseline if it is filled. A curve of fewer than two points is not drawn.
pub fn build_curve(points: &Vec<PathPoint>, fill: bool, base: &str, end: &str) -> (r: String)
    ensures
        r@ == if points.len() < 2 {
            ""@
        } else if fill {
            filled_text(points@, base@, end@)
        } else {
            line_text(points@)
        },
        points.len() >= 2 && !fill ==> r@ == "M "@ + (points@[0].x@ + " "@ + points@[0].y@) + lines_to(
            points@,
            1,
            points.len() as int,
        ),
        points.len() >= 2 && fill ==> r@ == "M -2.0 "@ + base@ + " L "@ + (points@[0].x@ + " "@
            + points@[0].y@) + lines_to(points@, 1, points.len() as int) + " L "@
            + points@[points.len() - 1].x@ + " "@ + base@ + " L "@ + end@ + " "@ + base@ + " Z"@,
{
    if points.len() < 2 {
        return "".to_owned();
    }
    if fill {
        let mut out: String = "M -2.0 ".to_owned();
        out.append(base);
        out.append(" L ");
        out.append(points[0].x.as_str());
        out.append(" ");
        out.append(points[0].y.as_str());
        push_lines(&mut out, points, 1);
        out.append(" L ");
        out.append(points[points.len() - 1].x.as_str());
        out.append(" ");
        out.append(base);
        out.append(" L ");
        out.append(end);
        out.append(" ");
        out.append(base);
        out.append(" Z");
        assert(out@ == filled_text(points@, base@, end@));
        out
    } else {
        let mut out: String = "M ".to_owned();
        out.append(points[0].x.as_str());
        out.append(" ");
        out.append(points[0].y.as_str());
        push_lines(&mut out, points, 1);
        assert(out@ == line_text(points@));
        out
    }
}

/// The commands for a trace: a line through its points, a lone one too.
pub fn build_trace(points: &Vec<PathPoint>) -> (r: String)
    ensures
        r@ == if points.len() == 0 {
            ""@
        } else {
            line_text(points@)
        },
        points.len() > 0 ==> r@ == "M "@ + (points@[0].x@ + " "@ + points@[0].y@) + lines_to(
            points@,
            1,
            points.len() as int,
        ),
{
    if points.len() == 0 {
        return "".to_owned();
    }
    let mut out: String = "M ".to_owned();
    out.append(points[0].x.as_str());
    out.append(" ");
    out.append(points[0].y.as_str());
    push_lines(&mut out, points, 1);
    assert(out@ == line_text(points@));
    out
}

/// The area between the points and a floor.
pub open spec fn area_text(points: Seq<PathPoint>, floor: Seq<char>) -> Seq<char> {
    "M "@ + points[0].x@ + " "@ + floor + lines_to(points, 0, points.len() as int) + " L "@
        + points[points.len() - 1].x@ + " "@ + floor + " Z"@
}

/// The commands for the area under a spectrum. One of fewer than two points is
/// not drawn.
pub fn build_area(points: &Vec<PathPoint>, floor: &str) -> (r: String)
    ensures
        r@ == if points.len() < 2 {
            ""@
        } else {
            area_text(points@, floor@)
        },
        points.len() >= 2 ==> r@ == "M "@ + points@[0].x@ + " "@ + floor@ + lines_to(
            points@,
            0,
            points.len() as int,
        ) + " L "@ + points@[points.len() - 1].x@ + " "@ + floor@ + " Z"@,
{
    if points.len() < 2 {
        return "".to_owned();
    }
    let mut out: String = "M ".to_owned();
    out.append(points[0].x.as_str());
    out.append(" ");
    out.append(floor);
    push_lines(&mut out, points, 0);
    out.append(" L ");
    out.append(points[points.len() - 1].x.as_str());
    out.append(" ");
    out.append(floor);
    out.append(" Z");
    assert(out@ == area_text(points@, floor@));
    out
}

/// A line through the points, closed from the top left corner, whose
/// coordinates are both `margin`, and along the bottom.
pub open spec fn envelope_text(points: Seq<PathPoint>, margin: Seq<char>, bottom: Seq<char>) -> Seq<
    char,
> {
    "M "@ + margin + " "@ + margin + lines_to(points, 0, points.len() as int) + " L "@
        + points[points.len() - 1].x@ + " "@ + bottom + " L "@ + margin + " "@ + bottom + " Z"@
}

/// The commands for the filled envelope of the gain reduction. It is not drawn
/// before there is a history.
pub fn gr_envelope_path(points: &Vec<PathPoint>, margin: &str, bottom: &str) -> (r: String)
    ensures
        r@ == if points.len() < 2 {
            ""@
        } else {
            envelope_text(points@, margin@, bottom@)
        },
        points.len() >= 2 ==> r@ == "M "@ + margin@ + " "@ + margin@ + lines_to(
            points@,
            0,
            points.len() as int,
        ) + " L "@ + points@[points.len() - 1].x@ + " "@ + bottom@ + " L "@ + margin@ + " "@
            + bottom@ + " Z"@,
{
    if points.len() < 2 {
        return "".to_owned();
    }
    let mut out: String = "M ".to_owned();
    out.append(margin);
    out.append(" ");
    out.append(margin);
    push_lines(&mut out, points, 0);
    out.append(" L ");
    out.append(points[points.len() - 1].x.as_str());
    out.append(" ");
    out.append(bottom);
    out.append(" L ");
    out.append(margin);
    out.append(" ");
    out.append(bottom);
    out.append(" Z");
    assert(out@ == envelope_text(points@, margin@, bottom@));
    out
}

// ─── Which bins are drawn ────────────────────────────────────────────────────

/// The first of the frequencies from `i` on that is above the drawn range.
pub open spec fn range_end(freqs: Seq<Single>, i: int) -> int
    decreases freqs.len() - i,
{
    if i >= freqs.len() {
        freqs.len() as int
    } else if (Single { bits: HIGHEST_HZ_BITS }).lt(freqs[i]) {
        i
    } else {
        range_end(freqs, i + 1)
    }
}

/// Those of the first `n` bins that are not below the drawn range.
pub open spec fn drawn_below(freqs: Seq<Single>, n: int) -> Seq<usize>
    decreases n,
{
    if n <= 0 {
        seq![]
    } else if freqs[n - 1].lt(Single { bits: LOWEST_HZ_BITS }) {
        drawn_below(freqs, n - 1)
    } else {
        drawn_below(freqs, n - 1).push((n - 1) as usize)
    }
}

/// The bins that are drawn: none from the first above the range on, and none
/// below it.
pub fn drawn_bins(freqs: &Vec<Single>) -> (r: Vec<usize>)
    ensures
        r@ == drawn_below(freqs@, range_end(freqs@, 0)),
        forall|i: int|
            0 <= i < r@.len() ==> {
                let k = (#[trigger] r@[i]) as int;
                &&& k < freqs@.len()
                &&& !freqs@[k].lt(Single { bits: 0x41a0_0000 })
                &&& forall|j: int|
                    0 <= j <= k ==> !(Single { bits: 0x469c_4000 }).lt(#[trigger] freqs@[j])
            },
        forall|i: int, j: int| 0 <= i < j < r@.len() ==> (#[trigger] r@[i]) < (#[trigger] r@[j]),
        forall|k: int|
            0 <= k < freqs@.len() && !(#[trigger] freqs@[k]).lt(Single { bits: 0x41a0_0000 })
                && (forall|j: int|
                0 <= j <= k ==> !(Single { bits: 0x469c_4000 }).lt(#[trigger] freqs@[j]))
                ==> r@.contains(k as usize),
{
    let lowest = Single { bits: LOWEST_HZ_BITS };
    let highest = Single { bits: HIGHEST_HZ_BITS };
    let mut r: Vec<usize> = Vec::new();
    let mut i: usize = 0;
    while i < freqs.len() && !freqs[i].above(highest)
        invariant
            i <= freqs.len(),
            lowest == (Single { bits: LOWEST_HZ_BITS }),
            highest == (Single { bits: HIGHEST_HZ_BITS }),
            r@ == drawn_below(freqs@, i as int),
            range_end(freqs@, 0) == range_end(freqs@, i as int),
        decreases freqs.len() - i,
    {
        if !freqs[i].below(lowest) {
            r.push(i);
        }
        i += 1;
    }
    proof {
        law_every_bin_in_range_is_drawn(freqs@);
    }
    r
}

proof fn lemma_range_end(freqs: Seq<Single>, i: int)
    requires
        0 <= i <= freqs.len(),
    ensures
        i <= range_end(freqs, i) <= freqs.len(),
        forall|k: int|
            i <= k < range_end(freqs, i) ==> !(Single { bits: HIGHEST_HZ_BITS }).lt(
                #[trigger] freqs[k],
            ),
    decreases freqs.len() - i,
{
    if i < freqs.len() && !(Single { bits: HIGHEST_HZ_BITS }).lt(freqs[i]) {
        lemma_range_end(freqs, i + 1);
    }
}

proof fn lemma_drawn(freqs: Seq<Single>, n: int, i: int)
    requires
        0 <= n <= freqs.len(),
        freqs.len() <= usize::MAX,
        0 <= i < drawn_below(freqs, n).len(),
    ensures
        drawn_below(freqs, n)[i] < n,
        !freqs[drawn_below(freqs, n)[i] as int].lt(Single { bits: LOWEST_HZ_BITS }),
        i > 0 ==> drawn_below(freqs, n)[i - 1] < drawn_below(freqs, n)[i],
    decreases n,
{
    if n > 0 {
        let had = drawn_below(freqs, n - 1);
        if i < had.len() {
            lemma_drawn(freqs, n - 1, i);
        } else if i > 0 {
            lemma_drawn(freqs, n - 1, i - 1);
        }
    }
}

/// Every drawn bin lies in the range, and they come from left to right.
pub proof fn law_drawn_bins_lie_in_range(freqs: Seq<Single>, i: int)
    requires
        freqs.len() <= usize::MAX,
        0 <= i < drawn_below(freqs, range_end(freqs, 0)).len(),
    ensures
        ({
            let drawn = drawn_below(freqs, range_end(freqs, 0));
            &&& drawn[i] < freqs.len()
            &&& !freqs[drawn[i] as int].lt(Single { bits: LOWEST_HZ_BITS })
            &&& !(Single { bits: HIGHEST_HZ_BITS }).lt(freqs[drawn[i] as int])
            &&& i > 0 ==> drawn[i - 1] < drawn[i]
        }),
{
    lemma_range_end(freqs, 0);
    lemma_drawn(freqs, range_end(freqs, 0), i);
}

/// Those of the first `n` drawn bins that have a masking bar.
pub open spec fn barred(map: Seq<Single>, drawn: Seq<usize>, n: int) -> Seq<usize>
    decreases n,
{
    if n <= 0 {
        seq![]
    } else if drawn[n - 1] < map.len() && !map[drawn[n - 1] as int].le(Single { bits: BAR_FLOOR_BITS }) {
        barred(map, drawn, n - 1).push(drawn[n - 1])
    } else {
        barred(map, drawn, n - 1)
    }
}

/// The drawn bins that have a masking bar: those above a floor. A map of fewer
/// than two bins has none.
pub fn bar_bins(map: &Vec<Single>, freqs: &Vec<Single>) -> (r: Vec<usize>)
    ensures
        r@ == if map.len() < 2 {
            seq![]
        } else {
            let drawn = drawn_below(freqs@, range_end(freqs@, 0));
            barred(map@, drawn, drawn.len() as int)
        },
        forall|i: int|
            0 <= i < r@.len() ==> {
                let k = (#[trigger] r@[i]) as int;
                &&& k < map@.len()
                &&& k < freqs@.len()
                &&& !map@[k].le(Single { bits: 0xc2b2_0000 })
                &&& !freqs@[k].lt(Single { bits: 0x41a0_0000 })
                &&& forall|j: int|
                    0 <= j <= k ==> !(Single { bits: 0x469c_4000 }).lt(#[trigger] freqs@[j])
            },
        forall|i: int, j: int| 0 <= i < j < r@.len() ==> (#[trigger] r@[i]) < (#[trigger] r@[j]),
        map@.len() >= 2 ==> forall|k: int|
            0 <= k < freqs@.len() && k < map@.len() && !map@[k].le(Single { bits: 0xc2b2_0000 })
                && !(#[trigger] freqs@[k]).lt(Single { bits: 0x41a0_0000 }) && (forall|j: int|
                0 <= j <= k ==> !(Single { bits: 0x469c_4000 }).lt(#[trigger] freqs@[j]))
                ==> r@.contains(k as usize),
{
    let floor = Single { bits: BAR_FLOOR_BITS };
    let mut r: Vec<usize> = Vec::new();
    if map.len() < 2 {
        return r;
    }
    let drawn = drawn_bins(freqs);
    let mut i: usize = 0;
    while i < drawn.len()
        invariant
            i <= drawn.len(),
            floor == (Single { bits: BAR_FLOOR_BITS }),
            r@ == barred(map@, drawn@, i as int),
        decreases drawn.len() - i,
    {
        if drawn[i] < map.len() && !map[drawn[i]].at_most(floor) {
            r.push(drawn[i]);
        }
        i += 1;
    }
    proof {
        assert(freqs@.len() == freqs.len());
        law_every_bin_in_range_is_drawn(freqs@);
        lemma_barred(map@, drawn@, drawn.len() as int);
        assert forall|k: int|
            0 <= k < freqs@.len() && k < map@.len() && !map@[k].le(Single { bits: 0xc2b2_0000 })
                && !(#[trigger] freqs@[k]).lt(Single { bits: 0x41a0_0000 }) && (forall|j: int|
                0 <= j <= k ==> !(Single { bits: 0x469c_4000 }).lt(#[trigger] freqs@[j])) implies r@.contains(
            k as usize,
        ) by {
            assert(drawn@.contains(k as usize));
            let m = choose|m: int| 0 <= m < drawn@.len() && drawn@[m] == k as usize;
            assert(r@.contains(drawn@[m]));
        }
        assert forall|i: int| 0 <= i < r@.len() implies {
            let k = (#[trigger] r@[i]) as int;
            &&& k < map@.len()
            &&& k < freqs@.len()
            &&& !map@[k].le(Single { bits: 0xc2b2_0000 })
            &&& !freqs@[k].lt(Single { bits: 0x41a0_0000 })
            &&& forall|j: int|
                0 <= j <= k ==> !(Single { bits: 0x469c_4000 }).lt(#[trigger] freqs@[j])
        } by {
            assert(drawn@.contains(r@[i]));
            let m = choose|m: int| 0 <= m < drawn@.len() && drawn@[m] == r@[i];
            assert(drawn@[m] == r@[i]);
        }
    }
    r
}

/// The commands for a bar.
pub open spec fn bar_text(b: Bar) -> Seq<char> {
    "M "@ + b.left@ + " "@ + b.top@ + " L "@ + b.right@ + " "@ + b.top@ + " L "@ + b.right@ + " "@
        + b.bottom@ + " L "@ + b.left@ + " "@ + b.bottom@ + " Z "@
}

/// The commands for the first `n` bars.
pub open spec fn bars_text(bars: Seq<Bar>, n: int) -> Seq<char>
    decreases n,
{
    if n <= 0 {
        seq![]
    } else {
        bars_text(bars, n - 1) + bar_text(bars[n - 1])
    }
}

fn bar_cmds(b: &Bar) -> (r: String)
    ensures
        r@ == bar_text(*b),
{
    let mut out: String = "M ".to_owned();
    out.append(b.left.as_str());
    out.append(" ");
    out.append(b.top.as_str());
    out.append(" L ");
    out.append(b.right.as_str());
    out.append(" ");
    out.append(b.top.as_str());
    out.append(" L ");
    out.append(b.right.as_str());
    out.append(" ");
    out.append(b.bottom.as_str());
    out.append(" L ");
    out.append(b.left.as_str());
    out.append(" ");
    out.append(b.bottom.as_str());
    out.append(" Z ");
    out
}

/// The commands for masking bars.
pub fn mask_bars_path(bars: &Vec<Bar>) -> (r: String)
    ensures
        r@ == bars_text(bars@, bars.len() as int),
        bars.len() == 0 ==> r@.len() == 0,
        bars.len() == 1 ==> {
            let b = bars@[0];
            r@ == "M "@ + b.left@ + " "@ + b.top@ + " L "@ + b.right@ + " "@ + b.top@ + " L "@
                + b.right@ + " "@ + b.bottom@ + " L "@ + b.left@ + " "@ + b.bottom@ + " Z "@
        },
{
    proof {
        if bars.len() == 1 {
            law_bars_are_drawn_one_by_one(bars@, 0, bars@[0]);
        }
    }
    let mut out: String = "".to_owned();
    proof {
        reveal_strlit("");
    }
    assert(out@ == bars_text(bars@, 0));
    let mut i: usize = 0;
    while i < bars.len()
        invariant
            i <= bars.len(),
            out@ == bars_text(bars@, i as int),
        decreases bars.len() - i,
    {
        let b = bar_cmds(&bars[i]);
        out.append(b.as_str());
        i += 1;
    }
    out
}

/// The commands for a resonance marker: a line over the whole height with a
/// diamond at its top.
pub fn res_marker_cmds(m: &Marker) -> (r: String)
    ensures
        r@ == "M "@ + m.x@ + " 0 L "@ + m.x@ + " "@ + m.bottom@ + " M "@ + m.x@ + " 0 L "@
            + m.right@ + " 4 L "@ + m.x@ + " 8 L "@ + m.left@ + " 4 Z"@,
{
    let mut out: String = "M ".to_owned();
    out.append(m.x.as_str());
    out.append(" 0 L ");
    out.append(m.x.as_str());
    out.append(" ");
    out.append(m.bottom.as_str());
    out.append(" M ");
    out.append(m.x.as_str());
    out.append(" 0 L ");
    out.append(m.right.as_str());
    out.append(" 4 L ");
    out.append(m.x.as_str());
    out.append(" 8 L ");
    out.append(m.left.as_str());
    out.append(" 4 Z");
    out
}

/// How many colours the relay curves cycle through.
pub const RELAY_COLOR_COUNT: usize = 6;

/// The colour of the relay curve at position `i` among those that are on.
pub fn relay_color(i: usize) -> (r: (u8, u8, u8))
    ensures
        r == match i % 6 {
            0 => (255u8, 153u8, 51u8),
            1 => (204u8, 76u8, 76u8),
            2 => (76u8, 204u8, 127u8),
            3 => (102u8, 153u8, 255u8),
            4 => (229u8, 178u8, 76u8),
            _ => (178u8, 102u8, 204u8),
        },
{
    match i % RELAY_COLOR_COUNT {
        0 => (255, 153, 51),
        1 => (204, 76, 76),
        2 => (76, 204, 127),
        3 => (102, 153, 255),
        4 => (229, 178, 76),
        _ => (178, 102, 204),
    }
}

/// Lines to points come one after the other, each to its own point.
pub proof fn law_lines_come_one_by_one(points: Seq<PathPoint>, a: int, b: int, c: int)
    requires
        0 <= a <= b <= c <= points.len(),
    ensures
        lines_to(points, a, c) == lines_to(points, a, b) + lines_to(points, b, c),
        lines_to(points, a, a) == Seq::<char>::empty(),
        a < points.len() ==> lines_to(points, a, a + 1) == " L "@ + points[a].x@ + " "@ + points[a].y@,
    decreases c - b,
{
    if a < points.len() {
        let p = points[a];
        assert(lines_to(points, a, a) == Seq::<char>::empty());
        assert(lines_to(points, a, a + 1) == " L "@ + p.x@ + " "@ + p.y@);
    }
    if b < c {
        law_lines_come_one_by_one(points, a, b, c - 1);
        assert(lines_to(points, a, c) == lines_to(points, a, b) + lines_to(points, b, c));
    } else {
        assert(lines_to(points, b, c) == Seq::<char>::empty());
        assert(lines_to(points, a, b) + lines_to(points, b, c) == lines_to(points, a, b));
    }
}

/// A line through points goes to the first of them, and then to each of the
/// others.
pub proof fn law_line_goes_through_its_points(points: Seq<PathPoint>, p: PathPoint)
    requires
        points.len() > 0,
    ensures
        line_text(seq![p]) == "M "@ + (p.x@ + " "@ + p.y@),
        line_text(points.push(p)) == line_text(points) + " L "@ + (p.x@ + " "@ + p.y@),
{
    let one = seq![p];
    assert(lines_to(one, 1, 1) == Seq::<char>::empty());
    assert(line_text(one) == "M "@ + (p.x@ + " "@ + p.y@));
    let all = points.push(p);
    let n = points.len() as int;
    lemma_lines_prefix(points, all, 1, n);
    assert(all[n] == p);
    assert(line_text(all) == line_text(points) + " L "@ + (p.x@ + " "@ + p.y@));
}

proof fn lemma_lines_prefix(points: Seq<PathPoint>, all: Seq<PathPoint>, from: int, n: int)
    requires
        0 <= from,
        n <= points.len() <= all.len(),
        forall|i: int| 0 <= i < points.len() ==> #[trigger] all[i] == points[i],
    ensures
        lines_to(all, from, n) == lines_to(points, from, n),
    decreases n - from,
{
    if n > from {
        lemma_lines_prefix(points, all, from, n - 1);
        assert(all[n - 1] == points[n - 1]);
    }
}

/// Bars are drawn one after the other, each as a closed rectangle.
pub proof fn law_bars_are_drawn_one_by_one(bars: Seq<Bar>, n: int, b: Bar)
    requires
        0 <= n < bars.len(),
        bars[n] == b,
    ensures
        bars_text(bars, 0) == Seq::<char>::empty(),
        bars_text(bars, n + 1) == bars_text(bars, n) + ("M "@ + b.left@ + " "@ + b.top@ + " L "@
            + b.right@ + " "@ + b.top@ + " L "@ + b.right@ + " "@ + b.bottom@ + " L "@ + b.left@
            + " "@ + b.bottom@ + " Z "@),
        bars_text(bars, 1) == bar_text(bars[0]),
{
    reveal_with_fuel(bars_text, 2);
    assert(Seq::<char>::empty() + bar_text(bars[0]) == bar_text(bars[0]));
}

proof fn lemma_range_ends(freqs: Seq<Single>, i: int)
    requires
        0 <= i <= freqs.len(),
    ensures
        range_end(freqs, i) < freqs.len() ==> (Single { bits: 0x469c_4000 }).lt(
            freqs[range_end(freqs, i)],
        ),
    decreases freqs.len() - i,
{
    if i < freqs.len() && !(Single { bits: 0x469c_4000 }).lt(freqs[i]) {
        lemma_range_ends(freqs, i + 1);
    }
}

proof fn lemma_drawn_are_all(freqs: Seq<Single>, n: int)
    requires
        0 <= n <= freqs.len(),
        freqs.len() <= usize::MAX,
    ensures
        ({
            let r = drawn_below(freqs, n);
            &&& forall|i: int|
                0 <= i < r.len() ==> (#[trigger] r[i]) < n && !freqs[r[i] as int].lt(
                    Single { bits: 0x41a0_0000 },
                )
            &&& forall|i: int, j: int|
                0 <= i < j < r.len() ==> (#[trigger] r[i]) < (#[trigger] r[j])
            &&& forall|k: int|
                0 <= k < n && !(#[trigger] freqs[k]).lt(Single { bits: 0x41a0_0000 }) ==> r.contains(
                    k as usize,
                )
        }),
    decreases n,
{
    if n > 0 {
        lemma_drawn_are_all(freqs, n - 1);
        let had = drawn_below(freqs, n - 1);
        let all = drawn_below(freqs, n);
        assert forall|k: int|
            0 <= k < n && !(#[trigger] freqs[k]).lt(Single { bits: 0x41a0_0000 }) implies all.contains(
            k as usize,
        ) by {
            if k < n - 1 {
                assert(had.contains(k as usize));
                let i = choose|i: int| 0 <= i < had.len() && had[i] == k as usize;
                assert(all[i] == k as usize);
            } else {
                assert(all == had.push(k as usize));
                assert(all[had.len() as int] == k as usize);
            }
        }
    }
}

/// The bins that are drawn are all those from 20 Hz on, up to the first that is
/// above 20 kHz, from left to right.
pub proof fn law_every_bin_in_range_is_drawn(freqs: Seq<Single>)
    requires
        freqs.len() <= usize::MAX,
    ensures
        ({
            let r = drawn_below(freqs, range_end(freqs, 0));
            &&& forall|i: int|
                0 <= i < r.len() ==> {
                    let k = (#[trigger] r[i]) as int;
                    &&& k < freqs.len()
                    &&& !freqs[k].lt(Single { bits: 0x41a0_0000 })
                    &&& forall|j: int|
                        0 <= j <= k ==> !(Single { bits: 0x469c_4000 }).lt(#[trigger] freqs[j])
                }
            &&& forall|i: int, j: int|
                0 <= i < j < r.len() ==> (#[trigger] r[i]) < (#[trigger] r[j])
            &&& forall|k: int|
                0 <= k < freqs.len() && !(#[trigger] freqs[k]).lt(Single { bits: 0x41a0_0000 }) && (
                forall|j: int|
                    0 <= j <= k ==> !(Single { bits: 0x469c_4000 }).lt(#[trigger] freqs[j]))
                    ==> r.contains(k as usize)
        }),
{
    let e = range_end(freqs, 0);
    lemma_range_end(freqs, 0);
    lemma_range_ends(freqs, 0);
    lemma_drawn_are_all(freqs, e);
    let r = drawn_below(freqs, e);
    assert forall|k: int|
        0 <= k < freqs.len() && !(#[trigger] freqs[k]).lt(Single { bits: 0x41a0_0000 }) && (forall|
            j: int,
        |
            0 <= j <= k ==> !(Single { bits: 0x469c_4000 }).lt(#[trigger] freqs[j])) implies r.contains(
        k as usize,
    ) by {
        if k >= e {
            assert(!(Single { bits: 0x469c_4000 }).lt(freqs[e]));
        }
    }
}

proof fn lemma_barred(map: Seq<Single>, drawn: Seq<usize>, n: int)
    requires
        0 <= n <= drawn.len(),
        forall|i: int, j: int| 0 <= i < j < drawn.len() ==> (#[trigger] drawn[i]) < (#[trigger] drawn[j]),
    ensures
        ({
            let r = barred(map, drawn, n);
            &&& forall|i: int|
                0 <= i < r.len() ==> drawn.contains(#[trigger] r[i]) && r[i] < map.len()
                    && !map[r[i] as int].le(Single { bits: 0xc2b2_0000 })
            &&& forall|i: int, j: int|
                0 <= i < j < r.len() ==> (#[trigger] r[i]) < (#[trigger] r[j])
            &&& forall|i: int| 0 <= i < r.len() && n < drawn.len() ==> (#[trigger] r[i]) < drawn[n]
            &&& forall|m: int|
                0 <= m < n && (#[trigger] drawn[m]) < map.len() && !map[drawn[m] as int].le(
                    Single { bits: 0xc2b2_0000 },
                ) ==> r.contains(drawn[m])
        }),
    decreases n,
{
    if n > 0 {
        lemma_barred(map, drawn, n - 1);
        let had = barred(map, drawn, n - 1);
        let all = barred(map, drawn, n);
        assert(drawn.contains(drawn[n - 1]));
        assert forall|m: int|
            0 <= m < n && (#[trigger] drawn[m]) < map.len() && !map[drawn[m] as int].le(
                Single { bits: 0xc2b2_0000 },
            ) implies all.contains(drawn[m]) by {
            if m < n - 1 {
                assert(had.contains(drawn[m]));
                let i = choose|i: int| 0 <= i < had.len() && had[i] == drawn[m];
                assert(all[i] == drawn[m]);
            } else {
                assert(all == had.push(drawn[m]));
                assert(all[had.len() as int] == drawn[m]);
            }
        }
    }
}

} // verus!
