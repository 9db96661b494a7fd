//! The target sampler: a fixed pixel grid that answers point-color and
//! region-representative-color queries.

use vstd::prelude::*;
use crate::canvas::Picture;
use crate::color::{spec_white, Color};
use crate::geometry::Point;

verus! {

/// The target image: an immutable grid of colors, stored row-major with row
/// zero at the top, so that canvas-space queries flip the vertical axis.
#[derive(Debug)]
pub struct Raster {
    pub width: i32,
    pub height: i32,
    pub pixels: Vec<Color>,
}

impl Raster {
    /// The grid is non-empty, small enough for the sampling sums, and holds
    /// one color per cell.
    pub open spec fn wf(self) -> bool {
        &&& 0 < self.width <= 0x100_0000
        &&& 0 < self.height <= 0x100_0000
        &&& self.width * self.height <= 0x100_0000
        &&& self.pixels@.len() == self.width * self.height
    }

    /// The color at a canvas-space point: origin at the bottom left, the
    /// vertical axis flipped relative to storage order.
    pub open spec fn spec_color_at(self, p: Point) -> Color {
        self.pixels@[(self.height - 1 - p.y) * self.width + p.x]
    }
}

/// The sampled colors of one column of a region: from `b` up in steps of
/// five, while below `t`.
pub open spec fn col_samples(img: Raster, x: int, b: int, t: int) -> Seq<Color>
    decreases (t - b + 4) / 5,
{
    if b >= t {
        Seq::empty()
    } else {
        seq![img.spec_color_at(Point { x: x as i32, y: b as i32 })] + col_samples(img, x, b + 5, t)
    }
}

/// The sampled colors of a region: columns from `l` in steps of five while
/// below `r`, each scanned bottom to top.
pub open spec fn region_samples(img: Raster, l: int, b: int, r: int, t: int) -> Seq<Color>
    decreases (r - l + 4) / 5,
{
    if l >= r {
        Seq::empty()
    } else {
        col_samples(img, l, b, t) + region_samples(img, l + 5, b, r, t)
    }
}

/// `idx` is the position of the first tally entry for the color `c`.
pub open spec fn is_first_color(counts: Seq<(Color, nat)>, c: Color, idx: int) -> bool {
    &&& 0 <= idx < counts.len()
    &&& counts[idx].0 == c
    &&& forall|j: int| 0 <= j < idx ==> (#[trigger] counts[j]).0 != c
}

/// Some tally entry is for the color `c`.
pub open spec fn has_color(counts: Seq<(Color, nat)>, c: Color) -> bool {
    exists|idx: int| 0 <= idx < counts.len() && (#[trigger] counts[idx]).0 == c
}

/// The position of the first tally entry for the color `c`.
pub open spec fn first_color_index(counts: Seq<(Color, nat)>, c: Color) -> int {
    choose|idx: int| is_first_color(counts, c, idx)
}

/// Count one more occurrence of `c`: increment its entry, or append a new
/// entry with count one when the color is new.
pub open spec fn bump(counts: Seq<(Color, nat)>, c: Color) -> Seq<(Color, nat)> {
    if has_color(counts, c) {
        let idx = first_color_index(counts, c);
        counts.update(idx, (c, (counts[idx].1 + 1) as nat))
    } else {
        counts.push((c, 1))
    }
}

/// The tally of a sample sequence: one entry per distinct color, in order of
/// first encounter, with its number of occurrences.
pub open spec fn tally(s: Seq<Color>) -> Seq<(Color, nat)>
    decreases s.len(),
{
    if s.len() == 0 {
        Seq::empty()
    } else {
        bump(tally(s.drop_last()), s.last())
    }
}

/// The entry with the strictly greatest count so far wins; on a tie the
/// earlier entry is kept.
pub open spec fn pick_list(counts: Seq<(Color, nat)>, best: Color, bestn: nat) -> Color
    decreases counts.len(),
{
    if counts.len() == 0 {
        best
    } else if counts[0].1 > bestn {
        pick_list(counts.drop_first(), counts[0].0, counts[0].1)
    } else {
        pick_list(counts.drop_first(), best, bestn)
    }
}

/// The most frequent color of a sample sequence, ties broken by encounter
/// order; opaque white when there are no samples.
pub open spec fn most_frequent(s: Seq<Color>) -> Color {
    pick_list(tally(s), spec_white(), 0)
}

/// The number of occurrences of a color in a sample sequence.
pub open spec fn occ(s: Seq<Color>, c: Color) -> nat
    decreases s.len(),
{
    if s.len() == 0 {
        0
    } else {
        occ(s.drop_last(), c) + (if s.last() == c {
            1nat
        } else {
            0nat
        })
    }
}

/// The count that travels beside `pick_list`: the count of the winning entry.
pub open spec fn pick_count(counts: Seq<(Color, nat)>, best: Color, bestn: nat) -> nat
    decreases counts.len(),
{
    if counts.len() == 0 {
        bestn
    } else if counts[0].1 > bestn {
        pick_count(counts.drop_first(), counts[0].0, counts[0].1)
    } else {
        pick_count(counts.drop_first(), best, bestn)
    }
}

/// When some tally entry is for the color, a first such entry exists.
proof fn lemma_first_color_exists(counts: Seq<(Color, nat)>, c: Color)
    requires
        has_color(counts, c),
    ensures
        exists|idx: int| is_first_color(counts, c, idx),
    decreases counts.len(),
{
    if counts[0].0 == c {
        assert(is_first_color(counts, c, 0));
    } else {
        let rest = counts.drop_first();
        assert(has_color(rest, c)) by {
            let w = choose|idx: int| 0 <= idx < counts.len() && (#[trigger] counts[idx]).0 == c;
            assert(rest[w - 1].0 == c);
        }
        lemma_first_color_exists(rest, c);
        let idx = choose|idx: int| is_first_color(rest, c, idx);
        assert(forall|j: int| 0 <= j < idx + 1 ==> (#[trigger] counts[j]).0 != c) by {
            assert(forall|j: int| 1 <= j < idx + 1 ==> counts[j] == rest[j - 1]);
        }
        assert(is_first_color(counts, c, idx + 1));
    }
}

/// The tally is faithful: each entry carries its color's occurrence count,
/// its colors are distinct, and a color has an entry exactly when it occurs.
proof fn lemma_tally_faithful(s: Seq<Color>)
    ensures
        forall|idx: int|
            0 <= idx < tally(s).len() ==> (#[trigger] tally(s)[idx]).1 == occ(s, tally(s)[idx].0),
        forall|c: Color| #[trigger] occ(s, c) > 0 <==> has_color(tally(s), c),
        forall|i: int, j: int|
            0 <= i < j < tally(s).len() ==> (#[trigger] tally(s)[i]).0 != (#[trigger] tally(
                s,
            )[j]).0,
    decreases s.len(),
{
    if s.len() > 0 {
        let rest = s.drop_last();
        lemma_tally_faithful(rest);
        let pre = tally(rest);
        let c = s.last();
        assert(forall|x: Color|
            #[trigger] occ(s, x) == occ(rest, x) + (if x == c {
                1nat
            } else {
                0nat
            }));
        if has_color(pre, c) {
            lemma_first_color_exists(pre, c);
            let w = first_color_index(pre, c);
            assert(is_first_color(pre, c, w));
            assert(forall|k: int| is_first_color(pre, c, k) ==> k == w);
            assert(tally(s) == pre.update(w, (c, (pre[w].1 + 1) as nat)));
            assert(pre[w].0 == c);
            assert forall|x: Color| has_color(tally(s), x) <==> has_color(pre, x) by {
                if has_color(tally(s), x) {
                    let idx = choose|idx: int|
                        0 <= idx < tally(s).len() && (#[trigger] tally(s)[idx]).0 == x;
                    assert(pre[idx].0 == x);
                }
                if has_color(pre, x) {
                    let idx = choose|idx: int|
                        0 <= idx < pre.len() && (#[trigger] pre[idx]).0 == x;
                    if idx == w {
                        assert(tally(s)[w].0 == x);
                    } else {
                        assert(tally(s)[idx].0 == x);
                    }
                }
            }
        } else {
            assert(occ(rest, c) == 0);
            assert(tally(s) == pre.push((c, 1nat)));
            assert forall|x: Color| has_color(tally(s), x) <==> (has_color(pre, x) || x
                == c) by {
                if has_color(tally(s), x) {
                    let idx = choose|idx: int|
                        0 <= idx < tally(s).len() && (#[trigger] tally(s)[idx]).0 == x;
                    if idx < pre.len() {
                        assert(pre[idx].0 == x);
                    }
                }
                if has_color(pre, x) {
                    let idx = choose|idx: int|
                        0 <= idx < pre.len() && (#[trigger] pre[idx]).0 == x;
                    assert(tally(s)[idx].0 == x);
                }
                if x == c {
                    assert(tally(s)[pre.len() as int].0 == x);
                }
            }
        }
    }
}

/// The entry that `pick_list` returns carries the greatest count: at least
/// the starting count and at least every entry's count; unless it is the
/// starting value, it is one of the entries.
proof fn lemma_pick_from(counts: Seq<(Color, nat)>, best: Color, bestn: nat)
    ensures
        bestn <= pick_count(counts, best, bestn),
        forall|i: int| 0 <= i < counts.len() ==> (#[trigger] counts[i]).1 <= pick_count(
            counts,
            best,
            bestn,
        ),
        (pick_list(counts, best, bestn) == best && pick_count(counts, best, bestn) == bestn)
            || exists|i: int|
            0 <= i < counts.len() && #[trigger] counts[i] == (pick_list(counts, best, bestn),
            pick_count(counts, best, bestn)),
    decreases counts.len(),
{
    if counts.len() > 0 {
        let rest = counts.drop_first();
        assert(forall|i: int| 0 <= i < rest.len() ==> rest[i] == counts[i + 1]);
        if counts[0].1 > bestn {
            lemma_pick_from(rest, counts[0].0, counts[0].1);
            assert forall|i: int| 0 <= i < counts.len() implies (#[trigger] counts[i]).1
                <= pick_count(counts, best, bestn) by {
                if i >= 1 {
                    assert(counts[i] == rest[i - 1]);
                }
            }
            if pick_list(counts, best, bestn) == counts[0].0 && pick_count(counts, best, bestn)
                == counts[0].1 {
                assert(counts[0] == (pick_list(counts, best, bestn), pick_count(
                    counts,
                    best,
                    bestn,
                )));
            } else {
                let i = choose|i: int|
                    0 <= i < rest.len() && #[trigger] rest[i] == (pick_list(rest, counts[0].0,
                    counts[0].1), pick_count(rest, counts[0].0, counts[0].1));
                assert(counts[i + 1] == (pick_list(counts, best, bestn), pick_count(
                    counts,
                    best,
                    bestn,
                )));
            }
        } else {
            lemma_pick_from(rest, best, bestn);
            assert forall|i: int| 0 <= i < counts.len() implies (#[trigger] counts[i]).1
                <= pick_count(counts, best, bestn) by {
                if i >= 1 {
                    assert(counts[i] == rest[i - 1]);
                }
            }
            if !(pick_list(counts, best, bestn) == best && pick_count(counts, best, bestn)
                == bestn) {
                let i = choose|i: int|
                    0 <= i < rest.len() && #[trigger] rest[i] == (pick_list(rest, best, bestn),
                    pick_count(rest, best, bestn));
                assert(counts[i + 1] == (pick_list(counts, best, bestn), pick_count(
                    counts,
                    best,
                    bestn,
                )));
            }
        }
    }
}

/// Law: the representative color occurs in the samples at least as often as
/// any color; ties between maximal colors go to the one encountered first.
pub proof fn lemma_most_frequent_max(s: Seq<Color>)
    ensures
        forall|c: Color| #[trigger] occ(s, c) <= occ(s, most_frequent(s)),
{
    lemma_tally_faithful(s);
    lemma_pick_from(tally(s), spec_white(), 0);
    let r = most_frequent(s);
    let n = pick_count(tally(s), spec_white(), 0);
    assert forall|c: Color| #[trigger] occ(s, c) <= occ(s, r) by {
        if occ(s, c) > 0 {
            lemma_first_color_exists(tally(s), c);
            let idx = choose|idx: int| is_first_color(tally(s), c, idx);
            assert(tally(s)[idx].1 == occ(s, c));
            assert(occ(s, c) <= n);
        }
        if r == spec_white() && n == 0 {
            assert(occ(s, c) == 0) by {
                if occ(s, c) > 0 {
                    lemma_first_color_exists(tally(s), c);
                    let idx = choose|idx: int| is_first_color(tally(s), c, idx);
                    assert(tally(s)[idx].1 <= n);
                    assert(tally(s)[idx].1 == occ(s, c));
                }
            }
        } else {
            let i = choose|i: int|
                0 <= i < tally(s).len() && #[trigger] tally(s)[i] == (r, n);
            assert(occ(s, r) == n);
        }
    }
}

/// The sum of the red channels of a sample sequence.
pub open spec fn sum_red(s: Seq<Color>) -> int
    decreases s.len(),
{
    if s.len() == 0 {
        0
    } else {
        sum_red(s.drop_last()) + s.last().r
    }
}

/// The sum of the green channels of a sample sequence.
pub open spec fn sum_green(s: Seq<Color>) -> int
    decreases s.len(),
{
    if s.len() == 0 {
        0
    } else {
        sum_green(s.drop_last()) + s.last().g
    }
}

/// The sum of the blue channels of a sample sequence.
pub open spec fn sum_blue(s: Seq<Color>) -> int
    decreases s.len(),
{
    if s.len() == 0 {
        0
    } else {
        sum_blue(s.drop_last()) + s.last().b
    }
}

/// The representative color of a region: the most frequent sampled color.
pub open spec fn spec_region_color(img: Raster, l: int, b: int, r: int, t: int) -> Color {
    most_frequent(region_samples(img, l, b, r, t))
}

/// A column's sample count is bounded by its height.
proof fn lemma_col_samples_len(img: Raster, x: int, b: int, t: int)
    requires
        b <= t,
    ensures
        5 * col_samples(img, x, b, t).len() <= t - b + 4,
    decreases (t - b + 4) / 5,
{
    if b < t {
        if b + 5 <= t {
            lemma_col_samples_len(img, x, b + 5, t);
        } else {
            assert(col_samples(img, x, b + 5, t) =~= Seq::empty());
        }
    }
}

/// A region's sample count is bounded by the product of its extents.
proof fn lemma_region_samples_len(img: Raster, l: int, b: int, r: int, t: int)
    requires
        b <= t,
        l <= r,
    ensures
        region_samples(img, l, b, r, t).len() <= (r - l) * (t - b + 4),
    decreases (r - l + 4) / 5,
{
    if l < r {
        lemma_col_samples_len(img, l, b, t);
        let cl = col_samples(img, l, b, t).len() as int;
        if l + 5 <= r {
            lemma_region_samples_len(img, l + 5, b, r, t);
            let rl = region_samples(img, l + 5, b, r, t).len() as int;
            assert(cl + rl <= (r - l) * (t - b + 4)) by (nonlinear_arith)
                requires
                    5 * cl <= t - b + 4,
                    0 <= cl,
                    5 <= r - l,
                    rl <= (r - l - 5) * (t - b + 4),
                    0 <= rl,
                    0 <= t - b + 4,
            ;
        } else {
            assert(region_samples(img, l + 5, b, r, t) =~= Seq::empty());
            assert(cl <= (r - l) * (t - b + 4)) by (nonlinear_arith)
                requires
                    5 * cl <= t - b + 4,
                    0 <= cl,
                    1 <= r - l,
            ;
        }
    }
}

/// A problem: the target image and the starting canvas.
#[derive(Debug)]
pub struct Problem {
    pub image: Raster,
    pub initial: Picture,
}

impl Problem {
    /// The target color at a canvas-space point.
    pub fn get_color(&self, p: Point) -> (c: Color)
        requires
            self.image.wf(),
            0 <= p.x < self.image.width,
            0 <= p.y < self.image.height,
        ensures
            c == self.image.spec_color_at(p),
    {
        let row: i64 = (self.image.height - 1 - p.y) as i64;
        proof {
            assert(row * (self.image.width as i64) + (p.x as i64) < (self.image.height as i64)
                * (self.image.width as i64)) by (nonlinear_arith)
                requires
                    0 <= row < self.image.height,
                    0 <= p.x < self.image.width,
            ;
            assert(0 <= row * (self.image.width as i64)) by (nonlinear_arith)
                requires
                    0 <= row,
                    0 < self.image.width,
            ;
            assert((self.image.height as i64) * (self.image.width as i64) == self.image.width
                * self.image.height) by (nonlinear_arith);
        }
        let idx: usize = (row * (self.image.width as i64) + (p.x as i64)) as usize;
        self.image.pixels[idx]
    }

    /// The sampled colors of the region, in scan order: columns left to
    /// right, each bottom to top, on a stride of five.
    fn collect_samples(&self, left: i32, bottom: i32, right: i32, top: i32) -> (res: Vec<Color>)
        requires
            self.image.wf(),
            0 <= left,
            right <= self.image.width,
            0 <= bottom,
            top <= self.image.height,
        ensures
            res@ == region_samples(self.image, left as int, bottom as int, right as int, top as int),
    {
        let ghost target = region_samples(
            self.image,
            left as int,
            bottom as int,
            right as int,
            top as int,
        );
        let mut res: Vec<Color> = Vec::new();
        let mut x: i32 = left;
        while x < right
            invariant
                self.image.wf(),
                0 <= left <= x,
                right <= self.image.width,
                0 <= bottom,
                top <= self.image.height,
                res@ + region_samples(self.image, x as int, bottom as int, right as int, top as int)
                    == target,
            decreases (right - x + 4) / 5,
        {
            let mut y: i32 = bottom;
            while y < top
                invariant
                    self.image.wf(),
                    0 <= left <= x < right <= self.image.width,
                    0 <= bottom <= y,
                    top <= self.image.height,
                    res@ + col_samples(self.image, x as int, y as int, top as int)
                        + region_samples(
                        self.image,
                        x + 5,
                        bottom as int,
                        right as int,
                        top as int,
                    ) == target,
                decreases (top - y + 4) / 5,
            {
                let c = self.get_color(Point { x, y });
                res.push(c);
                proof {
                    assert(res@ + col_samples(self.image, x as int, y + 5, top as int)
                        + region_samples(self.image, x + 5, bottom as int, right as int, top as int)
                        =~= target);
                }
                y = y + 5;
            }
            x = x + 5;
        }
        proof {
            assert(res@ =~= target);
        }
        res
    }

    /// The most frequent sampled color of the region, on a stride of five in
    /// both axes, ties broken by encounter order in the scan; opaque white
    /// when the region yields no samples.
    pub fn most_frequent_color(&self, left: i32, bottom: i32, right: i32, top: i32) -> (res: Color)
        requires
            self.image.wf(),
            0 <= left,
            right <= self.image.width,
            0 <= bottom,
            top <= self.image.height,
        ensures
            res == spec_region_color(
                self.image,
                left as int,
                bottom as int,
                right as int,
                top as int,
            ),
    {
        let samples = self.collect_samples(left, bottom, right, top);
        let ghost sv = samples@;
        let mut counts: Vec<(Color, usize)> = Vec::new();
        let ghost cview = counts@.map_values(|p: (Color, usize)| (p.0, p.1 as nat));
        let mut m: usize = 0;
        while m < samples.len()
            invariant
                m <= sv.len(),
                sv == samples@,
                counts@.map_values(|p: (Color, usize)| (p.0, p.1 as nat)) == tally(
                    sv.take(m as int),
                ),
                forall|idx: int| 0 <= idx < counts@.len() ==> (#[trigger] counts@[idx]).1 <= m,
            decreases sv.len() - m,
        {
            let c = samples[m];
            let ghost pre = counts@.map_values(|p: (Color, usize)| (p.0, p.1 as nat));
            let mut idx: usize = 0;
            let mut found = false;
            while idx < counts.len() && !found
                invariant
                    idx <= counts@.len(),
                    !found ==> forall|j: int| 0 <= j < idx ==> (#[trigger] counts@[j]).0 != c,
                    found ==> idx < counts@.len() && counts@[idx as int].0 == c && forall|j: int|
                        0 <= j < idx ==> (#[trigger] counts@[j]).0 != c,
                decreases counts@.len() - idx + (if found {
                    0int
                } else {
                    1int
                }),
            {
                if counts[idx].0 == c {
                    found = true;
                } else {
                    idx = idx + 1;
                }
            }
            if found {
                proof {
                    assert(is_first_color(pre, c, idx as int));
                    assert(forall|k: int| is_first_color(pre, c, k) ==> k == idx as int);
                }
                let n = counts[idx].1;
                counts.set(idx, (c, n + 1));
                proof {
                    assert(counts@.map_values(|p: (Color, usize)| (p.0, p.1 as nat)) =~= bump(
                        pre,
                        c,
                    ));
                }
            } else {
                counts.push((c, 1));
                proof {
                    assert(!has_color(pre, c));
                    assert(counts@.map_values(|p: (Color, usize)| (p.0, p.1 as nat)) =~= bump(
                        pre,
                        c,
                    ));
                }
            }
            proof {
                assert(sv.take(m + 1).drop_last() =~= sv.take(m as int));
                assert(sv.take(m + 1).last() == sv[m as int]);
            }
            m = m + 1;
        }
        proof {
            assert(sv.take(sv.len() as int) =~= sv);
        }
        let ghost cv = tally(sv);
        proof {
            assert(cv.skip(0) =~= cv);
        }
        let mut res_count: usize = 0;
        let mut res_color = Color::white();
        let mut i: usize = 0;
        while i < counts.len()
            invariant
                i <= counts@.len(),
                cv == counts@.map_values(|p: (Color, usize)| (p.0, p.1 as nat)),
                pick_list(cv.skip(i as int), res_color, res_count as nat) == pick_list(
                    cv,
                    spec_white(),
                    0,
                ),
            decreases counts@.len() - i,
        {
            proof {
                assert(cv.skip(i as int).drop_first() =~= cv.skip(i + 1));
                assert(cv.skip(i as int)[0] == cv[i as int]);
            }
            if counts[i].1 > res_count {
                res_count = counts[i].1;
                res_color = counts[i].0;
            }
            i = i + 1;
        }
        proof {
            assert(cv.skip(cv.len() as int) =~= Seq::<(Color, nat)>::empty());
        }
        res_color
    }

    /// The arithmetic-mean color of the region's samples, each channel the
    /// truncating division of its sum by the region area divided by the
    /// squared stride; fully opaque. An alternative to the most-frequent
    /// representative, not the default.
    pub fn average_color(&self, left: i32, bottom: i32, right: i32, top: i32) -> (res: Color)
        requires
            self.image.wf(),
            0 <= left < right <= self.image.width,
            0 <= bottom < top <= self.image.height,
            (right - left) * (top - bottom) >= 25,
        ensures
            ({
                let s = region_samples(
                    self.image,
                    left as int,
                    bottom as int,
                    right as int,
                    top as int,
                );
                let count = (right - left) * (top - bottom) / 5 / 5;
                &&& res.r == (sum_red(s) / count) % 256
                &&& res.g == (sum_green(s) / count) % 256
                &&& res.b == (sum_blue(s) / count) % 256
                &&& res.a == 255
            }),
    {
        let samples = self.collect_samples(left, bottom, right, top);
        let ghost sv = samples@;
        proof {
            lemma_region_samples_len(
                self.image,
                left as int,
                bottom as int,
                right as int,
                top as int,
            );
            assert((right - left) * (top - bottom + 4) <= 0x2000_0000_0000i64) by (nonlinear_arith)
                requires
                    0 < right - left <= self.image.width,
                    0 < top - bottom <= self.image.height,
                    0 < self.image.width,
                    0 < self.image.height,
                    self.image.width * self.image.height <= 0x100_0000,
            ;
        }
        let mut r_sum: i64 = 0;
        let mut g_sum: i64 = 0;
        let mut b_sum: i64 = 0;
        let mut m: usize = 0;
        while m < samples.len()
            invariant
                m <= sv.len(),
                sv == samples@,
                sv.len() <= 0x2000_0000_0000i64,
                r_sum == sum_red(sv.take(m as int)),
                g_sum == sum_green(sv.take(m as int)),
                b_sum == sum_blue(sv.take(m as int)),
                0 <= r_sum <= 255 * m,
                0 <= g_sum <= 255 * m,
                0 <= b_sum <= 255 * m,
            decreases sv.len() - m,
        {
            let c = samples[m];
            proof {
                assert(sv.take(m + 1).drop_last() =~= sv.take(m as int));
                assert(sv.take(m + 1).last() == sv[m as int]);
            }
            r_sum = r_sum + c.r as i64;
            g_sum = g_sum + c.g as i64;
            b_sum = b_sum + c.b as i64;
            m = m + 1;
        }
        proof {
            assert(sv.take(sv.len() as int) =~= sv);
        }
        proof {
            assert((right - left) * (top - bottom) <= self.image.width * self.image.height)
                by (nonlinear_arith)
                requires
                    0 < right - left <= self.image.width,
                    0 < top - bottom <= self.image.height,
            ;
            assert(0 < (right - left) * (top - bottom)) by (nonlinear_arith)
                requires
                    0 < right - left,
                    0 < top - bottom,
            ;
        }
        let area = (right - left) * (top - bottom);
        let count = area / 5 / 5;
        proof {
            assert(count >= 1) by (nonlinear_arith)
                requires
                    count == area / 5 / 5,
                    area >= 25,
            ;
        }
        Color {
            r: ((r_sum / count as i64) % 256) as u8,
            g: ((g_sum / count as i64) % 256) as u8,
            b: ((b_sum / count as i64) % 256) as u8,
            a: 255,
        }
    }

    /// The representative color of the region: the most frequent sampled
    /// color.
    pub fn color(&self, left: i32, bottom: i32, right: i32, top: i32) -> (res: Color)
        requires
            self.image.wf(),
            0 <= left,
            right <= self.image.width,
            0 <= bottom,
            top <= self.image.height,
        ensures
            res == spec_region_color(
                self.image,
                left as int,
                bottom as int,
                right as int,
                top as int,
            ),
    {
        self.most_frequent_color(left, bottom, right, top)
    }
}

} // verus!
