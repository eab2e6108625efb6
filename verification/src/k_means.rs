//! Weighted color aggregates, color histograms, and the weighted k-means
//! clustering engine that reduces a histogram to at most `k` representative
//! colors.

use vstd::prelude::*;

use crate::color::{distance_spec, Color};

verus! {

/// A value together with how many source pixels produced it.
#[derive(Clone, Copy, PartialEq, Eq, Hash, Debug, Structural)]
pub struct Grouped<T> {
    pub data: T,
    pub count: u32,
}

/// Sum of the member counts of a weighted color sequence.
pub open spec fn total_count(s: Seq<Grouped<Color>>) -> int
    decreases s.len(),
{
    if s.len() == 0 {
        0
    } else {
        total_count(s.drop_last()) + s.last().count
    }
}

/// Sum of `count * alpha` over a weighted color sequence.
pub open spec fn total_alpha(s: Seq<Grouped<Color>>) -> int
    decreases s.len(),
{
    if s.len() == 0 {
        0
    } else {
        total_alpha(s.drop_last()) + s.last().count * s.last().data.a
    }
}

/// One RGB channel of a color, selected by index 0, 1 or 2.
pub open spec fn channel_of(c: Color, which: int) -> int {
    if which == 0 {
        c.r as int
    } else if which == 1 {
        c.g as int
    } else {
        c.b as int
    }
}

/// Sum of `count * alpha * channel` over a weighted color sequence: the
/// premultiplied-alpha weight of one RGB channel.
pub open spec fn weighted_channel_sum(s: Seq<Grouped<Color>>, which: int) -> int
    decreases s.len(),
{
    if s.len() == 0 {
        0
    } else {
        weighted_channel_sum(s.drop_last(), which) + s.last().count * s.last().data.a
            * channel_of(s.last().data, which)
    }
}

/// The weighted mean of a sequence of weighted colors. RGB channels are
/// premultiplied-alpha-weighted averages rounded to nearest; alpha is a plain
/// count-weighted average rounded to nearest. A sequence with no alpha weight
/// at all canonicalizes to the all-zero color.
pub open spec fn mean_spec(s: Seq<Grouped<Color>>) -> Color {
    let ta = total_alpha(s);
    let tc = total_count(s);
    if ta == 0 {
        Color { r: 0, g: 0, b: 0, a: 0 }
    } else {
        Color {
            r: ((weighted_channel_sum(s, 0) + ta / 2) / ta) as u8,
            g: ((weighted_channel_sum(s, 1) + ta / 2) / ta) as u8,
            b: ((weighted_channel_sum(s, 2) + ta / 2) / ta) as u8,
            a: ((ta + tc / 2) / tc) as u8,
        }
    }
}

/// A product of a non-negative weight and a byte is between zero and 255
/// times the weight's bound.
proof fn lemma_weight_times_byte(w: int, wb: int, x: int)
    requires
        0 <= w <= wb,
        0 <= x <= 255,
    ensures
        0 <= w * x <= 255 * wb,
{
    assert(0 <= w * x <= 255 * wb) by (nonlinear_arith)
        requires
            0 <= w <= wb,
            0 <= x <= 255,
    ;
}

/// Every partial sum is non-negative and bounded by its coarser sum.
proof fn lemma_sums_bounds(s: Seq<Grouped<Color>>)
    ensures
        0 <= total_count(s),
        0 <= total_alpha(s) <= 255 * total_count(s),
        0 <= weighted_channel_sum(s, 0) <= 255 * total_alpha(s),
        0 <= weighted_channel_sum(s, 1) <= 255 * total_alpha(s),
        0 <= weighted_channel_sum(s, 2) <= 255 * total_alpha(s),
        total_alpha(s) > 0 ==> total_count(s) > 0,
    decreases s.len(),
{
    if s.len() > 0 {
        lemma_sums_bounds(s.drop_last());
        let g = s.last();
        let cnt = g.count as int;
        let al = g.data.a as int;
        assert(cnt * al == al * cnt) by (nonlinear_arith);
        lemma_weight_times_byte(cnt, cnt, al);
        lemma_weight_times_byte(cnt * al, cnt * al, channel_of(g.data, 0));
        lemma_weight_times_byte(cnt * al, cnt * al, channel_of(g.data, 1));
        lemma_weight_times_byte(cnt * al, cnt * al, channel_of(g.data, 2));
    }
}

/// One member's contribution to each sum is bounded, so the running sums fit
/// comfortably in 128 bits.
proof fn lemma_member_bounds(g: Grouped<Color>)
    ensures
        0 <= g.count * g.data.a <= 0xFF00_0000_00,
        0 <= g.count * g.data.a * channel_of(g.data, 0) <= 0xFE01_0000_0000,
        0 <= g.count * g.data.a * channel_of(g.data, 1) <= 0xFE01_0000_0000,
        0 <= g.count * g.data.a * channel_of(g.data, 2) <= 0xFE01_0000_0000,
{
    let cnt = g.count as int;
    let al = g.data.a as int;
    assert(0 <= cnt * al <= 0xFF00_0000_00) by (nonlinear_arith)
        requires
            0 <= cnt <= 0xFFFF_FFFF,
            0 <= al <= 255,
    ;
    lemma_weight_times_byte(cnt * al, 0xFF00_0000_00, channel_of(g.data, 0));
    lemma_weight_times_byte(cnt * al, 0xFF00_0000_00, channel_of(g.data, 1));
    lemma_weight_times_byte(cnt * al, 0xFF00_0000_00, channel_of(g.data, 2));
    assert(255 * 0xFF00_0000_00 == 0xFE01_0000_0000);
}

/// A rounded weighted average of values bounded by 255 is itself at most 255:
/// if `sum <= 255 * total` and `total >= 1`, then
/// `(sum + total / 2) / total <= 255`.
proof fn lemma_rounded_average_bound(sum: int, total: int)
    requires
        1 <= total,
        0 <= sum <= 255 * total,
    ensures
        0 <= (sum + total / 2) / total <= 255,
{
    assert(sum + total / 2 < 256 * total);
    assert((sum + total / 2) / total < 256) by {
        vstd::arithmetic::div_mod::lemma_multiply_divide_lt(sum + total / 2, total, 256);
    }
    vstd::arithmetic::div_mod::lemma_div_pos_is_pos(sum + total / 2, total);
}

impl Grouped<Color> {
    /// The weighted mean color of `members`: RGB channels are weighted by
    /// `count * alpha`, alpha by `count` alone, each rounded to nearest. If no
    /// member carries any alpha weight the mean is the all-zero color.
    pub fn mean_of(members: &Vec<Grouped<Color>>) -> (c: Color)
        ensures
            c == mean_spec(members@),
    {
        let ghost s = members@;
        let mut tc: u128 = 0;
        let mut ta: u128 = 0;
        let mut sr: u128 = 0;
        let mut sg: u128 = 0;
        let mut sb: u128 = 0;
        let mut i: usize = 0;
        while i < members.len()
            invariant
                0 <= i <= s.len(),
                s == members@,
                tc as int == total_count(s.take(i as int)),
                ta as int == total_alpha(s.take(i as int)),
                sr as int == weighted_channel_sum(s.take(i as int), 0),
                sg as int == weighted_channel_sum(s.take(i as int), 1),
                sb as int == weighted_channel_sum(s.take(i as int), 2),
                tc as int <= i * 0x1_0000_0000,
                ta as int <= i * 0xFF00_0000_00,
                sr as int <= i * 0xFE01_0000_0000,
                sg as int <= i * 0xFE01_0000_0000,
                sb as int <= i * 0xFE01_0000_0000,
            decreases s.len() - i,
        {
            let g = members[i];
            proof {
                assert(s.take(i as int + 1).drop_last() =~= s.take(i as int));
                assert(s.take(i as int + 1).last() == g);
                lemma_member_bounds(g);
            }
            let weight: u128 = (g.count as u128) * (g.data.a as u128);
            tc = tc + g.count as u128;
            ta = ta + weight;
            sr = sr + weight * (g.data.r as u128);
            sg = sg + weight * (g.data.g as u128);
            sb = sb + weight * (g.data.b as u128);
            i = i + 1;
        }
        proof {
            assert(s.take(s.len() as int) =~= s);
            lemma_sums_bounds(s);
        }
        if ta == 0 {
            Color::new(0, 0, 0, 0)
        } else {
            proof {
                lemma_rounded_average_bound(sr as int, ta as int);
                lemma_rounded_average_bound(sg as int, ta as int);
                lemma_rounded_average_bound(sb as int, ta as int);
                lemma_rounded_average_bound(ta as int, tc as int);
            }
            let r = ((sr + ta / 2) / ta) as u8;
            let g = ((sg + ta / 2) / ta) as u8;
            let b = ((sb + ta / 2) / ta) as u8;
            let a = ((ta + tc / 2) / tc) as u8;
            Color::new(r, g, b, a)
        }
    }
}

/// The four channel bytes of a color read as one base-256 number. Distinct
/// colors have distinct keys, so the key gives the histogram a canonical
/// order that does not depend on how its input was ordered.
pub open spec fn color_key(c: Color) -> int {
    ((c.r * 256 + c.g) * 256 + c.b) * 256 + c.a
}

/// Compute the canonical key of a color.
pub fn color_key_of(c: &Color) -> (k: u32)
    ensures
        k as int == color_key(*c),
{
    (((c.r as u32) * 256 + (c.g as u32)) * 256 + (c.b as u32)) * 256 + (c.a as u32)
}

/// Colors with equal keys are equal.
pub proof fn lemma_color_key_injective(c1: Color, c2: Color)
    requires
        color_key(c1) == color_key(c2),
    ensures
        c1 == c2,
{
}

/// How many times `c` occurs in `s`.
pub open spec fn count_of(s: Seq<Color>, c: Color) -> int
    decreases s.len(),
{
    if s.len() == 0 {
        0
    } else {
        count_of(s.drop_last(), c) + if s.last() == c {
            1int
        } else {
            0int
        }
    }
}

/// An occurrence count is between zero and the sequence length.
pub proof fn lemma_count_of_bounds(s: Seq<Color>, c: Color)
    ensures
        0 <= count_of(s, c) <= s.len(),
        count_of(s, c) > 0 <==> s.contains(c),
    decreases s.len(),
{
    if s.len() > 0 {
        lemma_count_of_bounds(s.drop_last(), c);
        if s.contains(c) && s.last() != c {
            let i = choose|i: int| 0 <= i < s.len() && s[i] == c;
            assert(s.drop_last()[i] == c);
        }
        if s.drop_last().contains(c) {
            let i = choose|i: int| 0 <= i < s.len() - 1 && s.drop_last()[i] == c;
            assert(s[i] == c);
        }
    }
}

/// A histogram is well-formed when its entries are strictly ordered by the
/// canonical color key; in particular all its colors are distinct.
pub open spec fn hist_sorted(s: Seq<Grouped<Color>>) -> bool {
    forall|i: int, j: int|
        0 <= i < j < s.len() ==> color_key(#[trigger] s[i].data) < color_key(#[trigger] s[j].data)
}

/// Whether some entry of the histogram holds the color `c`.
pub open spec fn hist_has(s: Seq<Grouped<Color>>, c: Color) -> bool {
    exists|i: int| 0 <= i < s.len() && #[trigger] s[i].data == c
}

/// Every entry's count is the number of occurrences of its color in `pixels`.
pub open spec fn hist_counts(s: Seq<Grouped<Color>>, pixels: Seq<Color>) -> bool {
    forall|j: int| 0 <= j < s.len() ==> #[trigger] s[j].count == count_of(pixels, s[j].data)
}

/// Build the histogram of a pixel sequence: one entry per distinct color,
/// holding how many pixels have exactly that color, ordered by the canonical
/// color key.
pub fn build_histogram(pixels: &Vec<Color>) -> (h: Vec<Grouped<Color>>)
    requires
        pixels@.len() <= 0xFFFF_FFFF,
    ensures
        hist_sorted(h@),
        hist_counts(h@, pixels@),
        forall|c: Color| hist_has(h@, c) <==> pixels@.contains(c),
{
    let ghost ps = pixels@;
    let mut h: Vec<Grouped<Color>> = Vec::new();
    let mut i: usize = 0;
    while i < pixels.len()
        invariant
            0 <= i <= ps.len(),
            ps == pixels@,
            ps.len() <= 0xFFFF_FFFF,
            hist_sorted(h@),
            hist_counts(h@, ps.take(i as int)),
            forall|c: Color| hist_has(h@, c) <==> ps.take(i as int).contains(c),
        decreases ps.len() - i,
    {
        let p = pixels[i];
        let k = color_key_of(&p);
        let ghost h_old = h@;
        proof {
            assert(ps.take(i as int + 1).drop_last() =~= ps.take(i as int));
            assert(ps.take(i as int + 1).last() == p);
        }
        let mut idx: usize = 0;
        while idx < h.len() && color_key_of(&h[idx].data) < k
            invariant
                0 <= idx <= h@.len(),
                h@ == h_old,
                k as int == color_key(p),
                forall|m: int| 0 <= m < idx ==> color_key(#[trigger] h@[m].data) < k as int,
                hist_sorted(h@),
            decreases h@.len() - idx,
        {
            idx = idx + 1;
        }
        if idx < h.len() && color_key_of(&h[idx].data) == k {
            proof {
                lemma_color_key_injective(h@[idx as int].data, p);
                lemma_count_of_bounds(ps.take(i as int), p);
            }
            let g = h[idx];
            h.set(idx, Grouped { data: g.data, count: g.count + 1 });
            proof {
                assert forall|j: int| 0 <= j < h@.len() implies #[trigger] h@[j].count == count_of(
                    ps.take(i as int + 1),
                    h@[j].data,
                ) by {
                    if j != idx {
                        assert(h@[j].data == h_old[j].data);
                        assert(h@[j].data != p) by {
                            if h@[j].data == p {
                                assert(color_key(h_old[j].data) == color_key(h_old[idx as int].data));
                            }
                        }
                    }
                }
                assert forall|c: Color| hist_has(h@, c) <==> ps.take(i as int + 1).contains(c) by {
                    assert forall|c: Color| hist_has(h@, c) implies ps.take(i as int + 1).contains(
                        c,
                    ) by {
                        let j = choose|j: int| 0 <= j < h@.len() && h@[j].data == c;
                        assert(h_old[j].data == c);
                        assert(hist_has(h_old, c));
                        assert(ps.take(i as int).contains(c));
                        let m = choose|m: int| 0 <= m < i && ps.take(i as int)[m] == c;
                        assert(ps.take(i as int + 1)[m] == c);
                    }
                    assert forall|c: Color| ps.take(i as int + 1).contains(c) implies hist_has(
                        h@,
                        c,
                    ) by {
                        let m = choose|m: int|
                            0 <= m < i + 1 && (#[trigger] ps.take(i as int + 1)[m]) == c;
                        if m < i {
                            assert(ps.take(i as int)[m] == c);
                            assert(hist_has(h_old, c));
                            let j = choose|j: int| 0 <= j < h_old.len() && h_old[j].data == c;
                            if j == idx {
                                assert(h@[j].data == c);
                            } else {
                                assert(h@[j].data == c);
                            }
                        } else {
                            assert(c == p);
                            assert(h@[idx as int].data == c);
                        }
                    }
                }
            }
        } else {
            proof {
                lemma_count_of_bounds(ps.take(i as int), p);
                assert(!hist_has(h_old, p)) by {
                    if hist_has(h_old, p) {
                        let j = choose|j: int| 0 <= j < h_old.len() && h_old[j].data == p;
                        if j < idx {
                            assert(color_key(h_old[j].data) < k as int);
                        } else {
                            assert(idx < h_old.len());
                            assert(color_key(h_old[idx as int].data) > k as int || (idx < j));
                        }
                    }
                }
                assert(count_of(ps.take(i as int), p) == 0);
            }
            h.insert(idx, Grouped { data: p, count: 1 });
            proof {
                let hn = h@;
                assert forall|j: int| 0 <= j < hn.len() implies #[trigger] hn[j].count == count_of(
                    ps.take(i as int + 1),
                    hn[j].data,
                ) by {
                    if j < idx {
                        assert(hn[j] == h_old[j]);
                        assert(hn[j].data != p);
                    } else if j == idx {
                        assert(hn[j].data == p);
                    } else {
                        assert(hn[j] == h_old[j - 1]);
                        assert(hn[j].data != p);
                    }
                }
                assert(hist_sorted(hn)) by {
                    assert forall|x: int, y: int| 0 <= x < y < hn.len() implies color_key(
                        #[trigger] hn[x].data,
                    ) < color_key(#[trigger] hn[y].data) by {
                        if x < idx && y < idx {
                        } else if x < idx && y == idx {
                            assert(hn[x] == h_old[x]);
                        } else if x == idx && y > idx {
                            assert(hn[y] == h_old[y - 1]);
                            assert(y - 1 >= idx);
                            assert(color_key(h_old[y - 1].data) > k as int) by {
                                if y - 1 == idx {
                                } else {
                                    assert(color_key(h_old[idx as int].data) < color_key(
                                        h_old[y - 1].data,
                                    ));
                                }
                            }
                        } else if x < idx && y > idx {
                            assert(hn[x] == h_old[x]);
                            assert(hn[y] == h_old[y - 1]);
                            assert(color_key(h_old[y - 1].data) >= k as int) by {
                                if y - 1 == idx {
                                } else {
                                    assert(color_key(h_old[idx as int].data) < color_key(
                                        h_old[y - 1].data,
                                    ));
                                }
                            }
                        } else {
                            assert(hn[x] == h_old[x - 1]);
                            assert(hn[y] == h_old[y - 1]);
                        }
                    }
                }
                assert forall|c: Color| hist_has(hn, c) <==> ps.take(i as int + 1).contains(c) by {
                    assert forall|c: Color| hist_has(hn, c) implies ps.take(i as int + 1).contains(
                        c,
                    ) by {
                        let j = choose|j: int| 0 <= j < hn.len() && hn[j].data == c;
                        if j == idx {
                            assert(c == p);
                            assert(ps.take(i as int + 1)[i as int] == p);
                        } else {
                            assert(hist_has(h_old, c)) by {
                                if j < idx {
                                    assert(h_old[j].data == c);
                                } else {
                                    assert(h_old[j - 1].data == c);
                                }
                            }
                            assert(ps.take(i as int).contains(c));
                            let m = choose|m: int| 0 <= m < i && ps.take(i as int)[m] == c;
                            assert(ps.take(i as int + 1)[m] == c);
                        }
                    }
                    assert forall|c: Color| ps.take(i as int + 1).contains(c) implies hist_has(
                        hn,
                        c,
                    ) by {
                        let m = choose|m: int|
                            0 <= m < i + 1 && (#[trigger] ps.take(i as int + 1)[m]) == c;
                        if m < i {
                            assert(ps.take(i as int)[m] == c);
                            assert(hist_has(h_old, c));
                            let j = choose|j: int| 0 <= j < h_old.len() && h_old[j].data == c;
                            if j < idx {
                                assert(hn[j].data == c);
                            } else {
                                assert(hn[j + 1].data == c);
                            }
                        } else {
                            assert(c == p);
                            assert(hn[idx as int].data == c);
                        }
                    }
                }
            }
        }
        i = i + 1;
    }
    proof {
        assert(ps.take(ps.len() as int) =~= ps);
    }
    h
}

/// The number of histogram entries is the number of distinct colors in the
/// pixel sequence the histogram was built from.
pub proof fn lemma_histogram_len_is_distinct_count(h: Seq<Grouped<Color>>, pixels: Seq<Color>)
    requires
        hist_sorted(h),
        forall|c: Color| hist_has(h, c) <==> pixels.contains(c),
    ensures
        h.len() == pixels.to_set().len(),
{
    let colors = h.map_values(|g: Grouped<Color>| g.data);
    assert forall|i: int, j: int| 0 <= i < j < colors.len() implies colors[i] != colors[j] by {
        assert(color_key(h[i].data) < color_key(h[j].data));
    }
    colors.unique_seq_to_set();
    assert(colors.to_set() =~= pixels.to_set()) by {
        assert forall|c: Color| colors.to_set().contains(c) implies pixels.to_set().contains(c) by {
            let i = choose|i: int| 0 <= i < colors.len() && colors[i] == c;
            assert(h[i].data == c);
            assert(hist_has(h, c));
        }
        assert forall|c: Color| pixels.to_set().contains(c) implies colors.to_set().contains(c) by {
            assert(pixels.contains(c));
            assert(hist_has(h, c));
            let i = choose|i: int| 0 <= i < h.len() && h[i].data == c;
            assert(colors[i] == c);
        }
    }
}

/// `j` is the index of the centroid nearest to `c`, with ties broken by the
/// lowest index: no centroid is strictly nearer, and every centroid before
/// `j` is strictly farther.
pub open spec fn is_nearest(c: Color, cents: Seq<Color>, j: int) -> bool {
    &&& 0 <= j < cents.len()
    &&& forall|m: int|
        0 <= m < cents.len() ==> distance_spec(c, cents[j]) <= distance_spec(c, #[trigger] cents[m])
    &&& forall|m: int|
        0 <= m < j ==> distance_spec(c, #[trigger] cents[m]) > distance_spec(c, cents[j])
}

/// The index of the centroid with minimal distance to `c`; ties go to the
/// lowest index.
pub fn nearest_centroid_index(c: &Color, centroids: &Vec<Color>) -> (best: usize)
    requires
        centroids@.len() >= 1,
    ensures
        is_nearest(*c, centroids@, best as int),
{
    let mut best: usize = 0;
    let mut best_d: u64 = c.distance_to(&centroids[0]);
    let mut j: usize = 1;
    while j < centroids.len()
        invariant
            1 <= j <= centroids@.len(),
            best < j,
            best_d as int == distance_spec(*c, centroids@[best as int]),
            forall|m: int|
                0 <= m < j ==> best_d as int <= distance_spec(*c, #[trigger] centroids@[m]),
            forall|m: int|
                0 <= m < best ==> distance_spec(*c, #[trigger] centroids@[m]) > best_d as int,
        decreases centroids@.len() - j,
    {
        let d = c.distance_to(&centroids[j]);
        if d < best_d {
            best = j;
            best_d = d;
        }
        j = j + 1;
    }
    best
}

/// Assign every histogram entry to its nearest centroid.
pub fn assign_all(hist: &Vec<Grouped<Color>>, centroids: &Vec<Color>) -> (assign: Vec<usize>)
    requires
        centroids@.len() >= 1,
    ensures
        assign@.len() == hist@.len(),
        forall|i: int|
            0 <= i < hist@.len() ==> is_nearest(
                #[trigger] hist@[i].data,
                centroids@,
                assign@[i] as int,
            ),
{
    let mut assign: Vec<usize> = Vec::new();
    let mut i: usize = 0;
    while i < hist.len()
        invariant
            0 <= i <= hist@.len(),
            assign@.len() == i,
            centroids@.len() >= 1,
            forall|t: int|
                0 <= t < i ==> is_nearest(
                    #[trigger] hist@[t].data,
                    centroids@,
                    assign@[t] as int,
                ),
        decreases hist@.len() - i,
    {
        let j = nearest_centroid_index(&hist[i].data, centroids);
        assign.push(j);
        i = i + 1;
    }
    assign
}

/// The members assigned to cluster `j`: the subsequence of histogram entries
/// whose assignment is `j`, in histogram order.
pub open spec fn members_of(
    hist: Seq<Grouped<Color>>,
    assign: Seq<usize>,
    j: int,
) -> Seq<Grouped<Color>>
    decreases hist.len(),
{
    if hist.len() == 0 {
        Seq::empty()
    } else {
        let rest = members_of(hist.drop_last(), assign.drop_last(), j);
        if assign.last() as int == j {
            rest.push(hist.last())
        } else {
            rest
        }
    }
}

/// Recompute each centroid as the weighted mean of its assigned members; a
/// centroid with no members keeps its previous value.
pub fn update_centroids(
    hist: &Vec<Grouped<Color>>,
    assign: &Vec<usize>,
    centroids: &mut Vec<Color>,
)
    requires
        assign@.len() == hist@.len(),
    ensures
        final(centroids)@.len() == old(centroids)@.len(),
        forall|j: int|
            0 <= j < old(centroids)@.len() ==> final(centroids)@[j] == (if members_of(
                hist@,
                assign@,
                j,
            ).len() == 0 {
                old(centroids)@[j]
            } else {
                mean_spec(members_of(hist@, assign@, j))
            }),
{
    let ghost orig = centroids@;
    let mut j: usize = 0;
    while j < centroids.len()
        invariant
            0 <= j <= centroids@.len(),
            centroids@.len() == orig.len(),
            assign@.len() == hist@.len(),
            forall|t: int| j <= t < orig.len() ==> centroids@[t] == orig[t],
            forall|t: int|
                0 <= t < j ==> centroids@[t] == (if members_of(hist@, assign@, t).len() == 0 {
                    orig[t]
                } else {
                    mean_spec(members_of(hist@, assign@, t))
                }),
        decreases centroids@.len() - j,
    {
        let mut members: Vec<Grouped<Color>> = Vec::new();
        let mut i: usize = 0;
        while i < hist.len()
            invariant
                0 <= i <= hist@.len(),
                assign@.len() == hist@.len(),
                j < centroids@.len(),
                members@ == members_of(
                    hist@.take(i as int),
                    assign@.take(i as int),
                    j as int,
                ),
            decreases hist@.len() - i,
        {
            proof {
                assert(hist@.take(i as int + 1).drop_last() =~= hist@.take(i as int));
                assert(assign@.take(i as int + 1).drop_last() =~= assign@.take(i as int));
            }
            if assign[i] == j {
                members.push(hist[i]);
            }
            i = i + 1;
        }
        proof {
            assert(hist@.take(hist@.len() as int) =~= hist@);
            assert(assign@.take(hist@.len() as int) =~= assign@);
        }
        if members.len() > 0 {
            let m = Grouped::<Color>::mean_of(&members);
            centroids.set(j, m);
        }
        j = j + 1;
    }
}

/// Whether two assignments are identical.
pub fn assignments_equal(a: &Vec<usize>, b: &Vec<usize>) -> (r: bool)
    requires
        a@.len() == b@.len(),
    ensures
        r <==> a@ == b@,
{
    let mut i: usize = 0;
    while i < a.len()
        invariant
            0 <= i <= a@.len(),
            a@.len() == b@.len(),
            forall|t: int| 0 <= t < i ==> a@[t] == b@[t],
        decreases a@.len() - i,
    {
        if a[i] != b[i] {
            return false;
        }
        i = i + 1;
    }
    proof {
        assert(a@ =~= b@);
    }
    true
}

/// How many iterations of assignment and centroid update the clustering
/// engine will run at most before accepting the current assignment.
pub const MAX_ITERATIONS: usize = 16;

/// Reduce a histogram with more than `k` distinct colors to `k` representative
/// centroids and an assignment of every histogram entry to one of them.
///
/// Seeding is deterministic and independent of the order the pixels arrived
/// in: the histogram is in canonical color-key order, and the `k` seeds are
/// evenly strided samples of it. The engine then iterates weighted Lloyd
/// steps — assign every color to its nearest centroid (ties to the lowest
/// index), recompute each centroid as the weighted mean of its members — and
/// stops early once an iteration changes no assignment.
pub fn cluster_colors(hist: &Vec<Grouped<Color>>, k: usize) -> (r: (Vec<Color>, Vec<usize>))
    requires
        1 <= k,
        k <= hist@.len(),
        hist@.len() <= 0xFFFF_FFFF,
    ensures
        r.0@.len() == k,
        r.1@.len() == hist@.len(),
        forall|i: int| 0 <= i < hist@.len() ==> (#[trigger] r.1@[i]) < k,
        forall|i: int|
            0 <= i < hist@.len() ==> is_nearest(#[trigger] hist@[i].data, r.0@, r.1@[i] as int),
{
    let n = hist.len();
    let mut centroids: Vec<Color> = Vec::new();
    let mut j: usize = 0;
    while j < k
        invariant
            0 <= j <= k,
            1 <= k <= n,
            n == hist@.len(),
            n <= 0xFFFF_FFFF,
            centroids@.len() == j,
        decreases k - j,
    {
        proof {
            lemma_seed_index_in_range(j as int, n as int, k as int);
        }
        let idx: usize = ((j as u64) * (n as u64) / (k as u64)) as usize;
        centroids.push(hist[idx].data);
        j = j + 1;
    }
    let mut assign: Vec<usize> = assign_all(hist, &centroids);
    let mut iter: usize = 1;
    while iter < MAX_ITERATIONS
        invariant
            centroids@.len() == k,
            1 <= k,
            assign@.len() == hist@.len(),
            forall|i: int|
                0 <= i < hist@.len() ==> is_nearest(
                    #[trigger] hist@[i].data,
                    centroids@,
                    assign@[i] as int,
                ),
        decreases MAX_ITERATIONS - iter,
    {
        update_centroids(hist, &assign, &mut centroids);
        let next = assign_all(hist, &centroids);
        let converged = assignments_equal(&next, &assign);
        assign = next;
        if converged {
            break;
        }
        iter = iter + 1;
    }
    proof {
        assert forall|i: int| 0 <= i < hist@.len() implies (assign@[i]) < k by {
            assert(is_nearest(hist@[i].data, centroids@, assign@[i] as int));
        }
    }
    (centroids, assign)
}

/// For `0 <= j < k <= n`, the strided seed index `j * n / k` stays below `n`,
/// and the product `j * n` fits in 64 bits.
proof fn lemma_seed_index_in_range(j: int, n: int, k: int)
    requires
        0 <= j < k,
        k <= n,
        n <= 0xFFFF_FFFF,
    ensures
        0 <= j * n < k * n,
        j * n <= 0xFFFF_FFFF * 0xFFFF_FFFF,
        j * n / k < n,
{
    assert(0 <= j * n < k * n && j * n <= 0xFFFF_FFFF * 0xFFFF_FFFF) by (nonlinear_arith)
        requires
            0 <= j < k,
            k <= n,
            0 < n <= 0xFFFF_FFFF,
    ;
    vstd::arithmetic::div_mod::lemma_multiply_divide_lt(j * n, k, n);
}

} // verus!
