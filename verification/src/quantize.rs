//! The quantization pipeline: build a weighted histogram from a pixel
//! sequence, reduce it to at most `target_count` representative colors, and
//! return the mapping from every distinct input color to its representative.

use vstd::prelude::*;

use crate::color::{canon_spec, canonicalize, rgb5a3_spec, Color};
use crate::k_means::{
    build_histogram, cluster_colors, color_key, hist_has, hist_sorted,
    lemma_histogram_len_is_distinct_count, Grouped,
};

verus! {

/// What a cluster representative looks like in the final map: packed to the
/// RGB5A3 format when packing is requested, and canonicalized so that a fully
/// transparent representative is the all-zero color.
pub open spec fn post_of(c: Color, pack: bool) -> Color {
    canon_spec(
        if pack {
            rgb5a3_spec(c)
        } else {
            c
        },
    )
}

/// Whether `v` is the post-processed form of some color: under packing, a
/// color expressible in the RGB5A3 format.
pub open spec fn is_post_image(v: Color, pack: bool) -> bool {
    exists|cc: Color| v == #[trigger] post_of(cc, pack)
}

/// A post-processed representative that is fully transparent is the all-zero
/// color.
pub proof fn lemma_post_transparent_zero(c: Color, pack: bool)
    ensures
        post_of(c, pack).a == 0 ==> post_of(c, pack) == (Color { r: 0, g: 0, b: 0, a: 0 }),
{
}

/// The final output of quantization: a mapping from every distinct input
/// color to its representative palette color, held as key/value pairs in
/// canonical color-key order.
pub struct QuantizationMap {
    pub entries: Vec<(Color, Color)>,
}

impl QuantizationMap {
    /// The values of the map, in entry order.
    pub open spec fn values_seq(self) -> Seq<Color> {
        self.entries@.map_values(|e: (Color, Color)| e.1)
    }

    /// Whether some entry holds the key `c`.
    pub open spec fn has_key(self, c: Color) -> bool {
        exists|i: int| 0 <= i < self.entries@.len() && (#[trigger] self.entries@[i]).0 == c
    }

    /// A well-formed map binds each key at most once.
    pub open spec fn wf(self) -> bool {
        forall|i: int, j: int|
            0 <= i < j < self.entries@.len() ==> (#[trigger] self.entries@[i]).0 != (
            #[trigger] self.entries@[j]).0
    }

    /// The number of entries of the map.
    pub fn len(&self) -> (n: usize)
        ensures
            n == self.entries@.len(),
    {
        self.entries.len()
    }

    /// The representative bound to `c`, or `None` when `c` is not a key.
    pub fn lookup(&self, c: &Color) -> (r: Option<Color>)
        requires
            self.wf(),
        ensures
            r is Some <==> self.has_key(*c),
            forall|i: int|
                0 <= i < self.entries@.len() && (#[trigger] self.entries@[i]).0 == *c ==> r
                    == Some(self.entries@[i].1),
    {
        let mut i: usize = 0;
        while i < self.entries.len()
            invariant
                self.wf(),
                0 <= i <= self.entries@.len(),
                forall|t: int| 0 <= t < i ==> (#[trigger] self.entries@[t]).0 != *c,
            decreases self.entries@.len() - i,
        {
            if self.entries[i].0 == *c {
                proof {
                    assert forall|t: int|
                        0 <= t < self.entries@.len() && (#[trigger] self.entries@[t]).0
                            == *c implies self.entries@[t].1 == self.entries@[i as int].1 by {
                        if t < i {
                            assert((self.entries@[t]).0 != (self.entries@[i as int]).0);
                        } else if t > i {
                            assert((self.entries@[i as int]).0 != (self.entries@[t]).0);
                        }
                    }
                }
                return Some(self.entries[i].1);
            }
            i = i + 1;
        }
        None
    }
}

/// Everything quantization promises of the map it returns for `pixels`,
/// a target palette size `k` and a packing choice:
/// - the keys are exactly the distinct colors of the input, one entry each,
///   in canonical color-key order;
/// - the map holds at most `k` distinct values;
/// - a fully transparent value is the all-zero color;
/// - when the input has at most `k` distinct colors, every color is its own
///   representative, up to packing and transparency canonicalization;
/// - every value is a post-processed representative, so under packing every
///   value is expressible in the RGB5A3 format.
pub open spec fn quantize_post(m: QuantizationMap, pixels: Seq<Color>, k: int, pack: bool) -> bool {
    &&& m.wf()
    &&& m.entries@.len() == pixels.to_set().len()
    &&& forall|i: int, j: int|
        0 <= i < j < m.entries@.len() ==> color_key((#[trigger] m.entries@[i]).0) < color_key(
            (#[trigger] m.entries@[j]).0,
        )
    &&& forall|i: int|
        0 <= i < m.entries@.len() ==> pixels.contains((#[trigger] m.entries@[i]).0)
    &&& forall|c: Color| #[trigger] pixels.contains(c) ==> m.has_key(c)
    &&& m.values_seq().to_set().len() <= k
    &&& forall|i: int|
        0 <= i < m.entries@.len() ==> ((#[trigger] m.entries@[i]).1.a == 0 ==> m.entries@[i].1 == (
        Color { r: 0, g: 0, b: 0, a: 0 }))
    &&& (pixels.to_set().len() <= k ==> forall|i: int|
        0 <= i < m.entries@.len() ==> (#[trigger] m.entries@[i]).1 == post_of(
            m.entries@[i].0,
            pack,
        ))
    &&& forall|i: int|
        0 <= i < m.entries@.len() ==> is_post_image((#[trigger] m.entries@[i]).1, pack)
}

/// The one configuration quantization rejects.
#[derive(Clone, Copy, PartialEq, Eq, Debug, Structural)]
pub enum QuantizeError {
    /// The requested palette size was zero.
    InvalidTargetCount,
}

/// The pipeline on a histogram that is already known to need clustering or
/// not; `k` must be positive.
fn quantize_inner(pixels: &Vec<Color>, k: usize, pack: bool) -> (m: QuantizationMap)
    requires
        1 <= k,
        pixels@.len() <= 0xFFFF_FFFF,
    ensures
        quantize_post(m, pixels@, k as int, pack),
{
    let hist = build_histogram(pixels);
    proof {
        lemma_histogram_len_is_distinct_count(hist@, pixels@);
        pixels@.lemma_cardinality_of_set();
    }
    let mut entries: Vec<(Color, Color)> = Vec::new();
    if hist.len() <= k {
        let mut i: usize = 0;
        while i < hist.len()
            invariant
                0 <= i <= hist@.len(),
                entries@.len() == i,
                forall|t: int| 0 <= t < i ==> (#[trigger] entries@[t]).0 == hist@[t].data,
                forall|t: int|
                    0 <= t < i ==> (#[trigger] entries@[t]).1 == post_of(hist@[t].data, pack),
            decreases hist@.len() - i,
        {
            let key = hist[i].data;
            let rep = if pack {
                key.as_rgb5a3()
            } else {
                key
            };
            let value = canonicalize(rep);
            entries.push((key, value));
            i = i + 1;
        }
        let m = QuantizationMap { entries };
        proof {
            let reps = hist@.map_values(|g: Grouped<Color>| g.data);
            lemma_quantize_post_common(m, hist@, reps, pixels@, k as int, pack);
            assert(m.values_seq().to_set().len() <= k as int) by {
                m.values_seq().lemma_cardinality_of_set();
            }
        }
        m
    } else {
        let (centroids, assign) = cluster_colors(&hist, k);
        let mut i: usize = 0;
        while i < hist.len()
            invariant
                0 <= i <= hist@.len(),
                entries@.len() == i,
                centroids@.len() == k,
                assign@.len() == hist@.len(),
                forall|t: int| 0 <= t < hist@.len() ==> (#[trigger] assign@[t]) < k,
                forall|t: int| 0 <= t < i ==> (#[trigger] entries@[t]).0 == hist@[t].data,
                forall|t: int|
                    0 <= t < i ==> (#[trigger] entries@[t]).1 == post_of(
                        centroids@[assign@[t] as int],
                        pack,
                    ),
            decreases hist@.len() - i,
        {
            let rep = centroids[assign[i]];
            let packed = if pack {
                rep.as_rgb5a3()
            } else {
                rep
            };
            let value = canonicalize(packed);
            entries.push((hist[i].data, value));
            i = i + 1;
        }
        let m = QuantizationMap { entries };
        proof {
            let reps = Seq::new(hist@.len(), |t: int| centroids@[assign@[t] as int]);
            lemma_quantize_post_common(m, hist@, reps, pixels@, k as int, pack);
            let values = m.values_seq();
            let pcents = centroids@.map_values(|c: Color| post_of(c, pack));
            assert(values.to_set().subset_of(pcents.to_set())) by {
                assert forall|v: Color| values.to_set().contains(v) implies pcents.to_set()
                    .contains(v) by {
                    let t = choose|t: int| 0 <= t < values.len() && values[t] == v;
                    assert(m.entries@[t].1 == v);
                    let j = assign@[t] as int;
                    assert(m.entries@[t].1 == post_of(centroids@[j], pack));
                    assert(pcents[j] == v);
                }
            }
            assert(values.to_set().len() <= k as int) by {
                broadcast use vstd::seq_lib::seq_to_set_is_finite;

                pcents.lemma_cardinality_of_set();
                vstd::set_lib::lemma_len_subset(values.to_set(), pcents.to_set());
            }
            assert(pixels@.to_set().len() > k as int);
        }
        m
    }
}

/// The parts of the quantization contract that hold of a map whose keys are
/// the histogram colors in histogram order and whose values are
/// post-processed representatives.
proof fn lemma_quantize_post_common(
    m: QuantizationMap,
    hist: Seq<Grouped<Color>>,
    reps: Seq<Color>,
    pixels: Seq<Color>,
    k: int,
    pack: bool,
)
    requires
        hist_sorted(hist),
        forall|c: Color| hist_has(hist, c) <==> pixels.contains(c),
        m.entries@.len() == hist.len(),
        reps.len() == hist.len(),
        forall|t: int| 0 <= t < hist.len() ==> (#[trigger] m.entries@[t]).0 == hist[t].data,
        forall|t: int|
            0 <= t < hist.len() ==> (#[trigger] m.entries@[t]).1 == post_of(reps[t], pack),
    ensures
        m.wf(),
        forall|i: int, j: int|
            0 <= i < j < m.entries@.len() ==> color_key((#[trigger] m.entries@[i]).0) < color_key(
                (#[trigger] m.entries@[j]).0,
            ),
        forall|i: int| 0 <= i < m.entries@.len() ==> pixels.contains((#[trigger] m.entries@[i]).0),
        forall|c: Color| #[trigger] pixels.contains(c) ==> m.has_key(c),
        forall|i: int|
            0 <= i < m.entries@.len() ==> ((#[trigger] m.entries@[i]).1.a == 0 ==> m.entries@[i].1
                == (Color { r: 0, g: 0, b: 0, a: 0 })),
        forall|i: int|
            0 <= i < m.entries@.len() ==> is_post_image((#[trigger] m.entries@[i]).1, pack),
{
    assert forall|i: int, j: int| 0 <= i < j < m.entries@.len() implies color_key(
        (#[trigger] m.entries@[i]).0,
    ) < color_key((#[trigger] m.entries@[j]).0) && m.entries@[i].0 != m.entries@[j].0 by {
        assert(color_key(hist[i].data) < color_key(hist[j].data));
    }
    assert forall|i: int| 0 <= i < m.entries@.len() implies pixels.contains(
        (#[trigger] m.entries@[i]).0,
    ) by {
        assert(hist[i].data == m.entries@[i].0);
        assert(hist_has(hist, hist[i].data));
    }
    assert forall|c: Color| #[trigger] pixels.contains(c) implies m.has_key(c) by {
        assert(hist_has(hist, c));
        let i = choose|i: int| 0 <= i < hist.len() && #[trigger] hist[i].data == c;
        assert((m.entries@[i]).0 == c);
    }
    assert forall|i: int|
        0 <= i < m.entries@.len() && (#[trigger] m.entries@[i]).1.a == 0 implies m.entries@[i].1
        == (Color { r: 0, g: 0, b: 0, a: 0 }) by {
        lemma_post_transparent_zero(reps[i], pack);
    }
    assert forall|i: int| 0 <= i < m.entries@.len() implies is_post_image(
        (#[trigger] m.entries@[i]).1,
        pack,
    ) by {
        assert(m.entries@[i].1 == post_of(reps[i], pack));
    }
}

/// Reduce the distinct colors of `pixels` to a palette of at most
/// `target_count` representatives and map every distinct input color to its
/// representative. When `pack` is set, representatives are packed to the
/// RGB5A3 hardware format first. A `target_count` of zero is invalid; an
/// empty input yields an empty map.
///
/// Which representatives the clustering picks for an input with more than
/// `target_count` distinct colors is a deterministic implementation choice;
/// the contract pins the map's keys, the palette bound, and the
/// transparency canonicalization of its values.
pub fn quantize(pixels: &Vec<Color>, target_count: usize, pack: bool) -> (r: Result<
    QuantizationMap,
    QuantizeError,
>)
    requires
        pixels@.len() <= 0xFFFF_FFFF,
    ensures
        r is Err <==> target_count == 0,
        r is Err ==> r == Err::<QuantizationMap, QuantizeError>(QuantizeError::InvalidTargetCount),
        r matches Ok(m) ==> quantize_post(m, pixels@, target_count as int, pack),
{
    if target_count == 0 {
        Err(QuantizeError::InvalidTargetCount)
    } else {
        Ok(quantize_inner(pixels, target_count, pack))
    }
}

/// Quantize with the default configuration: a palette of at most 256 colors
/// and no hardware-format packing.
pub fn quantize_image(pixels: &Vec<Color>) -> (m: QuantizationMap)
    requires
        pixels@.len() <= 0xFFFF_FFFF,
    ensures
        quantize_post(m, pixels@, 256, false),
{
    quantize_inner(pixels, 256, false)
}

/// Law: on an input with at most `k` distinct colors, no packing, and no
/// fully transparent color other than the all-zero color, the map is the
/// identity on the input colors. (A fully transparent input color with
/// nonzero RGB bytes is instead sent to the all-zero color.)
pub proof fn lemma_small_palette_identity(m: QuantizationMap, pixels: Seq<Color>, k: int)
    requires
        quantize_post(m, pixels, k, false),
        pixels.to_set().len() <= k,
        forall|c: Color|
            #[trigger] pixels.contains(c) ==> (c.a == 0 ==> c.r == 0 && c.g == 0 && c.b == 0),
    ensures
        forall|i: int| 0 <= i < m.entries@.len() ==> (#[trigger] m.entries@[i]).1 == m.entries@[i].0,
{
    assert forall|i: int| 0 <= i < m.entries@.len() implies (#[trigger] m.entries@[i]).1
        == m.entries@[i].0 by {
        let key = m.entries@[i].0;
        assert(pixels.contains(key));
        crate::color::lemma_canon_identity(key);
    }
}

/// Law: every key of the map is an input color; so when every fully
/// transparent input color is the all-zero color, every fully transparent
/// key is the all-zero color as well.
pub proof fn lemma_transparent_keys_canonical(m: QuantizationMap, pixels: Seq<Color>)
    requires
        forall|i: int| 0 <= i < m.entries@.len() ==> pixels.contains((#[trigger] m.entries@[i]).0),
        forall|c: Color|
            #[trigger] pixels.contains(c) ==> (c.a == 0 ==> c.r == 0 && c.g == 0 && c.b == 0),
    ensures
        forall|i: int|
            0 <= i < m.entries@.len() ==> ((#[trigger] m.entries@[i]).0.a == 0 ==> m.entries@[i].0.r
                == 0 && m.entries@[i].0.g == 0 && m.entries@[i].0.b == 0),
{
}

} // verus!
