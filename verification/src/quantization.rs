use vstd::prelude::*;

use crate::color::average_color;
use crate::color::lemma_insert_sorted_at;
use crate::color::lemma_sort_by_key_len;
use crate::color::lemma_sort_by_key_multiset;
use crate::color::spec_average;
use crate::color::spec_insert_sorted;
use crate::color::spec_sort_by_key;
use crate::color::Rgba;
use vstd::multiset::Multiset;
use vstd::seq_lib::lemma_multiset_commutative;

verus! {

/// The color channel a bucket is split along.
#[derive(Debug, Clone, PartialEq, Eq, Structural)]
pub enum Axis {
    Red,
    Green,
    Blue,
}

/// Per-channel minima and maxima of a pixel sequence, as
/// `(min_r, max_r, min_g, max_g, min_b, max_b)`; the neutral bounds
/// `(255, 0, ...)` for an empty sequence.
pub open spec fn spec_channel_bounds(s: Seq<Rgba>) -> (int, int, int, int, int, int)
    decreases s.len(),
{
    if s.len() == 0 {
        (255, 0, 255, 0, 255, 0)
    } else {
        let p = spec_channel_bounds(s.drop_last());
        let c = s.last();
        (
            if c.r < p.0 {
                c.r as int
            } else {
                p.0
            },
            if c.r > p.1 {
                c.r as int
            } else {
                p.1
            },
            if c.g < p.2 {
                c.g as int
            } else {
                p.2
            },
            if c.g > p.3 {
                c.g as int
            } else {
                p.3
            },
            if c.b < p.4 {
                c.b as int
            } else {
                p.4
            },
            if c.b > p.5 {
                c.b as int
            } else {
                p.5
            },
        )
    }
}

pub proof fn lemma_channel_bounds_ordered(s: Seq<Rgba>)
    requires
        s.len() > 0,
    ensures
        0 <= spec_channel_bounds(s).0 <= spec_channel_bounds(s).1 <= 255,
        0 <= spec_channel_bounds(s).2 <= spec_channel_bounds(s).3 <= 255,
        0 <= spec_channel_bounds(s).4 <= spec_channel_bounds(s).5 <= 255,
    decreases s.len(),
{
    if s.len() > 1 {
        lemma_channel_bounds_ordered(s.drop_last());
    } else {
        assert(s.drop_last().len() == 0);
        assert(spec_channel_bounds(s.drop_last()) == (255int, 0int, 255int, 0int, 255int, 0int));
    }
}

/// The largest per-channel range of a pixel sequence.
pub open spec fn spec_bucket_range(s: Seq<Rgba>) -> int {
    let b = spec_channel_bounds(s);
    let rr = b.1 - b.0;
    let rg = b.3 - b.2;
    let rb = b.5 - b.4;
    if rr >= rg && rr >= rb {
        rr
    } else if rg >= rb {
        rg
    } else {
        rb
    }
}

/// A working set of pixels during median-cut splitting.
#[derive(Debug, Clone)]
pub struct ColorBucket {
    pub pixels: Vec<Rgba>,
}

impl ColorBucket {
    pub fn new(pixels: Vec<Rgba>) -> (b: ColorBucket)
        ensures
            b.pixels@ == pixels@,
    {
        ColorBucket { pixels }
    }

    /// The spread of each color channel over the bucket, as
    /// `(max - min)` per channel; `(0, 0, 0)` for an empty bucket.
    pub fn get_color_ranges(&self) -> (ranges: (u8, u8, u8))
        ensures
            self.pixels@.len() == 0 ==> ranges == (0u8, 0u8, 0u8),
            self.pixels@.len() > 0 ==> {
                let b = spec_channel_bounds(self.pixels@);
                ranges.0 == b.1 - b.0 && ranges.1 == b.3 - b.2 && ranges.2 == b.5 - b.4
            },
    {
        let n = self.pixels.len();
        if n == 0 {
            return (0, 0, 0);
        }
        let mut min_r: u8 = 255;
        let mut max_r: u8 = 0;
        let mut min_g: u8 = 255;
        let mut max_g: u8 = 0;
        let mut min_b: u8 = 255;
        let mut max_b: u8 = 0;
        let mut i: usize = 0;
        while i < n
            invariant
                i <= n,
                n == self.pixels@.len(),
                min_r == spec_channel_bounds(self.pixels@.take(i as int)).0,
                max_r == spec_channel_bounds(self.pixels@.take(i as int)).1,
                min_g == spec_channel_bounds(self.pixels@.take(i as int)).2,
                max_g == spec_channel_bounds(self.pixels@.take(i as int)).3,
                min_b == spec_channel_bounds(self.pixels@.take(i as int)).4,
                max_b == spec_channel_bounds(self.pixels@.take(i as int)).5,
            decreases n - i,
        {
            proof {
                assert(self.pixels@.take(i + 1).drop_last() =~= self.pixels@.take(i as int));
                assert(self.pixels@.take(i + 1).last() == self.pixels@[i as int]);
            }
            let p = self.pixels[i];
            if p.r < min_r {
                min_r = p.r;
            }
            if p.r > max_r {
                max_r = p.r;
            }
            if p.g < min_g {
                min_g = p.g;
            }
            if p.g > max_g {
                max_g = p.g;
            }
            if p.b < min_b {
                min_b = p.b;
            }
            if p.b > max_b {
                max_b = p.b;
            }
            i = i + 1;
        }
        proof {
            assert(self.pixels@.take(n as int) =~= self.pixels@);
            lemma_channel_bounds_ordered(self.pixels@);
        }
        (max_r - min_r, max_g - min_g, max_b - min_b)
    }

    /// The bucket's single representative: the truncating channel mean of
    /// its pixels.
    pub fn get_representative_color(&self) -> (c: Rgba)
        ensures
            c == spec_average(self.pixels@),
    {
        average_color(&self.pixels)
    }
}

/// Ordering pixels by the chosen channel.
pub open spec fn axis_key(axis: Axis) -> spec_fn(Rgba) -> int {
    match axis {
        Axis::Red => |c: Rgba| c.r as int,
        Axis::Green => |c: Rgba| c.g as int,
        Axis::Blue => |c: Rgba| c.b as int,
    }
}

fn channel_value(c: &Rgba, axis: &Axis) -> (v: u8)
    ensures
        v as int == axis_key(*axis)(*c),
{
    match axis {
        Axis::Red => c.r,
        Axis::Green => c.g,
        Axis::Blue => c.b,
    }
}

fn insert_by_channel(v: &mut Vec<Rgba>, x: Rgba, axis: &Axis)
    ensures
        final(v)@ == spec_insert_sorted(old(v)@, x, axis_key(*axis)),
{
    let mut j: usize = v.len();
    while j > 0 && channel_value(&v[j - 1], axis) > channel_value(&x, axis)
        invariant
            j <= v@.len(),
            v@ == old(v)@,
            forall|k: int|
                j <= k < v@.len() ==> axis_key(*axis)(x) < axis_key(*axis)(#[trigger] v@[k]),
        decreases j,
    {
        j = j - 1;
    }
    proof {
        lemma_insert_sorted_at(v@, x, axis_key(*axis), j as int);
    }
    v.insert(j, x);
}

/// Stable-sorts the pixels by the chosen channel.
fn sort_by_channel(pixels: &Vec<Rgba>, axis: &Axis) -> (out: Vec<Rgba>)
    ensures
        out@ == spec_sort_by_key(pixels@, axis_key(*axis)),
{
    let mut out: Vec<Rgba> = Vec::new();
    let n = pixels.len();
    let mut i: usize = 0;
    while i < n
        invariant
            i <= n,
            n == pixels@.len(),
            out@ == spec_sort_by_key(pixels@.take(i as int), axis_key(*axis)),
        decreases n - i,
    {
        proof {
            assert(pixels@.take(i + 1).drop_last() =~= pixels@.take(i as int));
            assert(pixels@.take(i + 1).last() == pixels@[i as int]);
        }
        insert_by_channel(&mut out, pixels[i], axis);
        i = i + 1;
    }
    proof {
        assert(pixels@.take(n as int) =~= pixels@);
    }
    out
}

/// Median-cut palette quantization over a pixel population.
pub struct MedianCutQuantizer {
    pub buckets: Vec<ColorBucket>,
}

impl MedianCutQuantizer {
    /// The channel with the widest spread over the bucket, preferring red
    /// over green over blue on ties.
    pub open spec fn spec_largest_axis(s: Seq<Rgba>) -> Axis {
        let b = spec_channel_bounds(s);
        let rr = b.1 - b.0;
        let rg = b.3 - b.2;
        let rb = b.5 - b.4;
        if rr >= rg && rr >= rb {
            Axis::Red
        } else if rg >= rb {
            Axis::Green
        } else {
            Axis::Blue
        }
    }

    /// Repeatedly splits the widest-spread bucket along its dominant channel
    /// until the palette is full or no bucket can be split further, then
    /// reduces each bucket to its channel mean.
    pub fn quantize(pixels: &Vec<Rgba>, target_colors: u32) -> (palette: Vec<Rgba>)
        ensures
            pixels@.len() == 0 || target_colors == 0 ==> palette@.len() == 0,
            palette@.len() <= target_colors,
            palette@.len() <= pixels@.len(),
            pixels@.len() > 0 && target_colors > 0 ==> palette@.len() >= 1,
            forall|j: int| 0 <= j < palette@.len() ==> (#[trigger] palette@[j]).a == 255,
            pixels@.len() > 0 && target_colors > 0 ==> exists|bs: Seq<ColorBucket>|
                spec_quantize_partition(pixels@, target_colors as int, bs, palette@),
    {
        broadcast use vstd::seq_lib::group_to_multiset_ensures;

        if pixels.len() == 0 || target_colors == 0 {
            return Vec::new();
        }
        let mut buckets: Vec<ColorBucket> = Vec::new();
        buckets.push(ColorBucket::new(clone_pixels(pixels)));
        proof {
            assert(buckets@.drop_last() =~= Seq::<ColorBucket>::empty());
            assert(spec_buckets_content(buckets@.drop_last()) == Multiset::<Rgba>::empty());
            assert(spec_buckets_content(buckets@) =~= pixels@.to_multiset());
        }
        while buckets.len() < target_colors as usize
            invariant_except_break
                1 <= buckets@.len() <= target_colors,
                spec_buckets_content(buckets@) == pixels@.to_multiset(),
                forall|j: int| 0 <= j < buckets@.len() ==> (#[trigger] buckets@[j]).pixels@.len() > 0,
            ensures
                1 <= buckets@.len() <= target_colors,
                spec_buckets_content(buckets@) == pixels@.to_multiset(),
                forall|j: int| 0 <= j < buckets@.len() ==> (#[trigger] buckets@[j]).pixels@.len() > 0,
                buckets@.len() == target_colors || forall|j: int|
                    0 <= j < buckets@.len() ==> spec_bucket_range(
                        (#[trigger] buckets@[j]).pixels@,
                    ) <= 0,
            decreases target_colors - buckets@.len(),
        {
            let mut best_idx: usize = 0;
            let mut best_range: u8 = bucket_range(&buckets[0]);
            let mut j: usize = 1;
            while j < buckets.len()
                invariant
                    1 <= j <= buckets@.len(),
                    best_idx < j,
                    forall|k: int|
                        0 <= k < buckets@.len() ==> (#[trigger] buckets@[k]).pixels@.len() > 0,
                    best_range as int == spec_bucket_range(buckets@[best_idx as int].pixels@),
                    forall|k: int|
                        0 <= k < j ==> spec_bucket_range((#[trigger] buckets@[k]).pixels@)
                            <= best_range,
                decreases buckets@.len() - j,
            {
                let r = bucket_range(&buckets[j]);
                if r >= best_range {
                    best_idx = j;
                    best_range = r;
                }
                j = j + 1;
            }
            let ghost before = buckets@;
            let bucket = buckets.remove(best_idx);
            proof {
                lemma_content_remove(before, best_idx as int);
                assert(bucket == before[best_idx as int]);
            }
            if bucket.pixels.len() <= 1 {
                buckets.push(bucket);
                proof {
                    lemma_content_push(before.remove(best_idx as int), bucket);
                    assert(spec_buckets_content(buckets@) == pixels@.to_multiset());
                    lemma_singleton_range(bucket.pixels@);
                    assert forall|k: int|
                        0 <= k < buckets@.len() implies spec_bucket_range(
                        (#[trigger] buckets@[k]).pixels@,
                    ) <= 0 by {
                        if k < buckets@.len() - 1 {
                            let rem = before.remove(best_idx as int);
                            assert(buckets@[k] == rem[k]);
                            if k < best_idx {
                                assert(rem[k] == before[k]);
                            } else {
                                assert(rem[k] == before[k + 1]);
                            }
                        } else {
                            assert(buckets@[k] == bucket);
                        }
                    }
                    assert forall|k: int|
                        0 <= k < buckets@.len() implies (#[trigger] buckets@[k]).pixels@.len()
                        > 0 by {
                        if k < buckets@.len() - 1 {
                            let rem = before.remove(best_idx as int);
                            assert(buckets@[k] == rem[k]);
                            if k < best_idx {
                                assert(rem[k] == before[k]);
                            } else {
                                assert(rem[k] == before[k + 1]);
                            }
                        } else {
                            assert(buckets@[k] == bucket);
                        }
                    }
                }
                break;
            }
            let ranges = bucket.get_color_ranges();
            if ranges.0 == 0 && ranges.1 == 0 && ranges.2 == 0 {
                buckets.push(bucket);
                proof {
                    lemma_content_push(before.remove(best_idx as int), bucket);
                    assert(spec_buckets_content(buckets@) == pixels@.to_multiset());
                    lemma_channel_bounds_ordered(bucket.pixels@);
                    assert(spec_bucket_range(bucket.pixels@) <= 0);
                    assert forall|k: int|
                        0 <= k < buckets@.len() implies spec_bucket_range(
                        (#[trigger] buckets@[k]).pixels@,
                    ) <= 0 by {
                        if k < buckets@.len() - 1 {
                            let rem = before.remove(best_idx as int);
                            assert(buckets@[k] == rem[k]);
                            if k < best_idx {
                                assert(rem[k] == before[k]);
                            } else {
                                assert(rem[k] == before[k + 1]);
                            }
                        } else {
                            assert(buckets@[k] == bucket);
                        }
                    }
                    assert forall|k: int|
                        0 <= k < buckets@.len() implies (#[trigger] buckets@[k]).pixels@.len()
                        > 0 by {
                        if k < buckets@.len() - 1 {
                            let rem = before.remove(best_idx as int);
                            assert(buckets@[k] == rem[k]);
                            if k < best_idx {
                                assert(rem[k] == before[k]);
                            } else {
                                assert(rem[k] == before[k + 1]);
                            }
                        } else {
                            assert(buckets@[k] == bucket);
                        }
                    }
                }
                break;
            }
            let ghost bucket_pixels = bucket.pixels@;
            let axis = Self::find_largest_axis(&bucket);
            let (left, right) = Self::split_bucket(bucket, axis);
            proof {
                lemma_sort_by_key_len(bucket_pixels, axis_key(axis));
                lemma_sort_by_key_multiset(bucket_pixels, axis_key(axis));
                let sorted = spec_sort_by_key(bucket_pixels, axis_key(axis));
                let mid = bucket_pixels.len() as int / 2;
                assert(sorted =~= left.pixels@ + right.pixels@);
                lemma_multiset_commutative(left.pixels@, right.pixels@);
            }
            let ghost after_remove = before.remove(best_idx as int);
            buckets.push(left);
            proof {
                lemma_content_push(after_remove, left);
            }
            let ghost with_left = buckets@;
            buckets.push(right);
            proof {
                lemma_content_push(with_left, right);
                let lm = left.pixels@.to_multiset();
                let rm = right.pixels@.to_multiset();
                let a = spec_buckets_content(after_remove);
                let bm = bucket_pixels.to_multiset();
                assert(a.add(lm).add(rm) =~= a.add(bm));
                assert(spec_buckets_content(buckets@) == pixels@.to_multiset());
                assert forall|k: int|
                    0 <= k < buckets@.len() implies (#[trigger] buckets@[k]).pixels@.len()
                    > 0 by {
                    if k < buckets@.len() - 2 {
                        assert(buckets@[k] == after_remove[k]);
                        if k < best_idx {
                            assert(after_remove[k] == before[k]);
                        } else {
                            assert(after_remove[k] == before[k + 1]);
                        }
                    } else if k == buckets@.len() - 2 {
                        assert(buckets@[k] == left);
                    } else {
                        assert(buckets@[k] == right);
                    }
                }
            }
        }
        let ghost final_bs = buckets@;
        proof {
            lemma_len_le_card(final_bs);
            assert(pixels@.to_multiset().len() == pixels@.len());
        }
        let mut palette: Vec<Rgba> = Vec::new();
        let n = buckets.len();
        let mut j: usize = 0;
        while j < n
            invariant
                j <= n,
                n == buckets@.len(),
                buckets@ == final_bs,
                forall|k: int| 0 <= k < n ==> (#[trigger] buckets@[k]).pixels@.len() > 0,
                palette@.len() == j,
                forall|k: int|
                    0 <= k < j ==> palette@[k] == spec_average((#[trigger] buckets@[k]).pixels@),
                forall|k: int| 0 <= k < j ==> (#[trigger] palette@[k]).a == 255,
            decreases n - j,
        {
            let c = buckets[j].get_representative_color();
            palette.push(c);
            j = j + 1;
        }
        proof {
            assert(spec_quantize_partition(
                pixels@,
                target_colors as int,
                final_bs,
                palette@,
            ));
        }
        palette
    }

    pub fn find_largest_axis(bucket: &ColorBucket) -> (axis: Axis)
        ensures
            axis == Self::spec_largest_axis(bucket.pixels@),
    {
        let ranges = bucket.get_color_ranges();
        if ranges.0 >= ranges.1 && ranges.0 >= ranges.2 {
            Axis::Red
        } else if ranges.1 >= ranges.2 {
            Axis::Green
        } else {
            Axis::Blue
        }
    }

    /// Sorts the bucket along `axis` and divides it at the midpoint index;
    /// the low half keeps `len / 2` pixels.
    pub fn split_bucket(bucket: ColorBucket, axis: Axis) -> (halves: (ColorBucket, ColorBucket))
        ensures
            ({
                let sorted = spec_sort_by_key(bucket.pixels@, axis_key(axis));
                let mid = bucket.pixels@.len() as int / 2;
                halves.0.pixels@ == sorted.subrange(0, mid) && halves.1.pixels@
                    == sorted.subrange(mid, sorted.len() as int)
            }),
    {
        proof {
            lemma_sort_by_key_len(bucket.pixels@, axis_key(axis));
        }
        let mut sorted = sort_by_channel(&bucket.pixels, &axis);
        let mid = sorted.len() / 2;
        let right = sorted.split_off(mid);
        (ColorBucket::new(sorted), ColorBucket::new(right))
    }
}


/// Multiset of all pixels held across a list of buckets.
pub open spec fn spec_buckets_content(bs: Seq<ColorBucket>) -> Multiset<Rgba>
    decreases bs.len(),
{
    if bs.len() == 0 {
        Multiset::empty()
    } else {
        spec_buckets_content(bs.drop_last()).add(bs.last().pixels@.to_multiset())
    }
}

proof fn lemma_content_push(bs: Seq<ColorBucket>, b: ColorBucket)
    ensures
        spec_buckets_content(bs.push(b)) == spec_buckets_content(bs).add(b.pixels@.to_multiset()),
{
    assert(bs.push(b).drop_last() =~= bs);
    assert(bs.push(b).last() == b);
}

proof fn lemma_content_remove(bs: Seq<ColorBucket>, i: int)
    requires
        0 <= i < bs.len(),
    ensures
        spec_buckets_content(bs) == spec_buckets_content(bs.remove(i)).add(
            bs[i].pixels@.to_multiset(),
        ),
    decreases bs.len(),
{
    if i == bs.len() - 1 {
        assert(bs.remove(i) =~= bs.drop_last());
    } else {
        lemma_content_remove(bs.drop_last(), i);
        assert(bs.remove(i).drop_last() =~= bs.drop_last().remove(i));
        assert(bs.remove(i).last() == bs.last());
        assert(bs.drop_last()[i] == bs[i]);
        let a = spec_buckets_content(bs.drop_last().remove(i));
        let m1 = bs[i].pixels@.to_multiset();
        let m2 = bs.last().pixels@.to_multiset();
        assert(a.add(m1).add(m2) =~= a.add(m2).add(m1));
    }
}

proof fn lemma_len_le_card(bs: Seq<ColorBucket>)
    requires
        forall|j: int| 0 <= j < bs.len() ==> (#[trigger] bs[j]).pixels@.len() > 0,
    ensures
        bs.len() <= spec_buckets_content(bs).len(),
    decreases bs.len(),
{
    broadcast use vstd::seq_lib::group_to_multiset_ensures;

    if bs.len() > 0 {
        assert(forall|j: int|
            0 <= j < bs.drop_last().len() ==> (#[trigger] bs.drop_last()[j]).pixels@.len() > 0);
        lemma_len_le_card(bs.drop_last());
        assert(bs.last() == bs[bs.len() - 1]);
        assert(bs.last().pixels@.to_multiset().len() == bs.last().pixels@.len());
    }
}

proof fn lemma_singleton_range(s: Seq<Rgba>)
    requires
        s.len() == 1,
    ensures
        spec_bucket_range(s) == 0,
{
    assert(s.drop_last().len() == 0);
    assert(spec_channel_bounds(s.drop_last()) == (255int, 0int, 255int, 0int, 255int, 0int));
}

/// The largest channel range of a bucket, zero for an empty bucket.
fn bucket_range(b: &ColorBucket) -> (r: u8)
    ensures
        b.pixels@.len() > 0 ==> r as int == spec_bucket_range(b.pixels@),
        b.pixels@.len() == 0 ==> r == 0,
{
    let ranges = b.get_color_ranges();
    proof {
        if b.pixels@.len() > 0 {
            lemma_channel_bounds_ordered(b.pixels@);
        }
    }
    if ranges.0 >= ranges.1 && ranges.0 >= ranges.2 {
        ranges.0
    } else if ranges.1 >= ranges.2 {
        ranges.1
    } else {
        ranges.2
    }
}

fn clone_pixels(pixels: &Vec<Rgba>) -> (out: Vec<Rgba>)
    ensures
        out@ == pixels@,
{
    let mut out: Vec<Rgba> = Vec::new();
    let n = pixels.len();
    let mut i: usize = 0;
    while i < n
        invariant
            i <= n,
            n == pixels@.len(),
            out@ == pixels@.take(i as int),
        decreases n - i,
    {
        out.push(pixels[i]);
        proof {
            assert(out@ =~= pixels@.take(i + 1));
        }
        i = i + 1;
    }
    proof {
        assert(pixels@.take(n as int) =~= pixels@);
    }
    out
}

/// How a returned palette relates to the input population: the buckets `bs`
/// partition the pixels as a multiset, every bucket is nonempty, the palette
/// lists each bucket's channel mean, and splitting stopped either at the
/// requested size or with every bucket down to a single spread-free color.
pub open spec fn spec_quantize_partition(
    pixels: Seq<Rgba>,
    target: int,
    bs: Seq<ColorBucket>,
    palette: Seq<Rgba>,
) -> bool {
    &&& spec_buckets_content(bs) == pixels.to_multiset()
    &&& forall|j: int| 0 <= j < bs.len() ==> (#[trigger] bs[j]).pixels@.len() > 0
    &&& palette.len() == bs.len()
    &&& forall|j: int|
        0 <= j < bs.len() ==> palette[j] == spec_average((#[trigger] bs[j]).pixels@)
    &&& (bs.len() == target || forall|j: int|
        0 <= j < bs.len() ==> spec_bucket_range((#[trigger] bs[j]).pixels@) <= 0)
}


/// The 15-bit quantization of a color: five high bits of each channel,
/// packed red-green-blue, alpha dropped.
pub open spec fn spec_quantize_15bit(c: Rgba) -> int {
    (c.r / 8) * 1024 + (c.g / 8) * 32 + (c.b / 8)
}

fn quantize_color_15bit(color: &Rgba) -> (q: u16)
    ensures
        q == spec_quantize_15bit(*color),
        q < 32768,
{
    let r = (color.r / 8) as u16;
    let g = (color.g / 8) as u16;
    let b = (color.b / 8) as u16;
    r * 1024 + g * 32 + b
}

/// The 8-bit expansion of a 15-bit bucket index: each channel's five bits
/// shifted up, low bits zero, alpha forced opaque.
pub open spec fn spec_expand_15bit(q: int) -> Rgba {
    Rgba {
        r: ((q / 1024 % 32) * 8) as u8,
        g: ((q / 32 % 32) * 8) as u8,
        b: ((q % 32) * 8) as u8,
        a: 255,
    }
}

fn expand_15bit(q: u16) -> (c: Rgba)
    ensures
        c == spec_expand_15bit(q as int),
{
    let r = ((q / 1024) % 32) * 8;
    let g = ((q / 32) % 32) * 8;
    let b = (q % 32) * 8;
    Rgba { r: r as u8, g: g as u8, b: b as u8, a: 255 }
}

/// Number of pixels in `s` whose 15-bit quantization is `idx`.
pub open spec fn spec_count_quantized(s: Seq<Rgba>, idx: int) -> int
    decreases s.len(),
{
    if s.len() == 0 {
        0
    } else {
        spec_count_quantized(s.drop_last(), idx) + if spec_quantize_15bit(s.last()) == idx {
            1int
        } else {
            0int
        }
    }
}

proof fn lemma_count_quantized_bounds(s: Seq<Rgba>, idx: int)
    ensures
        0 <= spec_count_quantized(s, idx) <= s.len(),
    decreases s.len(),
{
    if s.len() > 0 {
        lemma_count_quantized_bounds(s.drop_last(), idx);
    }
}

/// A histogram-based approximate quantizer over 15-bit color cells.
pub struct FastMedianCut {
    color_histogram: Vec<u32>,
}

impl FastMedianCut {
    /// Which colors each histogram cell counts.
    pub closed spec fn hist(&self) -> Seq<u32> {
        self.color_histogram@
    }

    pub open spec fn wf(&self) -> bool {
        self.hist().len() == 32768
    }

    pub fn new() -> (f: FastMedianCut)
        ensures
            f.wf(),
            forall|idx: int| 0 <= idx < 32768 ==> f.hist()[idx] == 0,
    {
        FastMedianCut { color_histogram: vec![0u32; 32768] }
    }

    /// Replaces the histogram with the 15-bit cell counts of `pixels`.
    pub fn build_histogram(&mut self, pixels: &Vec<Rgba>)
        requires
            old(self).wf(),
            pixels@.len() <= u32::MAX,
        ensures
            final(self).wf(),
            forall|idx: int|
                0 <= idx < 32768 ==> final(self).hist()[idx] == spec_count_quantized(
                    pixels@,
                    idx,
                ),
    {
        self.color_histogram = vec![0u32; 32768];
        let n = pixels.len();
        let mut i: usize = 0;
        while i < n
            invariant
                i <= n,
                n == pixels@.len(),
                n <= u32::MAX,
                self.color_histogram@.len() == 32768,
                forall|idx: int|
                    0 <= idx < 32768 ==> self.color_histogram@[idx] == spec_count_quantized(
                        pixels@.take(i as int),
                        idx,
                    ),
            decreases n - i,
        {
            let q = quantize_color_15bit(&pixels[i]);
            proof {
                lemma_count_quantized_bounds(pixels@.take(i as int), q as int);
            }
            let cnt = self.color_histogram[q as usize];
            self.color_histogram[q as usize] = cnt + 1;
            proof {
                assert forall|idx: int|
                    0 <= idx < 32768 implies self.color_histogram@[idx] == spec_count_quantized(
                    pixels@.take(i + 1),
                    idx,
                ) by {
                    assert(pixels@.take(i + 1).drop_last() =~= pixels@.take(i as int));
                    assert(pixels@.take(i + 1).last() == pixels@[i as int]);
                }
            }
            i = i + 1;
        }
        proof {
            assert(pixels@.take(n as int) =~= pixels@);
        }
    }
}

impl Default for FastMedianCut {
    fn default() -> (f: Self)
        ensures
            f.wf(),
            forall|idx: int| 0 <= idx < 32768 ==> f.hist()[idx] == 0,
    {
        FastMedianCut::new()
    }
}

/// The nonzero histogram cells, in cell order, paired with their counts.
pub open spec fn spec_nonzero_entries(hist: Seq<u32>, upto: int) -> Seq<(u16, u32)>
    decreases upto,
{
    if upto <= 0 {
        Seq::empty()
    } else {
        let rest = spec_nonzero_entries(hist, upto - 1);
        if hist[upto - 1] > 0 {
            rest.push(((upto - 1) as u16, hist[upto - 1]))
        } else {
            rest
        }
    }
}

/// Orders histogram entries by descending count, then ascending cell index.
pub open spec fn entry_key(e: (u16, u32)) -> int {
    (4294967295 - e.1) * 32768 + e.0
}

/// Inserts an entry before the suffix with strictly greater key.
pub open spec fn spec_insert_entry(s: Seq<(u16, u32)>, x: (u16, u32)) -> Seq<(u16, u32)>
    decreases s.len(),
{
    if s.len() == 0 {
        seq![x]
    } else if entry_key(x) < entry_key(s.last()) {
        spec_insert_entry(s.drop_last(), x).push(s.last())
    } else {
        s.push(x)
    }
}

/// The stable sort of histogram entries by `entry_key`.
pub open spec fn spec_sort_entries(s: Seq<(u16, u32)>) -> Seq<(u16, u32)>
    decreases s.len(),
{
    if s.len() == 0 {
        Seq::empty()
    } else {
        spec_insert_entry(spec_sort_entries(s.drop_last()), s.last())
    }
}

proof fn lemma_insert_entry_len(s: Seq<(u16, u32)>, x: (u16, u32))
    ensures
        spec_insert_entry(s, x).len() == s.len() + 1,
    decreases s.len(),
{
    if s.len() > 0 && entry_key(x) < entry_key(s.last()) {
        lemma_insert_entry_len(s.drop_last(), x);
    }
}

pub proof fn lemma_sort_entries_len(s: Seq<(u16, u32)>)
    ensures
        spec_sort_entries(s).len() == s.len(),
    decreases s.len(),
{
    if s.len() > 0 {
        lemma_sort_entries_len(s.drop_last());
        lemma_insert_entry_len(spec_sort_entries(s.drop_last()), s.last());
    }
}

proof fn lemma_insert_entry_at(s: Seq<(u16, u32)>, x: (u16, u32), j: int)
    requires
        0 <= j <= s.len(),
        forall|k: int| j <= k < s.len() ==> entry_key(x) < entry_key(#[trigger] s[k]),
        j > 0 ==> entry_key(s[j - 1]) <= entry_key(x),
    ensures
        spec_insert_entry(s, x) == s.insert(j, x),
    decreases s.len(),
{
    if s.len() == 0 {
        assert(spec_insert_entry(s, x) =~= s.insert(0, x));
    } else if j == s.len() {
        assert(entry_key(s[j - 1]) <= entry_key(x));
        assert(s.last() == s[j - 1]);
        assert(spec_insert_entry(s, x) == s.push(x));
        assert(s.push(x) =~= s.insert(j, x));
    } else {
        assert(entry_key(x) < entry_key(s[s.len() - 1]));
        assert(s.last() == s[s.len() - 1]);
        let t = s.drop_last();
        assert(forall|k: int| j <= k < t.len() ==> entry_key(x) < entry_key(#[trigger] t[k]));
        if j > 0 {
            assert(t[j - 1] == s[j - 1]);
        }
        lemma_insert_entry_at(t, x, j);
        assert(spec_insert_entry(s, x) == t.insert(j, x).push(s.last()));
        lemma_insert_entry_len(t, x);
        assert(t.insert(j, x).push(s.last()) =~= s.insert(j, x));
    }
}

fn entry_key_of(e: &(u16, u32)) -> (k: u64)
    ensures
        k == entry_key(*e),
{
    (4294967295u64 - e.1 as u64) * 32768 + e.0 as u64
}

fn insert_entry(v: &mut Vec<(u16, u32)>, x: (u16, u32))
    ensures
        final(v)@ == spec_insert_entry(old(v)@, x),
{
    let mut j: usize = v.len();
    while j > 0 && entry_key_of(&v[j - 1]) > entry_key_of(&x)
        invariant
            j <= v@.len(),
            v@ == old(v)@,
            forall|k: int| j <= k < v@.len() ==> entry_key(x) < entry_key(#[trigger] v@[k]),
        decreases j,
    {
        j = j - 1;
    }
    proof {
        lemma_insert_entry_at(v@, x, j as int);
    }
    v.insert(j, x);
}

impl FastMedianCut {
    /// The `max_colors` most frequent 15-bit cells, most frequent first and
    /// lower cell index first among equal counts, expanded to 8-bit colors.
    pub fn get_dominant_colors(&self, max_colors: usize) -> (colors: Vec<Rgba>)
        requires
            self.wf(),
        ensures
            ({
                let sorted = spec_sort_entries(spec_nonzero_entries(self.hist(), 32768));
                colors@.len() == vstd::math::min(max_colors as int, sorted.len() as int) && forall|
                    j: int,
                |
                    0 <= j < colors@.len() ==> colors@[j] == spec_expand_15bit(
                        (#[trigger] sorted[j]).0 as int,
                    )
            }),
    {
        let mut entries: Vec<(u16, u32)> = Vec::new();
        let mut idx: usize = 0;
        while idx < 32768
            invariant
                idx <= 32768,
                self.color_histogram@.len() == 32768,
                entries@ == spec_nonzero_entries(self.hist(), idx as int),
            decreases 32768 - idx,
        {
            let count = self.color_histogram[idx];
            if count > 0 {
                entries.push((idx as u16, count));
            }
            idx = idx + 1;
        }
        let mut sorted: Vec<(u16, u32)> = Vec::new();
        let m = entries.len();
        let mut i: usize = 0;
        while i < m
            invariant
                i <= m,
                m == entries@.len(),
                sorted@ == spec_sort_entries(entries@.take(i as int)),
            decreases m - i,
        {
            proof {
                assert(entries@.take(i + 1).drop_last() =~= entries@.take(i as int));
                assert(entries@.take(i + 1).last() == entries@[i as int]);
            }
            insert_entry(&mut sorted, entries[i]);
            i = i + 1;
        }
        proof {
            assert(entries@.take(m as int) =~= entries@);
        }
        let take_n = if max_colors < sorted.len() {
            max_colors
        } else {
            sorted.len()
        };
        let mut colors: Vec<Rgba> = Vec::new();
        let mut j: usize = 0;
        while j < take_n
            invariant
                j <= take_n,
                take_n <= sorted@.len(),
                sorted@ == spec_sort_entries(spec_nonzero_entries(self.hist(), 32768)),
                colors@.len() == j,
                forall|k: int|
                    0 <= k < j ==> colors@[k] == spec_expand_15bit(
                        (#[trigger] sorted@[k]).0 as int,
                    ),
            decreases take_n - j,
        {
            let e = sorted[j];
            colors.push(expand_15bit(e.0));
            j = j + 1;
        }
        colors
    }
}


/// Whether `b` lies within `t` of `a` on every color channel.
pub open spec fn spec_within_threshold(a: Rgba, b: Rgba, t: int) -> bool {
    &&& (if a.r >= b.r {
        a.r - b.r
    } else {
        b.r - a.r
    }) <= t
    &&& (if a.g >= b.g {
        a.g - b.g
    } else {
        b.g - a.g
    }) <= t
    &&& (if a.b >= b.b {
        a.b - b.b
    } else {
        b.b - a.b
    }) <= t
}

/// Returns the first pixel when every sample lies within `threshold` of it on
/// all channels, and nothing otherwise or for an empty region.
pub fn is_uniform_region(pixels: &Vec<Rgba>, threshold: u8) -> (r: Option<Rgba>)
    ensures
        pixels@.len() == 0 ==> r is None,
        pixels@.len() > 0 ==> ((r == Some(pixels@[0])) <==> (forall|k: int|
            0 <= k < pixels@.len() ==> spec_within_threshold(
                pixels@[0],
                #[trigger] pixels@[k],
                threshold as int,
            ))),
        r is Some ==> pixels@.len() > 0 && r == Some(pixels@[0]),
{
    if pixels.len() == 0 {
        return None;
    }
    let first = pixels[0];
    let n = pixels.len();
    let mut all_same = true;
    let mut i: usize = 1;
    while i < n
        invariant_except_break
            1 <= i <= n,
            n == pixels@.len(),
            first == pixels@[0],
            all_same,
            forall|k: int|
                0 <= k < i ==> spec_within_threshold(
                    pixels@[0],
                    #[trigger] pixels@[k],
                    threshold as int,
                ),
        ensures
            n == pixels@.len(),
            first == pixels@[0],
            all_same <==> (forall|k: int|
                0 <= k < n ==> spec_within_threshold(
                    pixels@[0],
                    #[trigger] pixels@[k],
                    threshold as int,
                )),
        decreases n - i,
    {
        let p = pixels[i];
        let dr = if first.r >= p.r {
            first.r - p.r
        } else {
            p.r - first.r
        };
        let dg = if first.g >= p.g {
            first.g - p.g
        } else {
            p.g - first.g
        };
        let db = if first.b >= p.b {
            first.b - p.b
        } else {
            p.b - first.b
        };
        if dr > threshold || dg > threshold || db > threshold {
            all_same = false;
            proof {
                assert(!spec_within_threshold(pixels@[0], pixels@[i as int], threshold as int));
            }
            break;
        }
        i = i + 1;
    }
    if all_same {
        Some(first)
    } else {
        None
    }
}

/// The distinct colors of `pixels` in order of first appearance, each with
/// its number of occurrences.
pub fn analyze_color_frequency(pixels: &Vec<Rgba>) -> (freq: Vec<(Rgba, u32)>)
    requires
        pixels@.len() <= u32::MAX,
    ensures
        forall|j: int, k: int| 0 <= j < k < freq@.len() ==> freq@[j].0 != freq@[k].0,
        forall|j: int|
            0 <= j < freq@.len() ==> (#[trigger] freq@[j]).1 == crate::color::spec_count(
                pixels@,
                freq@[j].0,
            ),
        forall|j: int| 0 <= j < freq@.len() ==> pixels@.contains((#[trigger] freq@[j]).0),
        forall|k: int|
            0 <= k < pixels@.len() ==> freq@.map_values(|e: (Rgba, u32)| e.0).contains(
                #[trigger] pixels@[k],
            ),
{
    let n = pixels.len();
    let mut uniq: Vec<Rgba> = Vec::new();
    let mut i: usize = 0;
    while i < n
        invariant
            i <= n,
            n == pixels@.len(),
            forall|j: int, k: int| 0 <= j < k < uniq@.len() ==> uniq@[j] != uniq@[k],
            forall|k: int| 0 <= k < i ==> uniq@.contains(#[trigger] pixels@[k]),
            forall|j: int| 0 <= j < uniq@.len() ==> pixels@.contains(#[trigger] uniq@[j]),
        decreases n - i,
    {
        let p = pixels[i];
        let mut found = false;
        let mut j: usize = 0;
        while j < uniq.len()
            invariant
                j <= uniq@.len(),
                found ==> uniq@.contains(p),
                !found ==> forall|k: int| 0 <= k < j ==> uniq@[k] != p,
            decreases uniq@.len() - j,
        {
            if uniq[j] == p {
                proof {
                    assert(uniq@[j as int] == p);
                }
                found = true;
            }
            j = j + 1;
        }
        let ghost prev = uniq@;
        if !found {
            uniq.push(p);
            proof {
                assert(uniq@.last() == p);
                assert(uniq@.contains(p));
            }
        }
        proof {
            assert(uniq@.contains(p));
            assert forall|k: int| 0 <= k < i + 1 implies uniq@.contains(
                #[trigger] pixels@[k],
            ) by {
                if k < i {
                    assert(prev.contains(pixels@[k]));
                    let idx = choose|idx: int| 0 <= idx < prev.len() && prev[idx] == pixels@[k];
                    assert(uniq@[idx] == pixels@[k]);
                } else {
                    assert(pixels@[k] == p);
                }
            }
            assert forall|j2: int| 0 <= j2 < uniq@.len() implies pixels@.contains(
                #[trigger] uniq@[j2],
            ) by {
                if j2 < prev.len() {
                    assert(uniq@[j2] == prev[j2]);
                } else {
                    assert(uniq@[j2] == p);
                    assert(pixels@[i as int] == p);
                }
            }
            assert forall|j2: int, k: int| 0 <= j2 < k < uniq@.len() implies uniq@[j2]
                != uniq@[k] by {
                if k < prev.len() {
                } else if !found {
                    assert(uniq@[k] == p);
                    assert(uniq@[j2] == prev[j2]);
                }
            }
        }
        i = i + 1;
    }
    let m = uniq.len();
    let mut freq: Vec<(Rgba, u32)> = Vec::new();
    let mut j: usize = 0;
    while j < m
        invariant
            j <= m,
            m == uniq@.len(),
            n == pixels@.len(),
            n <= u32::MAX,
            freq@.len() == j,
            forall|k: int| 0 <= k < j ==> (#[trigger] freq@[k]).0 == uniq@[k],
            forall|k: int|
                0 <= k < j ==> (#[trigger] freq@[k]).1 == crate::color::spec_count(
                    pixels@,
                    uniq@[k],
                ),
            forall|j2: int, k: int| 0 <= j2 < k < uniq@.len() ==> uniq@[j2] != uniq@[k],
            forall|k: int| 0 <= k < n ==> uniq@.contains(#[trigger] pixels@[k]),
            forall|k: int| 0 <= k < uniq@.len() ==> pixels@.contains(#[trigger] uniq@[k]),
        decreases m - j,
    {
        let c = uniq[j];
        let cnt = crate::color::count_occurrences(pixels, &c);
        proof {
            crate::color::lemma_count_nonneg(pixels@, c);
        }
        freq.push((c, cnt as u32));
        j = j + 1;
    }
    proof {
        let firsts = freq@.map_values(|e: (Rgba, u32)| e.0);
        assert forall|k: int| 0 <= k < pixels@.len() implies firsts.contains(
            #[trigger] pixels@[k],
        ) by {
            assert(uniq@.contains(pixels@[k]));
            let idx = choose|idx: int| 0 <= idx < uniq@.len() && uniq@[idx] == pixels@[k];
            assert((freq@[idx]).0 == pixels@[k]);
            assert(firsts[idx] == pixels@[k]);
        }
    }
    freq
}

} // verus!
