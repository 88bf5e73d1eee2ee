use vstd::prelude::*;

verus! {

/// An RGBA sample with four 8-bit channels.
#[derive(Clone, Copy, Debug, PartialEq, Eq, Structural, Hash)]
pub struct Rgba {
    pub r: u8,
    pub g: u8,
    pub b: u8,
    pub a: u8,
}

impl Rgba {
    pub fn new(r: u8, g: u8, b: u8, a: u8) -> (c: Rgba)
        ensures
            c == (Rgba { r, g, b, a }),
    {
        Rgba { r, g, b, a }
    }

    /// Opaque black, the fallback color for empty sample sets.
    pub fn opaque_black() -> (c: Rgba)
        ensures
            c == spec_opaque_black(),
    {
        Rgba { r: 0, g: 0, b: 0, a: 255 }
    }
}

pub open spec fn spec_opaque_black() -> Rgba {
    Rgba { r: 0, g: 0, b: 0, a: 255 }
}

/// Sum of the red channel over a pixel sequence.
pub open spec fn sum_r(s: Seq<Rgba>) -> int
    decreases s.len(),
{
    if s.len() == 0 {
        0
    } else {
        sum_r(s.drop_last()) + s.last().r
    }
}

/// Sum of the green channel over a pixel sequence.
pub open spec fn sum_g(s: Seq<Rgba>) -> int
    decreases s.len(),
{
    if s.len() == 0 {
        0
    } else {
        sum_g(s.drop_last()) + s.last().g
    }
}

/// Sum of the blue channel over a pixel sequence.
pub open spec fn sum_b(s: Seq<Rgba>) -> int
    decreases s.len(),
{
    if s.len() == 0 {
        0
    } else {
        sum_b(s.drop_last()) + s.last().b
    }
}

proof fn lemma_channel_sum_bounds(s: Seq<Rgba>)
    ensures
        0 <= sum_r(s) <= 255 * s.len(),
        0 <= sum_g(s) <= 255 * s.len(),
        0 <= sum_b(s) <= 255 * s.len(),
    decreases s.len(),
{
    if s.len() > 0 {
        lemma_channel_sum_bounds(s.drop_last());
    }
}

/// The truncating per-channel mean of a nonempty pixel sequence, with alpha
/// forced to fully opaque; opaque black for an empty sequence.
pub open spec fn spec_average(s: Seq<Rgba>) -> Rgba {
    if s.len() == 0 {
        spec_opaque_black()
    } else {
        Rgba {
            r: (sum_r(s) / s.len() as int) as u8,
            g: (sum_g(s) / s.len() as int) as u8,
            b: (sum_b(s) / s.len() as int) as u8,
            a: 255,
        }
    }
}

proof fn lemma_mean_in_byte_range(s: Seq<Rgba>)
    requires
        s.len() > 0,
    ensures
        0 <= sum_r(s) / s.len() as int <= 255,
        0 <= sum_g(s) / s.len() as int <= 255,
        0 <= sum_b(s) / s.len() as int <= 255,
{
    lemma_channel_sum_bounds(s);
    let n = s.len() as int;
    assert(sum_r(s) / n <= 255 && sum_g(s) / n <= 255 && sum_b(s) / n <= 255)
        by (nonlinear_arith)
        requires
            n > 0,
            0 <= sum_r(s) <= 255 * n,
            0 <= sum_g(s) <= 255 * n,
            0 <= sum_b(s) <= 255 * n,
    ;
}

/// Sums the three color channels of `pixels` into mathematical integers.
fn channel_totals(pixels: &Vec<Rgba>) -> (t: (u128, u128, u128))
    ensures
        t.0 == sum_r(pixels@),
        t.1 == sum_g(pixels@),
        t.2 == sum_b(pixels@),
{
    let mut total_r: u128 = 0;
    let mut total_g: u128 = 0;
    let mut total_b: u128 = 0;
    let n = pixels.len();
    let mut i: usize = 0;
    while i < n
        invariant
            i <= n,
            n == pixels@.len(),
            total_r == sum_r(pixels@.take(i as int)),
            total_g == sum_g(pixels@.take(i as int)),
            total_b == sum_b(pixels@.take(i as int)),
        decreases n - i,
    {
        proof {
            lemma_channel_sum_bounds(pixels@.take(i as int));
            assert(pixels@.take(i + 1).drop_last() =~= pixels@.take(i as int));
            assert(pixels@.take(i + 1).last() == pixels@[i as int]);
        }
        let p = pixels[i];
        total_r = total_r + p.r as u128;
        total_g = total_g + p.g as u128;
        total_b = total_b + p.b as u128;
        i = i + 1;
    }
    proof {
        assert(pixels@.take(n as int) =~= pixels@);
    }
    (total_r, total_g, total_b)
}

/// Computes `spec_average` of a pixel sequence.
pub fn average_color(pixels: &Vec<Rgba>) -> (c: Rgba)
    ensures
        c == spec_average(pixels@),
{
    if pixels.len() == 0 {
        return Rgba::opaque_black();
    }
    let (total_r, total_g, total_b) = channel_totals(pixels);
    let count = pixels.len() as u128;
    proof {
        lemma_mean_in_byte_range(pixels@);
    }
    Rgba {
        r: (total_r / count) as u8,
        g: (total_g / count) as u8,
        b: (total_b / count) as u8,
        a: 255,
    }
}

/// A strategy that reduces a set of sampled pixels to one representative color.
///
/// `valid_extraction` is the strategy's mathematical description: it says
/// which colors are a correct reduction of the given pixels.  For every
/// strategy but the mode-based one it pins the result to a single color.
pub trait ColorExtractor {
    spec fn valid_extraction(&self, pixels: Seq<Rgba>, c: Rgba) -> bool;

    fn extract_color(&self, pixels: &Vec<Rgba>) -> (c: Rgba)
        ensures
            self.valid_extraction(pixels@, c),
    ;
}

/// Reduces a region to the truncating per-channel mean.
pub struct AverageColorExtractor;

impl ColorExtractor for AverageColorExtractor {
    open spec fn valid_extraction(&self, pixels: Seq<Rgba>, c: Rgba) -> bool {
        c == spec_average(pixels)
    }

    fn extract_color(&self, pixels: &Vec<Rgba>) -> (c: Rgba)
        ensures
            c == spec_average(pixels@),
    {
        average_color(pixels)
    }
}


/// The unweighted luma of a color: the truncating mean of its three color
/// channels.
pub open spec fn spec_luma(c: Rgba) -> int {
    (c.r + c.g + c.b) / 3
}

fn luma_of(c: &Rgba) -> (l: u32)
    ensures
        l == spec_luma(*c),
{
    (c.r as u32 + c.g as u32 + c.b as u32) / 3
}

/// Inserts `x` into `s` before the suffix of elements with strictly greater
/// key, so that equal keys keep their order of arrival.
pub open spec fn spec_insert_sorted(s: Seq<Rgba>, x: Rgba, key: spec_fn(Rgba) -> int) -> Seq<
    Rgba,
>
    decreases s.len(),
{
    if s.len() == 0 {
        seq![x]
    } else if key(x) < key(s.last()) {
        spec_insert_sorted(s.drop_last(), x, key).push(s.last())
    } else {
        s.push(x)
    }
}

/// The stable sort of a pixel sequence by nondecreasing key.
pub open spec fn spec_sort_by_key(s: Seq<Rgba>, key: spec_fn(Rgba) -> int) -> Seq<Rgba>
    decreases s.len(),
{
    if s.len() == 0 {
        Seq::empty()
    } else {
        spec_insert_sorted(spec_sort_by_key(s.drop_last(), key), s.last(), key)
    }
}

pub proof fn lemma_insert_sorted_len(s: Seq<Rgba>, x: Rgba, key: spec_fn(Rgba) -> int)
    ensures
        spec_insert_sorted(s, x, key).len() == s.len() + 1,
    decreases s.len(),
{
    if s.len() > 0 && key(x) < key(s.last()) {
        lemma_insert_sorted_len(s.drop_last(), x, key);
    }
}

pub proof fn lemma_sort_by_key_len(s: Seq<Rgba>, key: spec_fn(Rgba) -> int)
    ensures
        spec_sort_by_key(s, key).len() == s.len(),
    decreases s.len(),
{
    if s.len() > 0 {
        lemma_sort_by_key_len(s.drop_last(), key);
        lemma_insert_sorted_len(spec_sort_by_key(s.drop_last(), key), s.last(), key);
    }
}

pub proof fn lemma_insert_sorted_multiset(s: Seq<Rgba>, x: Rgba, key: spec_fn(Rgba) -> int)
    ensures
        spec_insert_sorted(s, x, key).to_multiset() == s.to_multiset().insert(x),
    decreases s.len(),
{
    broadcast use vstd::seq_lib::group_to_multiset_ensures;

    if s.len() == 0 {
        assert(seq![x].to_multiset() =~= s.to_multiset().insert(x)) by {
            assert(seq![x] =~= Seq::<Rgba>::empty().push(x));
            assert(s.to_multiset() =~= Seq::<Rgba>::empty().to_multiset());
        }
    } else if key(x) < key(s.last()) {
        lemma_insert_sorted_multiset(s.drop_last(), x, key);
        let t = spec_insert_sorted(s.drop_last(), x, key);
        assert(t.push(s.last()).to_multiset() =~= t.to_multiset().insert(s.last()));
        assert(s.drop_last().push(s.last()) =~= s);
        assert(s.drop_last().push(s.last()).to_multiset() =~= s.drop_last().to_multiset().insert(
            s.last(),
        ));
        assert(t.to_multiset().insert(s.last()) =~= s.to_multiset().insert(x)) by {
            assert(t.to_multiset() == s.drop_last().to_multiset().insert(x));
        }
    } else {
        assert(s.push(x).to_multiset() =~= s.to_multiset().insert(x));
    }
}

/// Sorting by key permutes the sequence: the multiset of samples is kept.
pub proof fn lemma_sort_by_key_multiset(s: Seq<Rgba>, key: spec_fn(Rgba) -> int)
    ensures
        spec_sort_by_key(s, key).to_multiset() == s.to_multiset(),
    decreases s.len(),
{
    broadcast use vstd::seq_lib::group_to_multiset_ensures;

    if s.len() > 0 {
        lemma_sort_by_key_multiset(s.drop_last(), key);
        lemma_insert_sorted_multiset(spec_sort_by_key(s.drop_last(), key), s.last(), key);
        assert(s.drop_last().push(s.last()) =~= s);
        assert(s.drop_last().push(s.last()).to_multiset() =~= s.drop_last().to_multiset().insert(
            s.last(),
        ));
    }
}

/// Where every element at or past position `j` has strictly greater key than
/// `x` and the element before `j` (if any) does not, inserting places `x`
/// exactly at position `j`.
pub proof fn lemma_insert_sorted_at(s: Seq<Rgba>, x: Rgba, key: spec_fn(Rgba) -> int, j: int)
    requires
        0 <= j <= s.len(),
        forall|k: int| j <= k < s.len() ==> key(x) < key(#[trigger] s[k]),
        j > 0 ==> key(s[j - 1]) <= key(x),
    ensures
        spec_insert_sorted(s, x, key) == s.insert(j, x),
    decreases s.len(),
{
    if s.len() == 0 {
        assert(spec_insert_sorted(s, x, key) =~= s.insert(0, x));
    } else if j == s.len() {
        assert(key(s[j - 1]) <= key(x));
        assert(s.last() == s[j - 1]);
        assert(spec_insert_sorted(s, x, key) == s.push(x));
        assert(s.push(x) =~= s.insert(j, x));
    } else {
        assert(key(x) < key(s[s.len() - 1]));
        assert(s.last() == s[s.len() - 1]);
        let t = s.drop_last();
        assert(forall|k: int| j <= k < t.len() ==> key(x) < key(#[trigger] t[k]));
        if j > 0 {
            assert(t[j - 1] == s[j - 1]);
        }
        lemma_insert_sorted_at(t, x, key, j);
        assert(spec_insert_sorted(s, x, key) == t.insert(j, x).push(s.last()));
        lemma_insert_sorted_len(t, x, key);
        assert(t.insert(j, x).push(s.last()) =~= s.insert(j, x));
    }
}

/// Ordering pixels by their luma.
pub open spec fn luma_key() -> spec_fn(Rgba) -> int {
    |c: Rgba| spec_luma(c)
}

/// The stable sort of a pixel sequence by nondecreasing luma.
pub open spec fn spec_sort_by_luma(s: Seq<Rgba>) -> Seq<Rgba> {
    spec_sort_by_key(s, luma_key())
}

pub proof fn lemma_sort_by_luma_len(s: Seq<Rgba>)
    ensures
        spec_sort_by_luma(s).len() == s.len(),
{
    lemma_sort_by_key_len(s, luma_key());
}

/// Inserts `x` into `v` at the position `spec_insert_sorted` gives for luma.
fn insert_by_luma(v: &mut Vec<Rgba>, x: Rgba)
    ensures
        final(v)@ == spec_insert_sorted(old(v)@, x, luma_key()),
{
    let mut j: usize = v.len();
    while j > 0 && luma_of(&v[j - 1]) > luma_of(&x)
        invariant
            j <= v@.len(),
            v@ == old(v)@,
            forall|k: int| j <= k < v@.len() ==> spec_luma(x) < spec_luma(#[trigger] v@[k]),
        decreases j,
    {
        j = j - 1;
    }
    proof {
        assert(forall|k: int|
            j <= k < v@.len() ==> luma_key()(x) < luma_key()(#[trigger] v@[k]));
        if j > 0 {
            assert(luma_key()(v@[j - 1]) <= luma_key()(x));
        }
        lemma_insert_sorted_at(v@, x, luma_key(), j as int);
    }
    v.insert(j, x);
}

/// Stable-sorts the pixels by luma.
pub fn sort_by_luma(pixels: &Vec<Rgba>) -> (out: Vec<Rgba>)
    ensures
        out@ == spec_sort_by_luma(pixels@),
{
    let mut out: Vec<Rgba> = Vec::new();
    let n = pixels.len();
    let mut i: usize = 0;
    while i < n
        invariant
            i <= n,
            n == pixels@.len(),
            out@ == spec_sort_by_key(pixels@.take(i as int), luma_key()),
        decreases n - i,
    {
        proof {
            assert(pixels@.take(i + 1).drop_last() =~= pixels@.take(i as int));
            assert(pixels@.take(i + 1).last() == pixels@[i as int]);
        }
        insert_by_luma(&mut out, pixels[i]);
        i = i + 1;
    }
    proof {
        assert(pixels@.take(n as int) =~= pixels@);
    }
    out
}

/// The luma-median of a pixel sequence: the lower-middle element of the
/// stable sort by luma; opaque black for an empty sequence.
pub open spec fn spec_median_cut(s: Seq<Rgba>) -> Rgba {
    if s.len() == 0 {
        spec_opaque_black()
    } else {
        spec_sort_by_luma(s)[(s.len() - 1) as int / 2]
    }
}

/// Number of occurrences of color `c` in the sequence.
pub open spec fn spec_count(s: Seq<Rgba>, c: Rgba) -> int
    decreases s.len(),
{
    if s.len() == 0 {
        0
    } else {
        spec_count(s.drop_last(), c) + if s.last() == c {
            1int
        } else {
            0int
        }
    }
}

pub proof fn lemma_count_nonneg(s: Seq<Rgba>, c: Rgba)
    ensures
        0 <= spec_count(s, c) <= s.len(),
    decreases s.len(),
{
    if s.len() > 0 {
        lemma_count_nonneg(s.drop_last(), c);
    }
}

pub proof fn lemma_count_zero_when_absent(s: Seq<Rgba>, c: Rgba)
    requires
        !s.contains(c),
    ensures
        spec_count(s, c) == 0,
    decreases s.len(),
{
    if s.len() > 0 {
        assert(s.last() != c);
        assert(!s.drop_last().contains(c)) by {
            if s.drop_last().contains(c) {
                let k = choose|k: int| 0 <= k < s.drop_last().len() && s.drop_last()[k] == c;
                assert(s[k] == c);
            }
        }
        lemma_count_zero_when_absent(s.drop_last(), c);
    }
}

pub fn count_occurrences(pixels: &Vec<Rgba>, c: &Rgba) -> (cnt: usize)
    ensures
        cnt == spec_count(pixels@, *c),
{
    let mut cnt: usize = 0;
    let n = pixels.len();
    let mut i: usize = 0;
    while i < n
        invariant
            i <= n,
            n == pixels@.len(),
            cnt == spec_count(pixels@.take(i as int), *c),
            cnt <= i,
        decreases n - i,
    {
        proof {
            assert(pixels@.take(i + 1).drop_last() =~= pixels@.take(i as int));
            assert(pixels@.take(i + 1).last() == pixels@[i as int]);
            lemma_count_nonneg(pixels@.take(i as int), *c);
        }
        if pixels[i] == *c {
            cnt = cnt + 1;
        }
        i = i + 1;
    }
    proof {
        assert(pixels@.take(n as int) =~= pixels@);
    }
    cnt
}

/// `c` occurs in `s` and no color occurs more often than `c`.
pub open spec fn spec_is_mode(s: Seq<Rgba>, c: Rgba) -> bool {
    s.contains(c) && forall|d: Rgba| #[trigger] spec_count(s, d) <= spec_count(s, c)
}

/// Returns a most frequent color of a nonempty pixel set; which of several
/// equally frequent colors comes back is left open (here: the one whose first
/// occurrence is earliest).
pub fn mode_color(pixels: &Vec<Rgba>) -> (c: Rgba)
    requires
        pixels@.len() > 0,
    ensures
        spec_is_mode(pixels@, c),
{
    let n = pixels.len();
    let mut uniq: Vec<Rgba> = Vec::new();
    let mut i: usize = 0;
    while i < n
        invariant
            i <= n,
            n == pixels@.len(),
            forall|k: int| 0 <= k < i ==> uniq@.contains(#[trigger] pixels@[k]),
            forall|j: int| 0 <= j < uniq@.len() ==> pixels@.contains(#[trigger] uniq@[j]),
        decreases n - i,
    {
        let p = pixels[i];
        let mut found = false;
        let mut j: usize = 0;
        while j < uniq.len()
            invariant
                j <= uniq@.len(),
                found ==> uniq@.contains(p),
            decreases uniq@.len() - j,
        {
            if uniq[j] == p {
                proof {
                    assert(uniq@[j as int] == p);
                }
                found = true;
            }
            j = j + 1;
        }
        let ghost prev = uniq@;
        if !found {
            uniq.push(p);
            proof {
                assert(uniq@.last() == p);
                assert(uniq@.contains(p));
            }
        }
        proof {
            assert(uniq@.contains(p));
            assert forall|k: int| 0 <= k < i + 1 implies uniq@.contains(
                #[trigger] pixels@[k],
            ) by {
                if k < i {
                    assert(prev.contains(pixels@[k]));
                    let idx = choose|idx: int| 0 <= idx < prev.len() && prev[idx] == pixels@[k];
                    assert(uniq@[idx] == pixels@[k]);
                } else {
                    assert(pixels@[k] == p);
                }
            }
            assert forall|j: int| 0 <= j < uniq@.len() implies pixels@.contains(
                #[trigger] uniq@[j],
            ) by {
                if j < prev.len() {
                    assert(uniq@[j] == prev[j]);
                } else {
                    assert(uniq@[j] == p);
                    assert(pixels@[i as int] == p);
                }
            }
        }
        i = i + 1;
    }
    proof {
        assert(uniq@.contains(pixels@[0]));
    }
    let mut best = uniq[0];
    let mut best_count = count_occurrences(pixels, &best);
    let mut j: usize = 1;
    while j < uniq.len()
        invariant
            1 <= j <= uniq@.len(),
            pixels@.contains(best),
            best_count == spec_count(pixels@, best),
            forall|k: int| 0 <= k < j ==> spec_count(pixels@, #[trigger] uniq@[k]) <= best_count,
            forall|k: int| 0 <= k < pixels@.len() ==> uniq@.contains(#[trigger] pixels@[k]),
            forall|k: int| 0 <= k < uniq@.len() ==> pixels@.contains(#[trigger] uniq@[k]),
        decreases uniq@.len() - j,
    {
        let candidate = uniq[j];
        let cnt = count_occurrences(pixels, &candidate);
        if cnt > best_count {
            best = candidate;
            best_count = cnt;
        }
        j = j + 1;
    }
    proof {
        assert forall|d: Rgba| #[trigger] spec_count(pixels@, d) <= spec_count(pixels@, best) by {
            if pixels@.contains(d) {
                let k = choose|k: int| 0 <= k < pixels@.len() && pixels@[k] == d;
                assert(uniq@.contains(pixels@[k]));
                let jj = choose|jj: int| 0 <= jj < uniq@.len() && uniq@[jj] == d;
                assert(spec_count(pixels@, uniq@[jj]) <= best_count);
            } else {
                lemma_count_zero_when_absent(pixels@, d);
                lemma_count_nonneg(pixels@, best);
            }
        }
    }
    best
}


/// Reduces a region to its luma-median sample.
pub struct MedianCutExtractor {
    pub max_colors: u32,
}

impl ColorExtractor for MedianCutExtractor {
    open spec fn valid_extraction(&self, pixels: Seq<Rgba>, c: Rgba) -> bool {
        c == spec_median_cut(pixels)
    }

    fn extract_color(&self, pixels: &Vec<Rgba>) -> (c: Rgba)
        ensures
            c == spec_median_cut(pixels@),
    {
        if pixels.len() == 0 {
            return Rgba::opaque_black();
        }
        if pixels.len() == 1 {
            proof {
                let s = pixels@;
                assert(s.drop_last() =~= Seq::<Rgba>::empty());
                assert(spec_sort_by_key(s.drop_last(), luma_key()) =~= Seq::<Rgba>::empty());
                assert(spec_sort_by_luma(s) == spec_insert_sorted(
                    Seq::<Rgba>::empty(),
                    s.last(),
                    luma_key(),
                ));
                assert(spec_sort_by_luma(s) =~= seq![s[0]]);
            }
            return pixels[0];
        }
        let sorted = sort_by_luma(pixels);
        proof {
            lemma_sort_by_luma_len(pixels@);
        }
        sorted[(sorted.len() - 1) / 2]
    }
}

/// Reduces a region to a most frequent sample (the name follows the
/// clustering strategy this stands in for).
pub struct KMeansExtractor {
    pub k: u32,
    pub max_iterations: u32,
}

impl ColorExtractor for KMeansExtractor {
    open spec fn valid_extraction(&self, pixels: Seq<Rgba>, c: Rgba) -> bool {
        if pixels.len() == 0 {
            c == spec_opaque_black()
        } else if pixels.len() == 1 {
            c == pixels[0]
        } else {
            spec_is_mode(pixels, c)
        }
    }

    fn extract_color(&self, pixels: &Vec<Rgba>) -> (c: Rgba)
        ensures
            self.valid_extraction(pixels@, c),
    {
        if pixels.len() == 0 {
            return Rgba::opaque_black();
        }
        if pixels.len() == 1 {
            return pixels[0];
        }
        mode_color(pixels)
    }
}

/// Reduces a region to the per-channel mean; the original lane-parallel sum
/// computes the same channel totals, so the scalar mean is its behavior.
pub struct SimdAverageColorExtractor;

impl ColorExtractor for SimdAverageColorExtractor {
    open spec fn valid_extraction(&self, pixels: Seq<Rgba>, c: Rgba) -> bool {
        c == spec_average(pixels)
    }

    fn extract_color(&self, pixels: &Vec<Rgba>) -> (c: Rgba)
        ensures
            c == spec_average(pixels@),
    {
        average_color(pixels)
    }
}

/// Sum of a byte sequence.
pub open spec fn sum_u8(s: Seq<u8>) -> int
    decreases s.len(),
{
    if s.len() == 0 {
        0
    } else {
        sum_u8(s.drop_last()) + s.last()
    }
}

proof fn lemma_sum_u8_bounds(s: Seq<u8>)
    ensures
        0 <= sum_u8(s) <= 255 * s.len(),
    decreases s.len(),
{
    if s.len() > 0 {
        lemma_sum_u8_bounds(s.drop_last());
    }
}

proof fn lemma_soa_channel_sums(s: Seq<Rgba>, rs: Seq<u8>, gs: Seq<u8>, bs: Seq<u8>)
    requires
        rs.len() == s.len(),
        gs.len() == s.len(),
        bs.len() == s.len(),
        forall|k: int| 0 <= k < s.len() ==> rs[k] == #[trigger] s[k].r,
        forall|k: int| 0 <= k < s.len() ==> gs[k] == #[trigger] s[k].g,
        forall|k: int| 0 <= k < s.len() ==> bs[k] == #[trigger] s[k].b,
    ensures
        sum_u8(rs) == sum_r(s),
        sum_u8(gs) == sum_g(s),
        sum_u8(bs) == sum_b(s),
    decreases s.len(),
{
    if s.len() > 0 {
        lemma_soa_channel_sums(s.drop_last(), rs.drop_last(), gs.drop_last(), bs.drop_last());
        assert(s[s.len() - 1] == s.last());
    }
}

/// Pixel samples stored channel by channel.
pub struct PixelDataSoA {
    pub r: Vec<u8>,
    pub g: Vec<u8>,
    pub b: Vec<u8>,
    pub a: Vec<u8>,
}

impl PixelDataSoA {
    /// The interleaved pixel sequence the four channel columns stand for.
    pub open spec fn pixel_seq(&self) -> Seq<Rgba> {
        Seq::new(
            self.r@.len(),
            |k: int|
                Rgba { r: self.r@[k], g: self.g@[k], b: self.b@[k], a: self.a@[k] },
        )
    }

    pub open spec fn wf(&self) -> bool {
        self.g@.len() == self.r@.len() && self.b@.len() == self.r@.len() && self.a@.len()
            == self.r@.len()
    }

    pub fn from_rgba_slice(pixels: &Vec<Rgba>) -> (out: PixelDataSoA)
        ensures
            out.wf(),
            out.pixel_seq() == pixels@,
    {
        let n = pixels.len();
        let mut r: Vec<u8> = Vec::new();
        let mut g: Vec<u8> = Vec::new();
        let mut b: Vec<u8> = Vec::new();
        let mut a: Vec<u8> = Vec::new();
        let mut i: usize = 0;
        while i < n
            invariant
                i <= n,
                n == pixels@.len(),
                r@.len() == i && g@.len() == i && b@.len() == i && a@.len() == i,
                forall|k: int| 0 <= k < i ==> r@[k] == #[trigger] pixels@[k].r,
                forall|k: int| 0 <= k < i ==> g@[k] == #[trigger] pixels@[k].g,
                forall|k: int| 0 <= k < i ==> b@[k] == #[trigger] pixels@[k].b,
                forall|k: int| 0 <= k < i ==> a@[k] == #[trigger] pixels@[k].a,
            decreases n - i,
        {
            let p = pixels[i];
            r.push(p.r);
            g.push(p.g);
            b.push(p.b);
            a.push(p.a);
            i = i + 1;
        }
        let out = PixelDataSoA { r, g, b, a };
        proof {
            assert forall|k: int| 0 <= k < out.pixel_seq().len() implies out.pixel_seq()[k]
                == pixels@[k] by {
                assert(out.r@[k] == pixels@[k].r);
                assert(out.g@[k] == pixels@[k].g);
                assert(out.b@[k] == pixels@[k].b);
                assert(out.a@[k] == pixels@[k].a);
            }
            assert(out.pixel_seq() =~= pixels@);
        }
        out
    }

    pub fn len(&self) -> (n: usize)
        ensures
            n == self.pixel_seq().len(),
    {
        self.r.len()
    }

    /// The truncating per-channel mean of the stored samples, summed column
    /// by column.
    pub fn average_color(&self) -> (c: Rgba)
        requires
            self.wf(),
        ensures
            c == spec_average(self.pixel_seq()),
    {
        let ghost s = self.pixel_seq();
        let n = self.r.len();
        if n == 0 {
            return Rgba::opaque_black();
        }
        let mut sum_red: u128 = 0;
        let mut sum_green: u128 = 0;
        let mut sum_blue: u128 = 0;
        let mut i: usize = 0;
        while i < n
            invariant
                i <= n,
                n == self.r@.len(),
                self.wf(),
                sum_red == sum_u8(self.r@.take(i as int)),
                sum_green == sum_u8(self.g@.take(i as int)),
                sum_blue == sum_u8(self.b@.take(i as int)),
                sum_red <= 255 * i && sum_green <= 255 * i && sum_blue <= 255 * i,
        decreases n - i,
        {
            proof {
                assert(self.r@.take(i + 1).drop_last() =~= self.r@.take(i as int));
                assert(self.g@.take(i + 1).drop_last() =~= self.g@.take(i as int));
                assert(self.b@.take(i + 1).drop_last() =~= self.b@.take(i as int));
                assert(255 * (i as int) + 255 == 255 * (i + 1));
            }
            sum_red = sum_red + self.r[i] as u128;
            sum_green = sum_green + self.g[i] as u128;
            sum_blue = sum_blue + self.b[i] as u128;
            i = i + 1;
        }
        proof {
            assert(self.r@.take(n as int) =~= self.r@);
            assert(self.g@.take(n as int) =~= self.g@);
            assert(self.b@.take(n as int) =~= self.b@);
            lemma_soa_channel_sums(s, self.r@, self.g@, self.b@);
            lemma_mean_in_byte_range(s);
        }
        let count = n as u128;
        Rgba {
            r: (sum_red / count) as u8,
            g: (sum_green / count) as u8,
            b: (sum_blue / count) as u8,
            a: 255,
        }
    }
}

/// Reduces a region to the per-channel mean, summing the channels as
/// separate columns.
pub struct SoAAverageColorExtractor;

impl ColorExtractor for SoAAverageColorExtractor {
    open spec fn valid_extraction(&self, pixels: Seq<Rgba>, c: Rgba) -> bool {
        c == spec_average(pixels)
    }

    fn extract_color(&self, pixels: &Vec<Rgba>) -> (c: Rgba)
        ensures
            c == spec_average(pixels@),
    {
        let soa = PixelDataSoA::from_rgba_slice(pixels);
        soa.average_color()
    }
}

/// The color-extraction algorithms the conversion front end can choose.
#[derive(Clone, Debug, PartialEq, Eq, Structural)]
pub enum ColorAlgorithm {
    Average,
    MedianCut,
    KMeans,
}

/// A chosen extraction strategy, carried by value where the strategies would
/// otherwise stand behind one interface.
pub enum ExtractorChoice {
    Average(AverageColorExtractor),
    MedianCut(MedianCutExtractor),
    KMeans(KMeansExtractor),
    SimdAverage(SimdAverageColorExtractor),
    SoAAverage(SoAAverageColorExtractor),
}

impl ExtractorChoice {
    pub open spec fn valid_extraction(&self, pixels: Seq<Rgba>, c: Rgba) -> bool {
        match self {
            ExtractorChoice::Average(e) => e.valid_extraction(pixels, c),
            ExtractorChoice::MedianCut(e) => e.valid_extraction(pixels, c),
            ExtractorChoice::KMeans(e) => e.valid_extraction(pixels, c),
            ExtractorChoice::SimdAverage(e) => e.valid_extraction(pixels, c),
            ExtractorChoice::SoAAverage(e) => e.valid_extraction(pixels, c),
        }
    }

    pub fn extract_color(&self, pixels: &Vec<Rgba>) -> (c: Rgba)
        ensures
            self.valid_extraction(pixels@, c),
    {
        match self {
            ExtractorChoice::Average(e) => e.extract_color(pixels),
            ExtractorChoice::MedianCut(e) => e.extract_color(pixels),
            ExtractorChoice::KMeans(e) => e.extract_color(pixels),
            ExtractorChoice::SimdAverage(e) => e.extract_color(pixels),
            ExtractorChoice::SoAAverage(e) => e.extract_color(pixels),
        }
    }
}

/// Builds the extractor a chosen algorithm asks for; a missing color count
/// falls back to sixteen.
pub fn create_color_extractor(algorithm: &ColorAlgorithm, colors: Option<u32>) -> (e:
    ExtractorChoice)
    ensures
        algorithm == ColorAlgorithm::Average ==> e == ExtractorChoice::Average(
            AverageColorExtractor,
        ),
        algorithm == ColorAlgorithm::MedianCut ==> e == (ExtractorChoice::MedianCut(
            MedianCutExtractor {
                max_colors: if colors is Some {
                    colors->0
                } else {
                    16
                },
            },
        )),
        algorithm == ColorAlgorithm::KMeans ==> e == (ExtractorChoice::KMeans(
            KMeansExtractor {
                k: if colors is Some {
                    colors->0
                } else {
                    16
                },
                max_iterations: 10,
            },
        )),
{
    match algorithm {
        ColorAlgorithm::Average => ExtractorChoice::Average(AverageColorExtractor),
        ColorAlgorithm::MedianCut => {
            let max_colors = match colors {
                Some(c) => c,
                None => 16,
            };
            ExtractorChoice::MedianCut(MedianCutExtractor { max_colors })
        },
        ColorAlgorithm::KMeans => {
            let k = match colors {
                Some(c) => c,
                None => 16,
            };
            ExtractorChoice::KMeans(KMeansExtractor { k, max_iterations: 10 })
        },
    }
}

} // verus!
