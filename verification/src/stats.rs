use vstd::prelude::*;

use crate::buffer::{chan_of, px_at, FrameBuffer, Rgba};

verus! {

broadcast use vstd::std_specs::hash::group_hash_axioms;

use std::collections::HashSet;

// The statistics engine: one scan over a buffer that accumulates four
// histograms, the pixel count, the transparent-pixel count and the number
// of distinct colours.

/// Grey level of a pixel: the unweighted average of its colour channels.
pub open spec fn grey_level(p: Rgba) -> int {
    (p.r + p.g + p.b) / 3
}

/// The level a histogram buckets pixel `i` under: channel 0, 1 or 2 is the
/// red, green or blue value; 3 is the grey level.
pub open spec fn level_of(data: Seq<u8>, i: int, c: int) -> int {
    if c == 3 {
        grey_level(px_at(data, i))
    } else {
        chan_of(px_at(data, i), c) as int
    }
}

/// How many of the first `n` pixels fall in bucket `lvl` of histogram `c`.
pub open spec fn count_level(data: Seq<u8>, n: int, c: int, lvl: int) -> int
    decreases n,
{
    if n <= 0 {
        0
    } else {
        count_level(data, n - 1, c, lvl) + if level_of(data, n - 1, c) == lvl {
            1int
        } else {
            0int
        }
    }
}

/// How many of the first `n` pixels are fully transparent.
pub open spec fn count_transparent(data: Seq<u8>, n: int) -> int
    decreases n,
{
    if n <= 0 {
        0
    } else {
        count_transparent(data, n - 1) + if px_at(data, n - 1).a == 0 {
            1int
        } else {
            0int
        }
    }
}

/// A pixel's RGB triple packed into one word, ignoring alpha.
pub open spec fn rgb_code(p: Rgba) -> u32 {
    (p.r * 65536 + p.g * 256 + p.b) as u32
}

/// The set of distinct RGB triples among the first `n` pixels.
pub open spec fn colors_set(data: Seq<u8>, n: int) -> Set<u32>
    decreases n,
{
    if n <= 0 {
        Set::empty()
    } else {
        colors_set(data, n - 1).insert(rgb_code(px_at(data, n - 1)))
    }
}

/// Sum of the first `upto` buckets of histogram `c` over `n` pixels.
pub open spec fn sum_counts(data: Seq<u8>, n: int, c: int, upto: int) -> int
    decreases upto,
{
    if upto <= 0 {
        0
    } else {
        sum_counts(data, n, c, upto - 1) + count_level(data, n, c, upto - 1)
    }
}

/// With no pixels scanned every bucket is empty.
proof fn lemma_sum_counts_zero(data: Seq<u8>, c: int, upto: int)
    requires
        upto >= 0,
    ensures
        sum_counts(data, 0, c, upto) == 0,
    decreases upto,
{
    if upto > 0 {
        lemma_sum_counts_zero(data, c, upto - 1);
    }
}

/// Scanning one more pixel adds one to exactly the bucket it falls in.
proof fn lemma_sum_counts_step(data: Seq<u8>, n: int, c: int, upto: int)
    requires
        n >= 1,
        upto >= 0,
    ensures
        sum_counts(data, n, c, upto) == sum_counts(data, n - 1, c, upto) + if 0 <= level_of(
            data,
            n - 1,
            c,
        ) < upto {
            1int
        } else {
            0int
        },
    decreases upto,
{
    if upto > 0 {
        lemma_sum_counts_step(data, n, c, upto - 1);
    }
}

/// Histogram totals: over `n` pixels, the 256 buckets of any of the four
/// histograms sum to exactly `n`, the pixel count.
pub proof fn lemma_histogram_total(data: Seq<u8>, n: int, c: int)
    requires
        n >= 0,
        0 <= c <= 3,
    ensures
        sum_counts(data, n, c, 256) == n,
    decreases n,
{
    if n == 0 {
        lemma_sum_counts_zero(data, c, 256);
    } else {
        lemma_histogram_total(data, n - 1, c);
        lemma_sum_counts_step(data, n, c, 256);
        assert(0 <= level_of(data, n - 1, c) < 256);
    }
}

/// Derived, read-only statistics of a buffer: pixel counts and the four
/// intensity histograms, each a vector indexed by level 0 to 255.
pub struct ExtendedImageInfo {
    pub num_pixels: u64,
    pub num_transparent_pixels: u64,
    pub num_colors: u64,
    pub grey_histogram: Vec<u64>,
    pub red_histogram: Vec<u64>,
    pub green_histogram: Vec<u64>,
    pub blue_histogram: Vec<u64>,
}

/// A histogram vector describes histogram `c` of the first `n` pixels.
pub open spec fn is_histogram(v: Seq<u64>, data: Seq<u8>, n: int, c: int) -> bool {
    v.len() == 256 && forall|l: int| 0 <= l < 256 ==> v[l] == count_level(data, n, c, l)
}

/// A vector of 256 zeroes.
fn zero_histogram() -> (v: Vec<u64>)
    ensures
        v@.len() == 256,
        forall|l: int| 0 <= l < 256 ==> v@[l] == 0,
{
    let mut v: Vec<u64> = Vec::with_capacity(256);
    let mut i: usize = 0;
    while i < 256
        invariant
            i <= 256,
            v@.len() == i,
            forall|l: int| 0 <= l < i ==> v@[l] == 0,
        decreases 256 - i,
    {
        v.push(0);
        i += 1;
    }
    v
}

impl ExtendedImageInfo {
    /// Scans the buffer once and derives its statistics: the pixel count,
    /// the fully transparent pixels, the distinct RGB triples (ignoring
    /// alpha), and the grey, red, green and blue histograms.
    pub fn from_image(img: &FrameBuffer) -> (r: ExtendedImageInfo)
        requires
            img.wf(),
        ensures
            r.num_pixels == img.npix(),
            r.num_transparent_pixels == count_transparent(img.data@, img.npix()),
            r.num_colors == colors_set(img.data@, img.npix()).len(),
            is_histogram(r.grey_histogram@, img.data@, img.npix(), 3),
            is_histogram(r.red_histogram@, img.data@, img.npix(), 0),
            is_histogram(r.green_histogram@, img.data@, img.npix(), 1),
            is_histogram(r.blue_histogram@, img.data@, img.npix(), 2),
    {
        let data = &img.data;
        let npix: usize = data.len() / 4;
        proof {
            assert(npix == img.npix());
            assert(4 * npix == data@.len());
        }
        let mut grey = zero_histogram();
        let mut red = zero_histogram();
        let mut green = zero_histogram();
        let mut blue = zero_histogram();
        let mut transparent: u64 = 0;
        let mut seen: HashSet<u32> = HashSet::new();
        let mut i: usize = 0;
        while i < npix
            invariant
                4 * npix == data@.len(),
                4 * npix <= usize::MAX,
                i <= npix,
                transparent == count_transparent(data@, i as int),
                transparent <= i,
                seen@ == colors_set(data@, i as int),
                is_histogram(grey@, data@, i as int, 3),
                is_histogram(red@, data@, i as int, 0),
                is_histogram(green@, data@, i as int, 1),
                is_histogram(blue@, data@, i as int, 2),
                forall|l: int| 0 <= l < 256 ==> grey@[l] <= i,
                forall|l: int| 0 <= l < 256 ==> red@[l] <= i,
                forall|l: int| 0 <= l < 256 ==> green@[l] <= i,
                forall|l: int| 0 <= l < 256 ==> blue@[l] <= i,
            decreases npix - i,
        {
            let p = Rgba {
                r: data[4 * i],
                g: data[4 * i + 1],
                b: data[4 * i + 2],
                a: data[4 * i + 3],
            };
            assert(p == px_at(data@, i as int));
            if p.a == 0 {
                transparent += 1;
            }
            let g_lvl: usize = (p.r as usize + p.g as usize + p.b as usize) / 3;
            assert(g_lvl as int == grey_level(p));
            bump(&mut grey, g_lvl, Ghost(data@), Ghost(i as int), Ghost(3));
            bump(&mut red, p.r as usize, Ghost(data@), Ghost(i as int), Ghost(0));
            bump(&mut green, p.g as usize, Ghost(data@), Ghost(i as int), Ghost(1));
            bump(&mut blue, p.b as usize, Ghost(data@), Ghost(i as int), Ghost(2));
            let code: u32 = p.r as u32 * 65536 + p.g as u32 * 256 + p.b as u32;
            assert(code == rgb_code(p));
            seen.insert(code);
            i += 1;
        }
        let ncolors: usize = seen.len();
        ExtendedImageInfo {
            num_pixels: npix as u64,
            num_transparent_pixels: transparent,
            num_colors: ncolors as u64,
            grey_histogram: grey,
            red_histogram: red,
            green_histogram: green,
            blue_histogram: blue,
        }
    }
}

/// Adds pixel `i` to bucket `lvl` of histogram `c`.
fn bump(v: &mut Vec<u64>, lvl: usize, data: Ghost<Seq<u8>>, i: Ghost<int>, c: Ghost<int>)
    requires
        is_histogram(old(v)@, data@, i@, c@),
        forall|l: int| 0 <= l < 256 ==> old(v)@[l] <= i@,
        0 <= i@,
        lvl < 256,
        lvl as int == level_of(data@, i@, c@),
        i@ < u64::MAX,
    ensures
        is_histogram(final(v)@, data@, i@ + 1, c@),
        forall|l: int| 0 <= l < 256 ==> final(v)@[l] <= i@ + 1,
{
    let cur: u64 = v[lvl];
    v.set(lvl, cur + 1);
}

} // verus!
