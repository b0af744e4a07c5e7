//! Render configuration, cancellation, and the per-worker pixel schedule.
//!
//! A render turns a configuration into one color per pixel. The work order
//! is planned here and is pure index arithmetic: list every pixel id,
//! shuffle the list with a fixed seed so the workers' loads mix cheap and
//! expensive regions, and cut it into one contiguous chunk per worker. The
//! contracts pin the one property everything downstream leans on: every
//! pixel of the image is assigned to exactly one chunk.

use crate::identity_perm;
use rand::rngs::SmallRng;
use rand::seq::SliceRandom;
use rand::SeedableRng;
use std::sync::atomic::AtomicBool;
use std::sync::atomic::Ordering;
use std::sync::Arc;
use vstd::prelude::*;

verus! {

/// How rays that leave the scene without a hit are lit on secondary bounces.
#[derive(Copy, Clone, Debug)]
pub enum LightingModel {
    /// Full intensity whenever the ray points away from the camera.
    Isometric,
    /// Intensity follows the angle to the camera axis, with a shadow cone
    /// straight above the viewpoint.
    Cosine,
}

/// Shared cancellation flag. The issuer of a new render sets it once; every
/// worker polls it between samples and exits early. Nothing is promised about
/// the value a poll sees: other threads may set the flag at any moment.
#[derive(Clone, Debug)]
pub struct AbortSignal {
    flag: Arc<AtomicBool>,
}

impl AbortSignal {
    /// A fresh, unset flag.
    pub fn new() -> Self {
        AbortSignal { flag: Arc::new(AtomicBool::new(false)) }
    }

    /// Request cancellation of the render this signal belongs to.
    pub fn abort(&self) {
        self.flag.store(true, Ordering::Relaxed);
    }

    /// Poll the flag.
    pub fn is_aborted(&self) -> bool {
        self.flag.load(Ordering::Relaxed)
    }
}

/// Seed of the work-order shuffle: fixed, so the distribution of pixels
/// over workers is reproducible from run to run.
pub const SHUFFLE_SEED: u64 = 0x123456789ABCDEF;

/// Declares rand's `SmallRng` so generator values can pass through
/// signatures; the state inside stays opaque.
#[verifier::external_type_specification]
#[verifier::external_body]
pub struct ExSmallRng(SmallRng);

/// Relies on rand's `SeedableRng::seed_from_u64` for `SmallRng`: builds a
/// deterministic generator from the seed. Nothing is stated about the state
/// inside.
#[verifier::external_body]
fn seeded_rng(seed: u64) -> SmallRng {
    SmallRng::seed_from_u64(seed)
}

/// Relies on rand's `SliceRandom::shuffle`: it reorders the slice in place
/// by swaps (Fisher-Yates), so the values afterwards are a permutation of
/// the values before. Nothing is stated about their order.
#[verifier::external_body]
fn shuffle_indices(v: &mut Vec<usize>, rng: &mut SmallRng)
    ensures
        final(v)@.len() == old(v)@.len(),
        final(v)@.to_multiset() == old(v)@.to_multiset(),
{
    v.shuffle(rng)
}

/// Configuration of one render: image size, sampling, bounce budget,
/// lighting model for missed rays, worker count. The camera, the scene and
/// the color values are floating-point state and live with the host,
/// alongside this.
#[derive(Clone, Copy, Debug)]
pub struct RenderOptions {
    /// Image width in pixels.
    pub image_width: usize,
    /// Image height in pixels.
    pub image_height: usize,
    /// Rays averaged per pixel; at least one.
    pub samples_per_pixel: usize,
    /// Recursion budget of the trace; zero means primary rays only report
    /// emission or background.
    pub max_bounces: usize,
    /// Lighting of rays that leave the scene on secondary bounces.
    pub lighting_model: LightingModel,
    /// Worker threads the schedule is cut for; at least one.
    pub threads: usize,
}

impl RenderOptions {
    /// The bounds a configuration must respect: at least one sample per
    /// pixel and at least one worker.
    pub open spec fn wf(&self) -> bool {
        &&& self.samples_per_pixel >= 1
        &&& self.threads >= 1
    }

    /// The default configuration.
    pub fn new() -> (r: Self)
        ensures
            r == (RenderOptions {
                image_width: 1280,
                image_height: 720,
                samples_per_pixel: 1,
                max_bounces: 1,
                lighting_model: LightingModel::Cosine,
                threads: 1,
            }),
            r.wf(),
    {
        RenderOptions {
            image_width: 1280,
            image_height: 720,
            samples_per_pixel: 1,
            max_bounces: 1,
            lighting_model: LightingModel::Cosine,
            threads: 1,
        }
    }

    /// Replace the image width.
    pub fn image_width(self, image_width: usize) -> (r: Self)
        ensures
            r == (RenderOptions { image_width, ..self }),
    {
        RenderOptions { image_width, ..self }
    }

    /// Replace the image height.
    pub fn image_height(self, image_height: usize) -> (r: Self)
        ensures
            r == (RenderOptions { image_height, ..self }),
    {
        RenderOptions { image_height, ..self }
    }

    /// Replace the per-pixel sample count.
    pub fn samples_per_pixel(self, samples: usize) -> (r: Self)
        requires
            samples >= 1,
        ensures
            r == (RenderOptions { samples_per_pixel: samples, ..self }),
    {
        RenderOptions { samples_per_pixel: samples, ..self }
    }

    /// Replace the bounce budget.
    pub fn max_bounces(self, bounces: usize) -> (r: Self)
        ensures
            r == (RenderOptions { max_bounces: bounces, ..self }),
    {
        RenderOptions { max_bounces: bounces, ..self }
    }

    /// Replace the lighting model.
    pub fn lighting_model(self, lighting_model: LightingModel) -> (r: Self)
        ensures
            r == (RenderOptions { lighting_model, ..self }),
    {
        RenderOptions { lighting_model, ..self }
    }

    /// Replace the worker count.
    pub fn threads(self, threads: usize) -> (r: Self)
        requires
            threads >= 1,
        ensures
            r == (RenderOptions { threads, ..self }),
    {
        RenderOptions { threads, ..self }
    }
}

/// The pixel ids `0 .. n`, in order.
fn pixel_indices(n: usize) -> (r: Vec<usize>)
    ensures
        r@ == identity_perm(n as int),
{
    let mut v: Vec<usize> = Vec::new();
    let mut k: usize = 0;
    while k < n
        invariant
            k <= n,
            v@.len() == k,
            forall|j: int| 0 <= j < k ==> (#[trigger] v@[j]) == j,
        decreases n - k,
    {
        v.push(k);
        k += 1;
    }
    proof {
        assert(v@ =~= identity_perm(n as int));
    }
    v
}

/// Cut the pixel list into consecutive chunks of `chunk_size` slots; the
/// last chunk may be shorter. The chunks, in order, lay the list end to
/// end: nothing is dropped, duplicated or reordered.
pub fn chunk_pixels(pixels: &Vec<usize>, chunk_size: usize) -> (r: Vec<Vec<usize>>)
    requires
        chunk_size >= 1,
    ensures
        r@.map_values(|c: Vec<usize>| c@).flatten() == pixels@,
        forall|k: int| 0 <= k < r@.len() ==> 1 <= (#[trigger] r@[k])@.len() <= chunk_size,
        r@.len() == (pixels@.len() + chunk_size - 1) / (chunk_size as int),
{
    let n = pixels.len();
    let mut r: Vec<Vec<usize>> = Vec::new();
    let mut i: usize = 0;
    while i < n
        invariant
            i <= n,
            n == pixels@.len(),
            chunk_size >= 1,
            r@.map_values(|c: Vec<usize>| c@).flatten() =~= pixels@.subrange(0, i as int),
            forall|k: int| 0 <= k < r@.len() ==> 1 <= (#[trigger] r@[k])@.len() <= chunk_size,
            i as int == r@.len() * chunk_size || (i == n && r@.len() >= 1 && (r@.len() - 1)
                * chunk_size < n <= r@.len() * chunk_size),
        decreases n - i,
    {
        let ghost start = i as int;
        let ghost r_before = r@;
        let mut chunk: Vec<usize> = Vec::new();
        let mut j: usize = 0;
        while j < chunk_size && i < n
            invariant
                n == pixels@.len(),
                start + j == i,
                i <= n,
                j <= chunk_size,
                0 <= start < n,
                chunk@ =~= pixels@.subrange(start, i as int),
            decreases n - i,
        {
            let p = pixels[i];
            chunk.push(p);
            i += 1;
            j += 1;
        }
        assert(j >= 1);
        assert(j == chunk_size || i == n);
        r.push(chunk);
        proof {
            assert(r@ =~= r_before.push(chunk));
            assert(r@.map_values(|c: Vec<usize>| c@) =~= r_before.map_values(
                |c: Vec<usize>| c@,
            ).push(chunk@));
            r_before.map_values(|c: Vec<usize>| c@).lemma_flatten_push(chunk@);
            assert((r_before.len() as int + 1) * (chunk_size as int) == (r_before.len() as int)
                * (chunk_size as int) + chunk_size as int) by (nonlinear_arith);
            assert(pixels@.subrange(0, i as int) =~= pixels@.subrange(0, start) + pixels@.subrange(
                start,
                i as int,
            ));
        }
    }
    proof {
        let m = r@.len() as int;
        let cs = chunk_size as int;
        let ni = n as int;
        if i as int == m * cs {
            assert(m == (ni + cs - 1) / cs) by (nonlinear_arith)
                requires
                    ni == m * cs,
                    cs >= 1,
                    m >= 0,
            ;
        } else {
            assert(m == (ni + cs - 1) / cs) by (nonlinear_arith)
                requires
                    (m - 1) * cs < ni <= m * cs,
                    cs >= 1,
                    m >= 1,
            ;
        }
        assert(pixels@.subrange(0, n as int) =~= pixels@);
    }
    r
}

/// Where the pixel with row-major id `i` sits in the image.
pub fn pixel_coords(i: usize, width: usize) -> (r: (usize, usize))
    requires
        width >= 1,
    ensures
        r.0 as int == i as int % width as int,
        r.1 as int == i as int / width as int,
        r.0 < width,
{
    (i % width, i / width)
}

/// Row-major buffer position of the pixel at `(x, y)`.
pub fn pixel_index(x: usize, y: usize, width: usize, height: usize) -> (r: usize)
    requires
        x < width,
        y < height,
        width * height <= usize::MAX,
    ensures
        r as int == (y as int) * (width as int) + (x as int),
        r < width * height,
{
    proof {
        assert((y as int) * (width as int) + (x as int) < (width as int) * (height as int))
            by (nonlinear_arith)
            requires
                0 <= x < width,
                0 <= y < height,
        ;
    }
    y * width + x
}

/// Law: every pixel id of an image maps to coordinates inside it: for
/// `i < width * height`, `pixel_coords` yields `x < width` and
/// `y < height`.
pub proof fn lemma_pixel_coords_in_image(i: int, width: int, height: int)
    requires
        width >= 1,
        0 <= i < width * height,
    ensures
        i % width < width,
        i / width < height,
{
    vstd::arithmetic::div_mod::lemma_fundamental_div_mod(i, width);
    vstd::arithmetic::div_mod::lemma_mod_bound(i, width);
    assert(i / width < height) by (nonlinear_arith)
        requires
            i == width * (i / width) + i % width,
            0 <= i % width < width,
            0 <= i < width * height,
            width >= 1,
    ;
}

/// Law: `pixel_coords` inverts `pixel_index`: splitting the row-major
/// position of `(x, y)` yields `(x, y)` again.
pub proof fn lemma_pixel_round_trip(x: int, y: int, width: int)
    requires
        0 <= x < width,
        0 <= y,
    ensures
        (y * width + x) % width == x,
        (y * width + x) / width == y,
{
    vstd::arithmetic::div_mod::lemma_fundamental_div_mod_converse(y * width + x, width, y, x);
}

/// One worker's pass over its chunk of the schedule: shade the pixels in
/// order and collect `(pixel id, result)` pairs. The shader answers `None`
/// when it sees the cancellation signal; the chunk then stops at once, so
/// what a worker emits is always a shaded prefix of its chunk — no pixel
/// out of order, none twice, none from outside the chunk.
pub fn run_chunk<T, F: Fn(usize) -> Option<T>>(chunk: &Vec<usize>, shade: &F) -> (r: Vec<
    (usize, T),
>)
    requires
        forall|p: usize| #[trigger] call_requires(*shade, (p,)),
    ensures
        r@.len() <= chunk@.len(),
        forall|j: int| 0 <= j < r@.len() ==> (#[trigger] r@[j]).0 == chunk@[j],
        forall|j: int|
            0 <= j < r@.len() ==> call_ensures(
                *shade,
                (chunk@[j],),
                Some((#[trigger] r@[j]).1),
            ),
        r@.len() < chunk@.len() ==> call_ensures(*shade, (chunk@[r@.len() as int],), None::<T>),
{
    let mut out: Vec<(usize, T)> = Vec::new();
    let mut i: usize = 0;
    while i < chunk.len()
        invariant
            i <= chunk@.len(),
            out@.len() == i,
            forall|p: usize| #[trigger] call_requires(*shade, (p,)),
            forall|j: int| 0 <= j < i ==> (#[trigger] out@[j]).0 == chunk@[j],
            forall|j: int|
                0 <= j < i ==> call_ensures(*shade, (chunk@[j],), Some((#[trigger] out@[j]).1)),
        decreases chunk@.len() - i,
    {
        let p = chunk[i];
        match shade(p) {
            None => {
                return out;
            },
            Some(color) => {
                out.push((p, color));
            },
        }
        i += 1;
    }
    out
}

/// A prefix of a sequence holds no more copies of any value than the
/// sequence itself.
proof fn lemma_take_submultiset(s: Seq<usize>, m: int)
    requires
        0 <= m <= s.len(),
    ensures
        s.take(m).to_multiset().subset_of(s.to_multiset()),
{
    broadcast use vstd::multiset::group_multiset_axioms;

    assert(s =~= s.take(m) + s.skip(m));
    vstd::seq_lib::lemma_multiset_commutative(s.take(m), s.skip(m));
}

/// Concatenating pointwise sub-multisets yields a sub-multiset of the
/// concatenation.
proof fn lemma_flatten_submultiset(a: Seq<Seq<usize>>, b: Seq<Seq<usize>>)
    requires
        a.len() == b.len(),
        forall|k: int|
            0 <= k < a.len() ==> (#[trigger] a[k].to_multiset()).subset_of(b[k].to_multiset()),
    ensures
        a.flatten().to_multiset().subset_of(b.flatten().to_multiset()),
    decreases a.len(),
{
    broadcast use vstd::multiset::group_multiset_axioms;
    broadcast use vstd::seq_lib::group_to_multiset_ensures;

    if a.len() == 0 {
        assert(forall|v: usize| !a.flatten().contains(v));
    } else {
        lemma_flatten_submultiset(a.drop_first(), b.drop_first());
        assert(a.flatten() == a.first() + a.drop_first().flatten());
        assert(b.flatten() == b.first() + b.drop_first().flatten());
        vstd::seq_lib::lemma_multiset_commutative(a.first(), a.drop_first().flatten());
        vstd::seq_lib::lemma_multiset_commutative(b.first(), b.drop_first().flatten());
        assert(a[0].to_multiset().subset_of(b[0].to_multiset()));
    }
}

/// Law: across one render no pixel is reported twice. The chunks of the
/// schedule hold every pixel at most once between them; then whatever
/// prefix of its chunk each worker finishes before cancellation stops it,
/// the reported pixel ids stay pairwise distinct.
pub proof fn lemma_emitted_pixels_distinct(chunks: Seq<Seq<usize>>, cuts: Seq<int>)
    requires
        chunks.flatten().no_duplicates(),
        cuts.len() == chunks.len(),
        forall|k: int| 0 <= k < cuts.len() ==> 0 <= #[trigger] cuts[k] <= chunks[k].len(),
    ensures
        Seq::new(chunks.len(), |k: int| chunks[k].take(cuts[k])).flatten().no_duplicates(),
{
    broadcast use vstd::multiset::group_multiset_axioms;
    broadcast use vstd::seq_lib::group_to_multiset_ensures;

    let emitted = Seq::new(chunks.len(), |k: int| chunks[k].take(cuts[k]));
    assert forall|k: int|
        0 <= k < emitted.len() implies (#[trigger] emitted[k].to_multiset()).subset_of(
        chunks[k].to_multiset(),
    ) by {
        lemma_take_submultiset(chunks[k], cuts[k]);
    }
    lemma_flatten_submultiset(emitted, chunks);
    chunks.flatten().lemma_multiset_has_no_duplicates();
    assert forall|x: usize| emitted.flatten().to_multiset().contains(x) implies emitted.flatten()
        .to_multiset().count(x) == 1 by {
        assert(chunks.flatten().to_multiset().count(x) >= 1);
    }
    emitted.flatten().lemma_multiset_has_no_duplicates_conv();
}

impl RenderOptions {
    /// The work schedule: one chunk of pixel ids per worker. The ids
    /// `0 .. width * height` are shuffled with the fixed seed and cut into
    /// at most `threads` contiguous chunks. Together the chunks hold every
    /// pixel of the image exactly once.
    pub fn render_plan(&self) -> (r: Vec<Vec<usize>>)
        requires
            self.wf(),
            self.image_width * self.image_height <= usize::MAX,
        ensures
            r@.map_values(|c: Vec<usize>| c@).flatten().to_multiset() == identity_perm(
                (self.image_width as int) * (self.image_height as int),
            ).to_multiset(),
            r@.map_values(|c: Vec<usize>| c@).flatten().no_duplicates(),
            r@.len() <= self.threads,
            self.image_width * self.image_height >= 1 ==> r@.len() >= 1,
            forall|k: int| 0 <= k < r@.len() ==> 1 <= (#[trigger] r@[k])@.len(),
    {
        let n = self.image_width * self.image_height;
        if n == 0 {
            let r: Vec<Vec<usize>> = Vec::new();
            proof {
                assert(r@.map_values(|c: Vec<usize>| c@).flatten() =~= identity_perm(0));
            }
            return r;
        }
        let t = self.threads;
        proof {
            vstd::arithmetic::div_mod::lemma_fundamental_div_mod(n as int, t as int);
            vstd::arithmetic::div_mod::lemma_mod_bound(n as int, t as int);
        }
        let q = if n % t == 0 {
            proof {
                assert((n as int) / (t as int) >= 1) by (nonlinear_arith)
                    requires
                        n as int == (t as int) * ((n as int) / (t as int)) + (n as int) % (t as int),
                        (n as int) % (t as int) == 0,
                        n >= 1,
                        t >= 1,
                ;
            }
            n / t
        } else {
            proof {
                assert((n as int) / (t as int) + 1 <= n as int) by (nonlinear_arith)
                    requires
                        n as int == (t as int) * ((n as int) / (t as int)) + (n as int) % (t as int),
                        0 < (n as int) % (t as int) < t as int,
                        n >= 1,
                        t >= 1,
                ;
            }
            n / t + 1
        };
        let mut pixels = pixel_indices(n);
        let mut rng = seeded_rng(SHUFFLE_SEED);
        shuffle_indices(&mut pixels, &mut rng);
        let chunks = chunk_pixels(&pixels, q);
        proof {
            let ni = n as int;
            let ti = t as int;
            let qi = q as int;
            vstd::arithmetic::div_mod::lemma_fundamental_div_mod(ni, ti);
            vstd::arithmetic::div_mod::lemma_mod_bound(ni, ti);
            assert(qi * ti >= ni) by (nonlinear_arith)
                requires
                    ni == ti * (ni / ti) + ni % ti,
                    0 <= ni % ti < ti,
                    ti >= 1,
                    qi == ni / ti + (if ni % ti != 0 {
                        1int
                    } else {
                        0int
                    }),
            ;
            assert((ni + qi - 1) / qi <= ti) by (nonlinear_arith)
                requires
                    ni >= 1,
                    qi >= 1,
                    ti >= 1,
                    qi * ti >= ni,
            ;
            broadcast use vstd::seq_lib::group_to_multiset_ensures;

            crate::lemma_identity_no_duplicates(ni);
            identity_perm(ni).lemma_multiset_has_no_duplicates();
            let fl = chunks@.map_values(|c: Vec<usize>| c@).flatten();
            assert forall|x: usize| fl.to_multiset().contains(x) implies fl.to_multiset().count(x)
                == 1 by {
                assert(identity_perm(ni).to_multiset().count(x) >= 1);
            }
            fl.lemma_multiset_has_no_duplicates_conv();
        }
        chunks
    }
}

} // verus!
