//! Grids of samples and the alignment (padding) primitive that centers a
//! source grid inside a larger target grid, plus channel splitting.
//!
//! The sample type is generic: the pipeline instantiates it with a
//! floating-point sample outside this crate, while every contract here is
//! exact index arithmetic and holds for any sample type.

use vstd::prelude::*;
use vstd::arithmetic::div_mod::lemma_fundamental_div_mod;
use vstd::arithmetic::div_mod::lemma_fundamental_div_mod_converse;
use vstd::arithmetic::div_mod::lemma_mod_pos_bound;
use vstd::arithmetic::mul::lemma_mul_is_commutative;

verus! {

/// The top or left margin when an extent of `src` cells is centered inside
/// an extent of `res` cells: both midpoints by integer halves, exactly the
/// convention the kernel grid uses, so the kernel's center cell lands on
/// the target's center cell.
pub open spec fn center_offset(res: int, src: int) -> int {
    res / 2 - src / 2
}

/// `v` clamped to the valid index range `[0, max)`: the nearest valid row
/// or column when `v` falls outside the source grid.
pub open spec fn clamped(v: int, max: int) -> int {
    if v < 0 {
        0
    } else if v >= max {
        max - 1
    } else {
        v
    }
}

/// The row-major `res_w x res_h` grid that centers the row-major
/// `src_w x src_h` grid `src` inside it and fills every cell that falls
/// outside the source with `fill`.
pub open spec fn aligned_fill<T>(
    src: Seq<T>,
    src_w: int,
    src_h: int,
    res_w: int,
    res_h: int,
    fill: T,
) -> Seq<T> {
    Seq::new(
        (res_w * res_h) as nat,
        |p: int|
            {
                let ii = p / res_w - center_offset(res_h, src_h);
                let ij = p % res_w - center_offset(res_w, src_w);
                if 0 <= ii < src_h && 0 <= ij < src_w {
                    src[ii * src_w + ij]
                } else {
                    fill
                }
            },
    )
}

/// The row-major `res_w x res_h` grid that centers the row-major
/// `src_w x src_h` grid `src` inside it and repeats the nearest border
/// sample into every cell that falls outside the source.
pub open spec fn aligned_clamp<T>(
    src: Seq<T>,
    src_w: int,
    src_h: int,
    res_w: int,
    res_h: int,
) -> Seq<T> {
    Seq::new(
        (res_w * res_h) as nat,
        |p: int|
            {
                let ii = clamped(p / res_w - center_offset(res_h, src_h), src_h);
                let ij = clamped(p % res_w - center_offset(res_w, src_w), src_w);
                src[ii * src_w + ij]
            },
    )
}

/// Centering correctness: when the source fits inside the target, every
/// source cell reappears at its centered position in the aligned grid,
/// `center_offset` rows down and columns right.
pub proof fn lemma_aligned_fill_places_source<T>(
    src: Seq<T>,
    src_w: int,
    src_h: int,
    res_w: int,
    res_h: int,
    fill: T,
    si: int,
    sj: int,
)
    requires
        0 < src_w <= res_w,
        0 < src_h <= res_h,
        src.len() == src_w * src_h,
        0 <= si < src_h,
        0 <= sj < src_w,
    ensures
        aligned_fill(src, src_w, src_h, res_w, res_h, fill)[(si + center_offset(res_h, src_h))
            * res_w + (sj + center_offset(res_w, src_w))] == src[si * src_w + sj],
{
    let oi = center_offset(res_h, src_h);
    let oj = center_offset(res_w, src_w);
    let i = si + oi;
    let j = sj + oj;
    assert(0 <= oi && 0 <= oj);
    assert(i < res_h && j < res_w);
    let p = i * res_w + j;
    assert(0 <= p < res_w * res_h) by (nonlinear_arith)
        requires
            p == i * res_w + j,
            0 <= i < res_h,
            0 <= j < res_w,
    ;
    lemma_fundamental_div_mod_converse(p, res_w, i, j);
    assert(aligned_fill(src, src_w, src_h, res_w, res_h, fill)[p] == src[si * src_w + sj]);
}

/// A borrowed `width x height` grid of samples, row major: the cell in row
/// `i` and column `j` sits at index `i * width + j` of the buffer.
pub struct ImageFloat<'a, T> {
    width: usize,
    height: usize,
    buffer: &'a [T],
}

impl<'a, T> ImageFloat<'a, T> {
    /// Width of the grid, in columns.
    pub closed spec fn spec_width(&self) -> usize {
        self.width
    }

    /// Height of the grid, in rows.
    pub closed spec fn spec_height(&self) -> usize {
        self.height
    }

    /// The samples, row major.
    pub closed spec fn spec_buffer(&self) -> Seq<T> {
        self.buffer@
    }

    /// The buffer holds exactly one sample per cell of the grid.
    pub open spec fn wf(&self) -> bool {
        self.spec_buffer().len() == self.spec_width() * self.spec_height()
    }

    pub fn new(width: usize, height: usize, buffer: &'a [T]) -> (img: Self)
        ensures
            img.spec_width() == width,
            img.spec_height() == height,
            img.spec_buffer() == buffer@,
    {
        ImageFloat { width, height, buffer }
    }

    pub fn dimensions(&self) -> (dims: (usize, usize))
        ensures
            dims.0 == self.spec_width(),
            dims.1 == self.spec_height(),
    {
        (self.width, self.height)
    }

    pub fn buffer(&self) -> (buf: &[T])
        ensures
            buf@ == self.spec_buffer(),
    {
        self.buffer
    }
}

impl<'a, T: Copy> ImageFloat<'a, T> {
    /// Center this grid inside a `res_width x res_height` grid, writing
    /// `what` into every target cell that no source cell covers.
    pub fn extend_image_with(&self, res_width: usize, res_height: usize, what: T) -> (res: Vec<T>)
        requires
            self.wf(),
        ensures
            res@ == aligned_fill(
                self.spec_buffer(),
                self.spec_width() as int,
                self.spec_height() as int,
                res_width as int,
                res_height as int,
                what,
            ),
    {
        let src_width = self.width;
        let src_height = self.height;
        let ghost target = aligned_fill(
            self.spec_buffer(),
            src_width as int,
            src_height as int,
            res_width as int,
            res_height as int,
            what,
        );
        let mut res: Vec<T> = Vec::new();
        proof {
            assert(0 * res_width == 0) by (nonlinear_arith);
            assert(0 * res_width <= res_width * res_height) by (nonlinear_arith);
        }
        for i in 0..res_height
            invariant
                self.wf(),
                src_width == self.spec_width(),
                src_height == self.spec_height(),
                target == aligned_fill(
                    self.spec_buffer(),
                    src_width as int,
                    src_height as int,
                    res_width as int,
                    res_height as int,
                    what,
                ),
                target.len() == res_width * res_height,
                res@.len() == i * res_width,
                i * res_width <= res_width * res_height,
                forall|p: int| 0 <= p < res@.len() ==> res@[p] == target[p],
        {
            for j in 0..res_width
                invariant
                    self.wf(),
                    src_width == self.spec_width(),
                    src_height == self.spec_height(),
                    target == aligned_fill(
                        self.spec_buffer(),
                        src_width as int,
                        src_height as int,
                        res_width as int,
                        res_height as int,
                        what,
                    ),
                    target.len() == res_width * res_height,
                    i < res_height,
                    res@.len() == i * res_width + j,
                    i * res_width + j <= res_width * res_height,
                    forall|p: int| 0 <= p < res@.len() ==> res@[p] == target[p],
            {
                let ii: i128 = i as i128 - ((res_height / 2) as i128 - (src_height / 2) as i128);
                let ij: i128 = j as i128 - ((res_width / 2) as i128 - (src_width / 2) as i128);
                proof {
                    assert(i * res_width + j < res_width * res_height) by (nonlinear_arith)
                        requires
                            0 <= i < res_height,
                            0 <= j < res_width,
                    ;
                    lemma_fundamental_div_mod_converse(
                        i * res_width + j,
                        res_width as int,
                        i as int,
                        j as int,
                    );
                }
                let val: T;
                if 0 <= ii && ii < src_height as i128 && 0 <= ij && ij < src_width as i128 {
                    let sii = ii as usize;
                    let sij = ij as usize;
                    let n = self.buffer.len();
                    proof {
                        assert(sii * src_width + sij < src_width * src_height) by (nonlinear_arith)
                            requires
                                0 <= sii < src_height,
                                0 <= sij < src_width,
                        ;
                        assert(n == src_width * src_height);
                    }
                    val = self.buffer[sii * src_width + sij];
                } else {
                    val = what;
                }
                res.push(val);
                proof {
                    assert(target[i * res_width + j] == val);
                    assert(i * res_width + j + 1 <= res_width * res_height) by (nonlinear_arith)
                        requires
                            0 <= i < res_height,
                            0 <= j < res_width,
                    ;
                }
            }
            proof {
                assert(i * res_width + res_width == (i + 1) * res_width) by (nonlinear_arith);
                assert((i + 1) * res_width <= res_width * res_height) by (nonlinear_arith)
                    requires
                        0 <= i < res_height,
                ;
            }
        }
        proof {
            assert(res_height * res_width == res_width * res_height) by (nonlinear_arith);
            assert(res@ =~= target);
        }
        res
    }

    /// Center this grid inside a `res_width x res_height` grid, repeating
    /// the nearest border sample into every target cell that no source cell
    /// covers.
    pub fn extend_image_repeat(&self, res_width: usize, res_height: usize) -> (res: Vec<T>)
        requires
            self.wf(),
            self.spec_width() >= 1,
            self.spec_height() >= 1,
        ensures
            res@ == aligned_clamp(
                self.spec_buffer(),
                self.spec_width() as int,
                self.spec_height() as int,
                res_width as int,
                res_height as int,
            ),
    {
        let src_width = self.width;
        let src_height = self.height;
        let ghost target = aligned_clamp(
            self.spec_buffer(),
            src_width as int,
            src_height as int,
            res_width as int,
            res_height as int,
        );
        let mut res: Vec<T> = Vec::new();
        proof {
            assert(0 * res_width == 0) by (nonlinear_arith);
            assert(0 * res_width <= res_width * res_height) by (nonlinear_arith);
        }
        for i in 0..res_height
            invariant
                self.wf(),
                src_width == self.spec_width(),
                src_height == self.spec_height(),
                src_width >= 1,
                src_height >= 1,
                target == aligned_clamp(
                    self.spec_buffer(),
                    src_width as int,
                    src_height as int,
                    res_width as int,
                    res_height as int,
                ),
                target.len() == res_width * res_height,
                res@.len() == i * res_width,
                i * res_width <= res_width * res_height,
                forall|p: int| 0 <= p < res@.len() ==> res@[p] == target[p],
        {
            for j in 0..res_width
                invariant
                    self.wf(),
                    src_width == self.spec_width(),
                    src_height == self.spec_height(),
                    src_width >= 1,
                    src_height >= 1,
                    target == aligned_clamp(
                        self.spec_buffer(),
                        src_width as int,
                        src_height as int,
                        res_width as int,
                        res_height as int,
                    ),
                    target.len() == res_width * res_height,
                    i < res_height,
                    res@.len() == i * res_width + j,
                    i * res_width + j <= res_width * res_height,
                    forall|p: int| 0 <= p < res@.len() ==> res@[p] == target[p],
            {
                let mut ii: i128 = i as i128 - ((res_height / 2) as i128 - (src_height / 2)
                    as i128);
                let mut ij: i128 = j as i128 - ((res_width / 2) as i128 - (src_width / 2) as i128);
                if ii < 0 {
                    ii = 0;
                }
                if ii >= src_height as i128 {
                    ii = src_height as i128 - 1;
                }
                if ij < 0 {
                    ij = 0;
                }
                if ij >= src_width as i128 {
                    ij = src_width as i128 - 1;
                }
                proof {
                    assert(i * res_width + j < res_width * res_height) by (nonlinear_arith)
                        requires
                            0 <= i < res_height,
                            0 <= j < res_width,
                    ;
                    lemma_fundamental_div_mod_converse(
                        i * res_width + j,
                        res_width as int,
                        i as int,
                        j as int,
                    );
                }
                let sii = ii as usize;
                let sij = ij as usize;
                let n = self.buffer.len();
                proof {
                    assert(sii * src_width + sij < src_width * src_height) by (nonlinear_arith)
                        requires
                            0 <= sii < src_height,
                            0 <= sij < src_width,
                    ;
                    assert(n == src_width * src_height);
                }
                let val: T = self.buffer[sii * src_width + sij];
                res.push(val);
                proof {
                    assert(target[i * res_width + j] == val);
                    assert(i * res_width + j + 1 <= res_width * res_height) by (nonlinear_arith)
                        requires
                            0 <= i < res_height,
                            0 <= j < res_width,
                    ;
                }
            }
            proof {
                assert(i * res_width + res_width == (i + 1) * res_width) by (nonlinear_arith);
                assert((i + 1) * res_width <= res_width * res_height) by (nonlinear_arith)
                    requires
                        0 <= i < res_height,
                ;
            }
        }
        proof {
            assert(res_height * res_width == res_width * res_height) by (nonlinear_arith);
            assert(res@ =~= target);
        }
        res
    }
}

/// Channel `c` of a buffer of interleaved pixels with `channels` samples
/// per pixel: the plane whose pixel `p` is sample `p * channels + c`.
pub open spec fn channel_of<T>(samples: Seq<T>, channels: int, c: int) -> Seq<T> {
    Seq::new((samples.len() as int / channels) as nat, |p: int| samples[p * channels + c])
}

/// All `channels` planes of a buffer of interleaved pixels.
pub open spec fn split_spec<T>(samples: Seq<T>, channels: int) -> Seq<Seq<T>> {
    Seq::new(channels as nat, |c: int| channel_of(samples, channels, c))
}

/// Planes of equal length `pixels` interleaved back into one buffer:
/// sample `q` comes from plane `q % planes.len()` at pixel
/// `q / planes.len()`.
pub open spec fn interleaved<T>(planes: Seq<Seq<T>>, pixels: int) -> Seq<T> {
    Seq::new(
        (planes.len() * pixels) as nat,
        |q: int| planes[q % (planes.len() as int)][q / (planes.len() as int)],
    )
}

/// The sequence of views of a vector of planes.
pub open spec fn views_of<T>(planes: Seq<Vec<T>>) -> Seq<Seq<T>> {
    Seq::new(planes.len(), |c: int| planes[c]@)
}

/// Split a buffer of interleaved three-sample pixels into its three planes.
pub fn split_rgb<T: Copy>(samples: &[T], pixel_count: usize) -> (rgb: (Vec<T>, Vec<T>, Vec<T>))
    requires
        samples@.len() == 3 * pixel_count,
    ensures
        rgb.0@ == channel_of(samples@, 3, 0),
        rgb.1@ == channel_of(samples@, 3, 1),
        rgb.2@ == channel_of(samples@, 3, 2),
{
    let n = samples.len();
    let mut r: Vec<T> = Vec::new();
    let mut g: Vec<T> = Vec::new();
    let mut b: Vec<T> = Vec::new();
    for p in 0..pixel_count
        invariant
            samples@.len() == n == 3 * pixel_count,
            r@.len() == p && g@.len() == p && b@.len() == p,
            forall|t: int| 0 <= t < p ==> r@[t] == samples@[3 * t],
            forall|t: int| 0 <= t < p ==> g@[t] == samples@[3 * t + 1],
            forall|t: int| 0 <= t < p ==> b@[t] == samples@[3 * t + 2],
    {
        proof {
            assert(3 * p + 2 < n);
        }
        r.push(samples[3 * p]);
        g.push(samples[3 * p + 1]);
        b.push(samples[3 * p + 2]);
    }
    proof {
        assert(r@ =~= channel_of(samples@, 3, 0));
        assert(g@ =~= channel_of(samples@, 3, 1));
        assert(b@ =~= channel_of(samples@, 3, 2));
    }
    (r, g, b)
}

/// Split a buffer of interleaved pixels with `channels` samples per pixel
/// into its planes, one per channel.
pub fn split_channels<T: Copy>(samples: &[T], channels: usize) -> (planes: Vec<Vec<T>>)
    requires
        channels >= 1,
        samples@.len() as int % channels as int == 0,
    ensures
        planes@.len() == channels,
        views_of(planes@) == split_spec(samples@, channels as int),
{
    let n = samples.len();
    let pixels = n / channels;
    proof {
        lemma_fundamental_div_mod(n as int, channels as int);
    }
    let mut planes: Vec<Vec<T>> = Vec::new();
    for c in 0..channels
        invariant
            channels >= 1,
            samples@.len() == n,
            n as int % channels as int == 0,
            pixels == n as int / channels as int,
            n == channels * pixels,
            planes@.len() == c,
            forall|d: int|
                0 <= d < c ==> #[trigger] planes@[d]@ == channel_of(
                    samples@,
                    channels as int,
                    d,
                ),
    {
        let mut plane: Vec<T> = Vec::new();
        for p in 0..pixels
            invariant
                channels >= 1,
                samples@.len() == n,
                n == channels * pixels,
                c < channels,
                plane@.len() == p,
                forall|t: int| 0 <= t < p ==> plane@[t] == samples@[t * channels + c],
        {
            proof {
                assert(p * channels + c < n) by (nonlinear_arith)
                    requires
                        n == channels * pixels,
                        0 <= p < pixels,
                        0 <= c < channels,
                ;
            }
            plane.push(samples[p * channels + c]);
        }
        proof {
            assert(plane@ =~= channel_of(samples@, channels as int, c as int));
        }
        planes.push(plane);
    }
    proof {
        assert(views_of(planes@) =~= split_spec(samples@, channels as int));
    }
    planes
}

/// Interleave planes of equal length `pixels`, one sample from each plane
/// per pixel, back into a single buffer.
pub fn join_channels<T: Copy>(planes: &Vec<Vec<T>>, pixels: usize) -> (out: Vec<T>)
    requires
        planes@.len() >= 1,
        forall|c: int| 0 <= c < planes@.len() ==> #[trigger] planes@[c]@.len() == pixels,
    ensures
        out@ == interleaved(views_of(planes@), pixels as int),
{
    let channels = planes.len();
    let ghost target = interleaved(views_of(planes@), pixels as int);
    let mut out: Vec<T> = Vec::new();
    proof {
        assert(0 * channels == 0) by (nonlinear_arith);
        assert(0 * channels <= channels * pixels) by (nonlinear_arith);
    }
    for p in 0..pixels
        invariant
            channels == planes@.len() >= 1,
            forall|c: int| 0 <= c < channels ==> #[trigger] planes@[c]@.len() == pixels,
            target == interleaved(views_of(planes@), pixels as int),
            target.len() == channels * pixels,
            out@.len() == p * channels,
            p * channels <= channels * pixels,
            forall|q: int| 0 <= q < out@.len() ==> out@[q] == target[q],
    {
        for c in 0..channels
            invariant
                channels == planes@.len() >= 1,
                forall|d: int| 0 <= d < channels ==> #[trigger] planes@[d]@.len() == pixels,
                target == interleaved(views_of(planes@), pixels as int),
                target.len() == channels * pixels,
                p < pixels,
                out@.len() == p * channels + c,
                p * channels + c <= channels * pixels,
                forall|q: int| 0 <= q < out@.len() ==> out@[q] == target[q],
        {
            proof {
                assert(p * channels + c < channels * pixels) by (nonlinear_arith)
                    requires
                        0 <= p < pixels,
                        0 <= c < channels,
                ;
                lemma_fundamental_div_mod_converse(
                    p * channels + c,
                    channels as int,
                    p as int,
                    c as int,
                );
                assert(target[p * channels + c] == planes@[c as int]@[p as int]);
                assert(p * channels + c + 1 <= channels * pixels) by (nonlinear_arith)
                    requires
                        0 <= p < pixels,
                        0 <= c < channels,
                ;
            }
            let plane: &Vec<T> = &planes[c];
            out.push(plane[p]);
        }
        proof {
            assert(p * channels + channels == (p + 1) * channels) by (nonlinear_arith);
            assert((p + 1) * channels <= channels * pixels) by (nonlinear_arith)
                requires
                    0 <= p < pixels,
            ;
        }
    }
    proof {
        assert(pixels * channels == channels * pixels) by (nonlinear_arith);
        assert(out@ =~= target);
    }
    out
}

/// Joining the planes that splitting produced reproduces the interleaved
/// buffer: the channel adapter loses no sample and invents none.
pub proof fn lemma_join_split_identity<T>(samples: Seq<T>, channels: int)
    requires
        channels >= 1,
        samples.len() as int % channels == 0,
    ensures
        interleaved(split_spec(samples, channels), samples.len() as int / channels) == samples,
{
    let n = samples.len() as int;
    let pixels = n / channels;
    lemma_fundamental_div_mod(n, channels);
    let joined = interleaved(split_spec(samples, channels), pixels);
    assert(joined.len() == n);
    assert forall|q: int| 0 <= q < n implies joined[q] == samples[q] by {
        lemma_mod_pos_bound(q, channels);
        lemma_fundamental_div_mod(q, channels);
        let c = q % channels;
        let p = q / channels;
        assert(0 <= p < pixels) by (nonlinear_arith)
            requires
                q == channels * p + c,
                0 <= c < channels,
                0 <= q < channels * pixels,
                channels >= 1,
        ;
        assert(joined[q] == channel_of(samples, channels, c)[p]);
        lemma_mul_is_commutative(p, channels);
        assert(channel_of(samples, channels, c)[p] == samples[p * channels + c]);
    }
    assert(joined =~= samples);
}

} // verus!
