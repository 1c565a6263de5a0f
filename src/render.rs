//! Splitting an image into bands of rows, rendering a band pixel by pixel, and
//! putting rendered bands back together into one frame.
use vstd::prelude::*;

use vstd::arithmetic::div_mod::{lemma_div_is_ordered, lemma_div_plus_one};
use vstd::arithmetic::mul::{lemma_mul_inequality, lemma_mul_is_distributive_add};

verus! {

/// The first row of band `i` when `height` rows are split into `n_jobs` bands.
pub open spec fn band_start(height: int, n_jobs: int, i: int) -> int {
    height * i / n_jobs
}

/// Row `row` lies in band `i`.
pub open spec fn in_band(height: int, n_jobs: int, i: int, row: int) -> bool {
    band_start(height, n_jobs, i) <= row < band_start(height, n_jobs, i + 1)
}

/// Row `row` lies in one of the `n_jobs` bands.
pub open spec fn covered(height: int, n_jobs: int, row: int) -> bool {
    exists|i: int| 0 <= i < n_jobs && #[trigger] in_band(height, n_jobs, i, row)
}

/// The rows `[band_start(i), band_start(i + 1))` of band `i`.
pub fn row_range(height: usize, n_jobs: usize, i: usize) -> (r: (usize, usize))
    requires
        0 < n_jobs,
        i < n_jobs,
        height * n_jobs <= usize::MAX,
    ensures
        r.0 == band_start(height as int, n_jobs as int, i as int),
        r.1 == band_start(height as int, n_jobs as int, i + 1),
        r.0 <= r.1 <= height,
{
    proof {
        lemma_bands_ordered(height as int, n_jobs as int, i as int, i + 1);
        lemma_bands_ordered(height as int, n_jobs as int, i + 1, n_jobs as int);
        assert(height * i <= height * (i + 1) <= height * n_jobs) by (nonlinear_arith)
            requires
                i < n_jobs,
        ;
        assert(band_start(height as int, n_jobs as int, n_jobs as int) == height) by {
            vstd::arithmetic::div_mod::lemma_div_multiples_vanish(height as int, n_jobs as int);
            assert(height * n_jobs == n_jobs * height) by (nonlinear_arith);
        }
    }
    let begin = height * i / n_jobs;
    let end = height * (i + 1) / n_jobs;
    (begin, end)
}

/// The row ranges of all `n_jobs` bands, band `i` at index `i`.
pub fn row_ranges(height: usize, n_jobs: usize) -> (r: Vec<(usize, usize)>)
    requires
        0 < n_jobs,
        height * n_jobs <= usize::MAX,
    ensures
        r.len() == n_jobs,
        forall|i: int|
            0 <= i < n_jobs ==> (#[trigger] r[i]).0 == band_start(height as int, n_jobs as int, i)
                && r[i].1 == band_start(height as int, n_jobs as int, i + 1),
{
    let mut r: Vec<(usize, usize)> = Vec::new();
    let mut i: usize = 0;
    while i < n_jobs
        invariant
            0 < n_jobs,
            i <= n_jobs,
            height * n_jobs <= usize::MAX,
            r.len() == i,
            forall|k: int|
                0 <= k < i ==> (#[trigger] r[k]).0 == band_start(height as int, n_jobs as int, k)
                    && r[k].1 == band_start(height as int, n_jobs as int, k + 1),
        decreases n_jobs - i,
    {
        r.push(row_range(height, n_jobs, i));
        i = i + 1;
    }
    r
}

/// Bands start in order: band `i` starts no later than band `j` for `i <= j`.
proof fn lemma_bands_ordered(height: int, n_jobs: int, i: int, j: int)
    requires
        0 <= height,
        0 < n_jobs,
        i <= j,
    ensures
        band_start(height, n_jobs, i) <= band_start(height, n_jobs, j),
{
    assert(height * i <= height * j) by (nonlinear_arith)
        requires
            0 <= height,
            i <= j,
    ;
    lemma_div_is_ordered(height * i, height * j, n_jobs);
}

/// Some band `i` at or after `from` holds `row`, when `row` is past the start
/// of band `from` and before the end of the image.
proof fn lemma_band_of_row(height: int, n_jobs: int, from: int, row: int) -> (i: int)
    requires
        0 < n_jobs,
        0 <= from < n_jobs,
        band_start(height, n_jobs, from) <= row < height,
        band_start(height, n_jobs, n_jobs) == height,
    ensures
        from <= i < n_jobs,
        band_start(height, n_jobs, i) <= row < band_start(height, n_jobs, i + 1),
    decreases n_jobs - from,
{
    if row < band_start(height, n_jobs, from + 1) {
        from
    } else {
        lemma_band_of_row(height, n_jobs, from + 1, row)
    }
}

/// Splitting `height` rows into `n_jobs` bands covers every row exactly once:
/// the first band starts at row 0, the last ends at `height`, each band ends
/// where the next starts, every row lies in one band and in no other. With no
/// more bands than rows, no band is empty.
pub proof fn lemma_bands_tile(height: nat, n_jobs: nat)
    requires
        0 < n_jobs,
    ensures
        band_start(height as int, n_jobs as int, 0) == 0,
        band_start(height as int, n_jobs as int, n_jobs as int) == height,
        forall|i: int, j: int|
            0 <= i <= j <= n_jobs ==> #[trigger] band_start(height as int, n_jobs as int, i) <= #[trigger] band_start(
                height as int,
                n_jobs as int,
                j,
            ),
        forall|row: int| 0 <= row < height ==> #[trigger] covered(height as int, n_jobs as int, row),
        forall|row: int, i: int, j: int|
            0 <= i < n_jobs && 0 <= j < n_jobs && #[trigger] in_band(height as int, n_jobs as int, i, row)
                && #[trigger] in_band(height as int, n_jobs as int, j, row) ==> i == j,
        n_jobs <= height ==> forall|i: int|
            0 <= i < n_jobs ==> #[trigger] band_start(height as int, n_jobs as int, i) < band_start(
                height as int,
                n_jobs as int,
                i + 1,
            ),
{
    let h = height as int;
    let n = n_jobs as int;
    assert(band_start(h, n, n) == h) by {
        vstd::arithmetic::div_mod::lemma_div_multiples_vanish(h, n);
        assert(h * n == n * h) by (nonlinear_arith);
    }
    assert forall|i: int, j: int| 0 <= i <= j <= n implies #[trigger] band_start(h, n, i) <= #[trigger] band_start(
        h,
        n,
        j,
    ) by {
        lemma_bands_ordered(h, n, i, j);
    }
    assert forall|row: int| 0 <= row < height implies #[trigger] covered(h, n, row) by {
        let i = lemma_band_of_row(h, n, 0, row);
        assert(in_band(h, n, i, row));
    }
    assert forall|row: int, i: int, j: int|
        0 <= i < n && 0 <= j < n && #[trigger] in_band(h, n, i, row) && #[trigger] in_band(
            h,
            n,
            j,
            row,
        ) implies i == j by {
        if i < j {
            lemma_bands_ordered(h, n, i + 1, j);
        } else if j < i {
            lemma_bands_ordered(h, n, j + 1, i);
        }
    }
    if n <= h {
        assert forall|i: int| 0 <= i < n implies #[trigger] band_start(h, n, i) < band_start(h, n, i + 1) by {
            assert(h * (i + 1) == h * i + h) by {
                lemma_mul_is_distributive_add(h, i, 1);
            }
            assert(0 <= h * i) by (nonlinear_arith)
                requires
                    0 <= h,
                    0 <= i,
            ;
            lemma_div_is_ordered(n + h * i, h * i + h, n);
            lemma_div_plus_one(h * i, n);
        }
    }
}

/// Pixel `x` of row `y` in a row-major buffer `width` pixels wide lies in row
/// `y`'s stretch `[y * width, (y + 1) * width)`, and that stretch comes after
/// every earlier row's.
proof fn lemma_row_major(width: int, x: int, y: int, later: int)
    requires
        0 <= x < width,
        0 <= y < later,
    ensures
        0 <= y * width <= y * width + x < (y + 1) * width <= later * width,
{
    lemma_mul_is_distributive_add(width, y, 1);
    assert(y * width == width * y) by (nonlinear_arith);
    assert((y + 1) * width == width * (y + 1)) by (nonlinear_arith);
    assert(later * width == width * later) by (nonlinear_arith);
    lemma_mul_inequality(y + 1, later, width);
    assert(0 <= y * width) by (nonlinear_arith)
        requires
            0 <= y,
            0 <= width,
    ;
}

/// An image of 8-bit RGB pixels, stored row by row.
pub struct Frame {
    pub width: usize,
    pub height: usize,
    pub pixels: Vec<[u8; 3]>,
}

impl Frame {
    /// The buffer holds exactly `width * height` pixels.
    pub open spec fn well_formed(&self) -> bool {
        self.pixels.len() == self.width * self.height
    }

    /// The pixel in column `x` of row `y`.
    pub open spec fn at(&self, x: int, y: int) -> [u8; 3] {
        self.pixels@[y * self.width + x]
    }

    /// A black frame of `width` by `height` pixels.
    pub fn new(width: usize, height: usize) -> (r: Frame)
        requires
            width * height <= usize::MAX,
        ensures
            r.width == width,
            r.height == height,
            r.well_formed(),
            forall|k: int| 0 <= k < r.pixels.len() ==> #[trigger] r.pixels@[k] == [0u8, 0u8, 0u8],
    {
        let n = width * height;
        let mut pixels: Vec<[u8; 3]> = Vec::new();
        let mut k: usize = 0;
        while k < n
            invariant
                k <= n,
                pixels.len() == k,
                forall|j: int| 0 <= j < k ==> #[trigger] pixels@[j] == [0u8, 0u8, 0u8],
            decreases n - k,
        {
            pixels.push([0u8, 0u8, 0u8]);
            k = k + 1;
        }
        Frame { width, height, pixels }
    }

    /// The pixel in column `x` of row `y`.
    pub fn pixel(&self, x: usize, y: usize) -> (r: [u8; 3])
        requires
            self.well_formed(),
            x < self.width,
            y < self.height,
        ensures
            r == self.at(x as int, y as int),
    {
        proof {
            lemma_row_major(self.width as int, x as int, y as int, self.height as int);
        }
        self.pixels[y * self.width + x]
    }

    /// Copies `band`, rendered for the rows starting at `row_begin`, into
    /// those rows of this frame; every other row is kept.
    pub fn place_band(&mut self, row_begin: usize, band: &Frame)
        requires
            old(self).well_formed(),
            band.well_formed(),
            band.width == old(self).width,
            row_begin + band.height <= old(self).height,
        ensures
            final(self).width == old(self).width,
            final(self).height == old(self).height,
            final(self).well_formed(),
            forall|k: int|
                0 <= k < old(self).pixels.len() ==> #[trigger] final(self).pixels@[k] == if row_begin
                    * old(self).width <= k < (row_begin + band.height) * old(self).width {
                    band.pixels@[k - row_begin * old(self).width]
                } else {
                    old(self).pixels@[k]
                },
    {
        let w = self.width;
        proof {
            lemma_mul_is_distributive_add(w as int, row_begin as int, band.height as int);
            assert(row_begin * w == w * row_begin) by (nonlinear_arith);
            assert(band.height * w == w * band.height) by (nonlinear_arith);
            assert((row_begin + band.height) * w == w * (row_begin + band.height)) by (nonlinear_arith);
            lemma_mul_inequality((row_begin + band.height) as int, self.height as int, w as int);
            assert(self.height * w == w * self.height) by (nonlinear_arith);
        }
        let offset = row_begin * w;
        let n = band.pixels.len();
        let ghost before = self.pixels@;
        let mut k: usize = 0;
        while k < n
            invariant
                k <= n == band.pixels.len(),
                offset == row_begin * w,
                offset + n == (row_begin + band.height) * w,
                offset + n <= before.len(),
                self.width == w,
                self.height == old(self).height,
                before == old(self).pixels@,
                self.pixels.len() == before.len(),
                forall|j: int|
                    0 <= j < before.len() ==> #[trigger] self.pixels@[j] == if offset <= j < offset + k {
                        band.pixels@[j - offset]
                    } else {
                        before[j]
                    },
            decreases n - k,
        {
            let p = band.pixels[k];
            self.pixels[offset + k] = p;
            k = k + 1;
        }
    }
}

/// Renders rows `[row_begin, row_end)` of an image `width` pixels wide into a
/// band of its own: the pixel in column `x` of the band's row `y` is what
/// `shade` gives for column `x` of image row `row_begin + y`.
pub fn render_band<F: Fn(usize, usize) -> [u8; 3]>(
    width: usize,
    row_begin: usize,
    row_end: usize,
    shade: &F,
) -> (r: Frame)
    requires
        row_begin <= row_end,
        (row_end - row_begin) * width <= usize::MAX,
        forall|x: usize, y: usize| x < width && row_begin <= y < row_end ==> #[trigger] shade.requires((x, y)),
    ensures
        r.width == width,
        r.height == row_end - row_begin,
        r.well_formed(),
        forall|x: int, y: int|
            0 <= x < width && 0 <= y < row_end - row_begin ==> shade.ensures(
                (x as usize, (row_begin + y) as usize),
                #[trigger] r.at(x, y),
            ),
{
    let h = row_end - row_begin;
    let mut pixels: Vec<[u8; 3]> = Vec::new();
    let mut y: usize = 0;
    while y < h
        invariant
            y <= h == row_end - row_begin,
            h * width <= usize::MAX,
            row_begin <= row_end,
            forall|x: usize, y: usize| x < width && row_begin <= y < row_end ==> #[trigger] shade.requires((x, y)),
            pixels.len() == y * width,
            forall|xx: int, yy: int|
                0 <= xx < width && 0 <= yy < y ==> shade.ensures(
                    (xx as usize, (row_begin + yy) as usize),
                    #[trigger] pixels@[yy * width + xx],
                ),
        decreases h - y,
    {
        proof {
            lemma_mul_is_distributive_add(width as int, y as int, 1);
            assert(y * width == width * y) by (nonlinear_arith);
            assert((y + 1) * width == width * (y + 1)) by (nonlinear_arith);
            assert(h * width == width * h) by (nonlinear_arith);
            lemma_mul_inequality((y + 1) as int, h as int, width as int);
        }
        let mut x: usize = 0;
        while x < width
            invariant
                y < h == row_end - row_begin,
                (y + 1) * width <= h * width <= usize::MAX,
                row_begin <= row_end,
                forall|x: usize, y: usize| x < width && row_begin <= y < row_end ==> #[trigger] shade.requires((x, y)),
                x <= width,
                pixels.len() == y * width + x,
                y * width + width == (y + 1) * width,
                forall|xx: int, yy: int|
                    0 <= xx < width && 0 <= yy < y ==> shade.ensures(
                        (xx as usize, (row_begin + yy) as usize),
                        #[trigger] pixels@[yy * width + xx],
                    ),
                forall|xx: int|
                    0 <= xx < x ==> shade.ensures(
                        (xx as usize, (row_begin + y) as usize),
                        #[trigger] pixels@[y * width + xx],
                    ),
            decreases width - x,
        {
            let p = shade(x, row_begin + y);
            let ghost prev = pixels@;
            pixels.push(p);
            proof {
                assert forall|xx: int, yy: int|
                    0 <= xx < width && 0 <= yy < y implies shade.ensures(
                    (xx as usize, (row_begin + yy) as usize),
                    #[trigger] pixels@[yy * width + xx],
                ) by {
                    lemma_row_major(width as int, xx, yy, y as int);
                    assert(pixels@[yy * width + xx] == prev[yy * width + xx]);
                }
            }
            x = x + 1;
        }
        y = y + 1;
    }
    assert(h * width == width * h) by (nonlinear_arith);
    Frame { width, height: h, pixels }
}

/// Band `j` of `bands`, placed at its first row, covers buffer index `k` of a
/// frame `width` pixels wide.
pub open spec fn band_covers(bands: Seq<(usize, Frame)>, width: int, j: int, k: int) -> bool {
    bands[j].0 * width <= k < (bands[j].0 + bands[j].1.height) * width
}

/// Some band of `bands` covers buffer index `k`.
pub open spec fn index_covered(bands: Seq<(usize, Frame)>, width: int, k: int) -> bool {
    exists|j: int| 0 <= j < bands.len() && #[trigger] band_covers(bands, width, j, k)
}

/// No two of `bands` share a row.
pub open spec fn rows_disjoint(bands: Seq<(usize, Frame)>) -> bool {
    forall|i: int, j: int|
        0 <= i < bands.len() && 0 <= j < bands.len() && i != j ==> #[trigger] bands[i].0 + bands[i].1.height
            <= bands[j].0 || #[trigger] bands[j].0 + bands[j].1.height <= bands[i].0
}

/// Puts rendered bands together into one frame of `width` by `height`
/// pixels. Each band comes with its first row; the bands may come in any
/// order. Every pixel of a band's rows is that band's pixel; rows that no
/// band covers stay black.
pub fn assemble(width: usize, height: usize, bands: &Vec<(usize, Frame)>) -> (r: Frame)
    requires
        width * height <= usize::MAX,
        rows_disjoint(bands@),
        forall|j: int|
            0 <= j < bands.len() ==> (#[trigger] bands[j]).1.well_formed() && bands[j].1.width == width
                && bands[j].0 + bands[j].1.height <= height,
    ensures
        r.width == width,
        r.height == height,
        r.well_formed(),
        forall|k: int, j: int|
            0 <= k < r.pixels.len() && 0 <= j < bands.len() && #[trigger] band_covers(bands@, width as int, j, k)
                ==> #[trigger] r.pixels@[k] == bands[j].1.pixels@[k - bands[j].0 * width],
        forall|k: int|
            0 <= k < r.pixels.len() && !index_covered(bands@, width as int, k) ==> #[trigger] r.pixels@[k] == [
                0u8,
                0u8,
                0u8,
            ],
{
    let mut frame = Frame::new(width, height);
    let mut i: usize = 0;
    while i < bands.len()
        invariant
            i <= bands.len(),
            frame.width == width,
            frame.height == height,
            frame.well_formed(),
            rows_disjoint(bands@),
            forall|j: int|
                0 <= j < bands.len() ==> (#[trigger] bands[j]).1.well_formed() && bands[j].1.width == width
                    && bands[j].0 + bands[j].1.height <= height,
            forall|k: int, j: int|
                0 <= k < frame.pixels.len() && 0 <= j < i && #[trigger] band_covers(bands@, width as int, j, k)
                    ==> #[trigger] frame.pixels@[k] == bands[j].1.pixels@[k - bands[j].0 * width],
            forall|k: int|
                0 <= k < frame.pixels.len() && (forall|j: int| 0 <= j < i ==> !#[trigger] band_covers(bands@, width as int, j, k))
                    ==> #[trigger] frame.pixels@[k] == [0u8, 0u8, 0u8],
        decreases bands.len() - i,
    {
        let ghost before = frame.pixels@;
        let begin = bands[i].0;
        frame.place_band(begin, &bands[i].1);
        proof {
            let w = width as int;
            assert forall|k: int, j: int|
                0 <= k < frame.pixels.len() && 0 <= j < i + 1 && #[trigger] band_covers(bands@, w, j, k)
                    implies #[trigger] frame.pixels@[k] == bands[j].1.pixels@[k - bands[j].0 * width] by {
                if j < i {
                    lemma_apart(bands@, w, i as int, j, k);
                }
            }
            assert forall|k: int|
                0 <= k < frame.pixels.len() && (forall|j: int| 0 <= j < i + 1 ==> !#[trigger] band_covers(bands@, w, j, k))
                    implies #[trigger] frame.pixels@[k] == [0u8, 0u8, 0u8] by {
                assert(!band_covers(bands@, w, i as int, k));
            }
        }
        i = i + 1;
    }
    frame
}

/// Two bands that share no row share no buffer index either.
proof fn lemma_apart(bands: Seq<(usize, Frame)>, width: int, i: int, j: int, k: int)
    requires
        0 <= width,
        0 <= i < bands.len(),
        0 <= j < bands.len(),
        i != j,
        rows_disjoint(bands),
        band_covers(bands, width, j, k),
    ensures
        !band_covers(bands, width, i, k),
{
    let (bi, hi) = (bands[i].0 as int, bands[i].1.height as int);
    let (bj, hj) = (bands[j].0 as int, bands[j].1.height as int);
    if bi + hi <= bj {
        lemma_mul_inequality(bi + hi, bj, width);
    } else {
        assert(bj + hj <= bi);
        lemma_mul_inequality(bj + hj, bi, width);
    }
}

/// Bands cut along the row ranges of `row_ranges`, each placed at its first
/// row, share no row, and together cover every pixel of a frame `width` by
/// `height`: putting them together with `assemble` fills the whole frame.
pub proof fn lemma_bands_assemble(width: nat, height: nat, bands: Seq<(usize, Frame)>)
    requires
        0 < bands.len(),
        forall|j: int|
            0 <= j < bands.len() ==> (#[trigger] bands[j]).0 == band_start(height as int, bands.len() as int, j)
                && bands[j].0 + bands[j].1.height == band_start(height as int, bands.len() as int, j + 1),
    ensures
        rows_disjoint(bands),
        forall|k: int| 0 <= k < width * height ==> #[trigger] index_covered(bands, width as int, k),
{
    let n = bands.len() as int;
    let h = height as int;
    let w = width as int;
    lemma_bands_tile(height, bands.len());
    assert forall|i: int, j: int|
        0 <= i < n && 0 <= j < n && i != j implies #[trigger] bands[i].0 + bands[i].1.height <= bands[j].0
            || #[trigger] bands[j].0 + bands[j].1.height <= bands[i].0 by {
        if i < j {
            lemma_bands_ordered(h, n, i + 1, j);
        } else {
            lemma_bands_ordered(h, n, j + 1, i);
        }
    }
    assert forall|k: int| 0 <= k < width * height implies #[trigger] index_covered(bands, w, k) by {
        vstd::arithmetic::div_mod::lemma_fundamental_div_mod(k, w);
        let row = k / w;
        let col = k % w;
        assert(row < h) by {
            if row >= h {
                lemma_mul_inequality(h, row, w);
                assert(h * w == w * h) by (nonlinear_arith);
                assert(row * w == w * row) by (nonlinear_arith);
            }
        }
        assert(0 <= row) by {
            vstd::arithmetic::div_mod::lemma_div_pos_is_pos(k, w);
        }
        assert(covered(h, n, row));
        let j = choose|j: int| 0 <= j < n && #[trigger] in_band(h, n, j, row);
        lemma_row_major(w, col, row, band_start(h, n, j + 1));
        lemma_mul_inequality(band_start(h, n, j), row, w);
        assert(row * w == w * row) by (nonlinear_arith);
        assert(band_covers(bands, w, j, k));
    }
}

} // verus!
