//! Row-major grids with periodic wrapping.
//!
//! The grids are generic over the cell type so that the indexing and
//! wrapping logic is checked independently of the number format the
//! simulation stores in them.

use vstd::prelude::*;
use crate::grid::{flat, lemma_flat_in_grid};

verus! {

/// Remainder of `x / d` rounded toward zero, as Rust's `%` computes it on
/// signed integers.
pub open spec fn trunc_rem(x: int, d: int) -> int {
    if x >= 0 {
        x % d
    } else {
        -((-x) % d)
    }
}

/// Wrap an integer index into `[0, n)` with the arithmetic of
/// `((x % n + n) % n)`; the result is `x` modulo `n`.
fn wrap_index(x: i64, n: usize) -> (r: usize)
    requires
        0 < n <= i64::MAX,
        trunc_rem(x as int, n as int) + n <= i64::MAX,
    ensures
        r as int == (x as int) % (n as int),
        r < n,
{
    let w = n as i64;
    let a = x % w;
    proof {
        assert(-(w as int) < a < w) by {
            if x < 0 {
                assert(0 <= (-(x as int)) % (w as int) < w);
            }
        }
    }
    let b = a + w;
    let r = b % w;
    proof {
        assert(0 < b);
        assert(r as int == (b as int) % (w as int));
        assert((b as int) % (w as int) == (x as int) % (w as int)) by {
            if x >= 0 {
                assert((a as int) == (x as int) % (w as int));
                vstd::arithmetic::div_mod::lemma_mod_add_multiples_vanish(a as int, w as int);
                vstd::arithmetic::div_mod::lemma_small_mod(a as nat, w as nat);
            } else {
                let y = -(x as int);
                assert(a as int == -(y % (w as int)));
                vstd::arithmetic::div_mod::lemma_fundamental_div_mod(y, w as int);
                let q = y / (w as int);
                assert(y == (w as int) * q + y % (w as int));
                assert((b as int) == (x as int) + (w as int) * q + (w as int)) by (nonlinear_arith)
                    requires
                        b as int == a as int + w as int,
                        a as int == -(y % (w as int)),
                        y == (w as int) * q + y % (w as int),
                        x as int == -y,
                ;
                assert((b as int) == (x as int) + (w as int) * (q + 1)) by (nonlinear_arith)
                    requires
                        (b as int) == (x as int) + (w as int) * q + (w as int),
                ;
                vstd::arithmetic::div_mod::lemma_mod_multiples_vanish(q + 1, x as int, w as int);
            }
        }
    }
    r as usize
}

/// A 2-D grid stored in row-major order.
#[derive(Clone)]
pub struct Heightmap<T> {
    pub data: Vec<T>,
    pub width: usize,
    pub height: usize,
}

impl<T: Copy> Heightmap<T> {
    /// A `width` by `height` grid with every cell set to `fill`.
    pub fn new(width: usize, height: usize, fill: T) -> (hm: Self)
        requires
            width * height <= usize::MAX,
        ensures
            hm.width == width,
            hm.height == height,
            hm.data@.len() == width * height,
            forall|i: int| 0 <= i < width * height ==> #[trigger] hm.data@[i] == fill,
    {
        let n = width * height;
        let mut data: Vec<T> = Vec::new();
        let mut k: usize = 0;
        while k < n
            invariant
                k <= n,
                data@.len() == k,
                forall|i: int| 0 <= i < k ==> #[trigger] data@[i] == fill,
            decreases n - k,
        {
            data.push(fill);
            k = k + 1;
        }
        Self { data, width, height }
    }

    /// The cell at column `x` of row `y`.
    pub fn get(&self, x: usize, y: usize) -> (v: T)
        requires
            y * self.width + x < self.data.len(),
        ensures
            v == self.data@[y * self.width + x],
    {
        self.data[y * self.width + x]
    }

    /// The `cols` by `rows` window whose top-left cell is `(pad, pad)`:
    /// the grid without a border of `pad` cells on its top and left sides
    /// (and whatever lies beyond the window on the other two).
    pub fn crop(&self, pad: usize, cols: usize, rows: usize) -> (out: Self)
        requires
            self.data@.len() == self.width * self.height,
            pad + cols <= self.width,
            pad + rows <= self.height,
        ensures
            out.width == cols,
            out.height == rows,
            out.data@.len() == cols * rows,
            forall|r: int, c: int|
                0 <= r < rows && 0 <= c < cols ==> #[trigger] out.data@[flat(c, r, cols as int)]
                    == self.data@[flat(c + pad, r + pad, self.width as int)],
    {
        let ghost w = self.width as int;
        let ghost h = self.height as int;
        proof {
            assert(cols * rows <= w * h) by (nonlinear_arith)
                requires
                    cols <= w,
                    rows <= h,
            ;
        }
        let total = self.data.len();
        let mut data: Vec<T> = Vec::new();
        let mut r: usize = 0;
        while r < rows
            invariant
                r <= rows,
                total == w * h,
                w == self.width,
                h == self.height,
                self.data@.len() == w * h,
                pad + cols <= w,
                pad + rows <= h,
                cols * rows <= w * h,
                data@.len() == r * cols,
                forall|rr: int, cc: int|
                    0 <= rr < r && 0 <= cc < cols ==> #[trigger] data@[flat(cc, rr, cols as int)]
                        == self.data@[flat(cc + pad, rr + pad, w)],
            decreases rows - r,
        {
            let mut c: usize = 0;
            while c < cols
                invariant
                    c <= cols,
                    r < rows,
                    total == w * h,
                    w == self.width,
                    h == self.height,
                    self.data@.len() == w * h,
                    pad + cols <= w,
                    pad + rows <= h,
                    cols * rows <= w * h,
                    data@.len() == r * cols + c,
                    forall|rr: int, cc: int|
                        0 <= rr < r && 0 <= cc < cols ==> #[trigger] data@[flat(cc, rr, cols as int)]
                            == self.data@[flat(cc + pad, rr + pad, w)],
                    forall|cc: int|
                        0 <= cc < c ==> #[trigger] data@[flat(cc, r as int, cols as int)]
                            == self.data@[flat(cc + pad, r + pad, w)],
                decreases cols - c,
            {
                proof {
                    lemma_flat_in_grid((c + pad) as int, (r + pad) as int, w, h);
                    lemma_flat_in_grid(c as int, r as int, cols as int, rows as int);
                }
                let v = self.data[(r + pad) * self.width + (c + pad)];
                let ghost before = data@;
                data.push(v);
                proof {
                    assert forall|rr: int, cc: int|
                        0 <= rr < r && 0 <= cc < cols implies #[trigger] data@[flat(
                        cc,
                        rr,
                        cols as int,
                    )] == self.data@[flat(cc + pad, rr + pad, w)] by {
                        assert(rr * cols + cc < r * cols) by (nonlinear_arith)
                            requires
                                0 <= rr < r,
                                0 <= cc < cols,
                        ;
                        assert(data@[flat(cc, rr, cols as int)] == before[flat(cc, rr, cols as int)]);
                    }
                    assert forall|cc: int|
                        0 <= cc < c + 1 implies #[trigger] data@[flat(cc, r as int, cols as int)]
                        == self.data@[flat(cc + pad, r + pad, w)] by {
                        if cc < c {
                            assert(data@[flat(cc, r as int, cols as int)] == before[flat(
                                cc,
                                r as int,
                                cols as int,
                            )]);
                        }
                    }
                }
                c = c + 1;
            }
            proof {
                assert((r + 1) * cols == r * cols + cols) by (nonlinear_arith);
            }
            r = r + 1;
        }
        proof {
            assert(r * cols == cols * rows) by (nonlinear_arith)
                requires
                    r == rows,
            ;
        }
        Self { data, width: cols, height: rows }
    }
}

impl<T> Heightmap<T> {
    /// Wrap an integer column index into `[0, width)`.
    pub fn wrap_x(&self, x: i64) -> (c: usize)
        requires
            0 < self.width <= i64::MAX,
            trunc_rem(x as int, self.width as int) + self.width <= i64::MAX,
        ensures
            c as int == (x as int) % (self.width as int),
            c < self.width,
    {
        wrap_index(x, self.width)
    }

    /// Wrap an integer row index into `[0, height)`.
    pub fn wrap_y(&self, y: i64) -> (r: usize)
        requires
            0 < self.height <= i64::MAX,
            trunc_rem(y as int, self.height as int) + self.height <= i64::MAX,
        ensures
            r as int == (y as int) % (self.height as int),
            r < self.height,
    {
        wrap_index(y, self.height)
    }
}

/// Gradient of a heightmap: `real` holds the column differences and `imag`
/// the row differences.
#[derive(Clone)]
pub struct Gradient<T> {
    pub real: Vec<T>,
    pub imag: Vec<T>,
    pub width: usize,
    pub height: usize,
}

impl<T: Copy + Default> Gradient<T> {
    /// A zeroed `width` by `height` gradient: every component is the value
    /// that `T::default()` gave.
    pub fn new(width: usize, height: usize) -> (g: Self)
        requires
            width * height <= usize::MAX,
        ensures
            g.width == width,
            g.height == height,
            g.real@.len() == width * height,
            g.imag@.len() == width * height,
            width * height > 0 ==> call_ensures(T::default, (), g.real@[0]),
            forall|i: int| 0 <= i < width * height ==> #[trigger] g.real@[i] == g.real@[0],
            forall|i: int| 0 <= i < width * height ==> #[trigger] g.imag@[i] == g.real@[0],
    {
        let n = width * height;
        let zero = T::default();
        let mut re: Vec<T> = Vec::new();
        let mut im: Vec<T> = Vec::new();
        let mut k: usize = 0;
        while k < n
            invariant
                k <= n,
                re@.len() == k,
                im@.len() == k,
                forall|i: int| 0 <= i < k ==> #[trigger] re@[i] == zero,
                forall|i: int| 0 <= i < k ==> #[trigger] im@[i] == zero,
            decreases n - k,
        {
            re.push(zero);
            im.push(zero);
            k = k + 1;
        }
        Self { real: re, imag: im, width, height }
    }
}

} // verus!
