//! Index bookkeeping of a 2D convolution computed as an im2col matrix
//! product: gathering every receptive field into a row of a matrix,
//! scattering that matrix's gradient back, and moving between the
//! `[B*OH*OW, OC]` product layout and the `[B, OC, OH, OW]` image layout.

use vstd::prelude::*;

use crate::layout::{
    flat_index, in_bounds, lemma_div_mod, lemma_div_mod_unique, lemma_flat_index_2d,
    lemma_matrix_shape, lemma_offset_row_major, lemma_quotient_bound, numel, numel_of, offset_of,
    row_major_strides_of, shape_fits, unflat_index, unflat_index_of,
};
use crate::tensor::{is_scatter_trace, repeated, scatter_accumulate, Tensor};

verus! {

/// The geometry of a convolution without padding: an input batch of shape
/// `[batch, channels, height, width]`, a `kernel_h` by `kernel_w` kernel,
/// and the same stride on both spatial axes.
#[derive(Clone, Copy, Debug, PartialEq, Eq, Structural)]
pub struct ConvGeometry {
    pub batch: usize,
    pub channels: usize,
    pub height: usize,
    pub width: usize,
    pub kernel_h: usize,
    pub kernel_w: usize,
    pub stride: usize,
}

impl ConvGeometry {
    /// Output height, `(H - KH) / stride + 1`.
    pub open spec fn out_h(self) -> nat {
        ((self.height - self.kernel_h) as nat / self.stride as nat + 1) as nat
    }

    /// Output width, `(W - KW) / stride + 1`.
    pub open spec fn out_w(self) -> nat {
        ((self.width - self.kernel_w) as nat / self.stride as nat + 1) as nat
    }

    /// Rows of the im2col matrix: one per output position, `B * OH * OW`.
    pub open spec fn rows(self) -> nat {
        (self.batch as nat) * self.out_h() * self.out_w()
    }

    /// Columns of the im2col matrix: one per kernel tap, `C * KH * KW`.
    pub open spec fn patch_len(self) -> nat {
        (self.channels as nat) * (self.kernel_h as nat) * (self.kernel_w as nat)
    }

    /// The input shape `[B, C, H, W]`.
    pub open spec fn input_shape(self) -> Seq<usize> {
        seq![self.batch, self.channels, self.height, self.width]
    }

    /// The kernel fits the input, the stride is positive and every count
    /// involved fits in a `usize`.
    pub open spec fn valid(self) -> bool {
        &&& self.stride > 0
        &&& self.kernel_h <= self.height
        &&& self.kernel_w <= self.width
        &&& self.out_h() <= usize::MAX
        &&& self.out_w() <= usize::MAX
        &&& self.rows() * self.patch_len() <= usize::MAX
        &&& self.rows() <= usize::MAX
        &&& (self.channels as nat) * (self.kernel_h as nat) <= usize::MAX
        &&& self.patch_len() <= usize::MAX
        &&& shape_fits(self.input_shape())
    }

    /// The im2col row of output position `(bi, oi, oj)`.
    pub open spec fn patch_row(self, bi: nat, oi: nat, oj: nat) -> nat {
        (bi * self.out_h() + oi) * self.out_w() + oj
    }

    /// The im2col column of kernel tap `(ci, ki, kj)`.
    pub open spec fn patch_col(self, ci: nat, ki: nat, kj: nat) -> nat {
        (ci * (self.kernel_h as nat) + ki) * (self.kernel_w as nat) + kj
    }

    /// Row-major position in the im2col matrix of output position
    /// `(bi, oi, oj)` and kernel tap `(ci, ki, kj)`.
    pub open spec fn patch_pos(self, bi: nat, oi: nat, oj: nat, ci: nat, ki: nat, kj: nat) -> nat {
        self.patch_row(bi, oi, oj) * self.patch_len() + self.patch_col(ci, ki, kj)
    }

    /// The input element that kernel tap `(ci, ki, kj)` reads at output
    /// position `(bi, oi, oj)`: `[bi, ci, oi * stride + ki, oj * stride + kj]`.
    pub open spec fn input_index(self, bi: nat, oi: nat, oj: nat, ci: nat, ki: nat, kj: nat) -> Seq<
        usize,
    > {
        seq![
            bi as usize,
            ci as usize,
            (oi * (self.stride as nat) + ki) as usize,
            (oj * (self.stride as nat) + kj) as usize,
        ]
    }

    /// Output position and kernel tap in range.
    pub open spec fn in_range(self, bi: nat, oi: nat, oj: nat, ci: nat, ki: nat, kj: nat) -> bool {
        &&& bi < self.batch
        &&& oi < self.out_h()
        &&& oj < self.out_w()
        &&& ci < self.channels
        &&& ki < self.kernel_h
        &&& kj < self.kernel_w
    }

    /// The output position and kernel tap of im2col position `p`.
    pub open spec fn decode(self, p: nat) -> (nat, nat, nat, nat, nat, nat) {
        let k = self.patch_len();
        let row = p / k;
        let col = p % k;
        let bo = row / self.out_w();
        let cik = col / (self.kernel_w as nat);
        (
            bo / self.out_h(),
            bo % self.out_h(),
            row % self.out_w(),
            cik / (self.kernel_h as nat),
            cik % (self.kernel_h as nat),
            col % (self.kernel_w as nat),
        )
    }

    /// Decoding a position in range inverts `patch_pos`.
    pub proof fn lemma_decode(self, p: nat)
        requires
            self.valid(),
            p < self.rows() * self.patch_len(),
        ensures
            ({
                let (bi, oi, oj, ci, ki, kj) = self.decode(p);
                &&& self.in_range(bi, oi, oj, ci, ki, kj)
                &&& self.patch_pos(bi, oi, oj, ci, ki, kj) == p
            }),
    {
        let k = self.patch_len();
        let oh = self.out_h();
        let ow = self.out_w();
        let kh = self.kernel_h as nat;
        let kw = self.kernel_w as nat;
        assert(k > 0 && self.rows() > 0) by (nonlinear_arith)
            requires p < self.rows() * k, p >= 0, self.rows() >= 0, k >= 0;
        assert(kh > 0 && kw > 0 && self.channels > 0) by (nonlinear_arith)
            requires k == (self.channels as nat) * kh * kw, k > 0;
        let row = p / k;
        let col = p % k;
        lemma_div_mod(p as int, k as int);
        lemma_quotient_bound(p as int, k as int, self.rows() as int);
        let bo = row / ow;
        lemma_div_mod(row as int, ow as int);
        assert(self.rows() == ((self.batch as nat) * oh) * ow);
        lemma_quotient_bound(row as int, ow as int, ((self.batch as nat) * oh) as int);
        lemma_div_mod(bo as int, oh as int);
        lemma_quotient_bound(bo as int, oh as int, self.batch as int);
        let cik = col / kw;
        lemma_div_mod(col as int, kw as int);
        assert(k == ((self.channels as nat) * kh) * kw) by (nonlinear_arith)
            requires k == (self.channels as nat) * kh * kw;
        lemma_quotient_bound(col as int, kw as int, ((self.channels as nat) * kh) as int);
        lemma_div_mod(cik as int, kh as int);
        lemma_quotient_bound(cik as int, kh as int, self.channels as int);
        let (bi, oi, oj, ci, ki, kj) = self.decode(p);
        assert(self.patch_row(bi, oi, oj) == row) by (nonlinear_arith)
            requires
                bo == oh * bi + oi,
                row == ow * bo + oj,
                self.patch_row(bi, oi, oj) == (bi * oh + oi) * ow + oj;
        assert(self.patch_col(ci, ki, kj) == col) by (nonlinear_arith)
            requires
                cik == kh * ci + ki,
                col == kw * cik + kj,
                self.patch_col(ci, ki, kj) == (ci * kh + ki) * kw + kj;
        assert(row * k == k * row) by (nonlinear_arith);
    }

    /// `patch_pos` of an output position and kernel tap in range is a
    /// position of the im2col matrix, and decodes back to them.
    pub proof fn lemma_encode(self, bi: nat, oi: nat, oj: nat, ci: nat, ki: nat, kj: nat)
        requires
            self.valid(),
            self.in_range(bi, oi, oj, ci, ki, kj),
        ensures
            self.patch_pos(bi, oi, oj, ci, ki, kj) < self.rows() * self.patch_len(),
            self.patch_row(bi, oi, oj) < self.rows(),
            self.patch_col(ci, ki, kj) < self.patch_len(),
            self.decode(self.patch_pos(bi, oi, oj, ci, ki, kj)) == (bi, oi, oj, ci, ki, kj),
    {
        let k = self.patch_len();
        let oh = self.out_h();
        let ow = self.out_w();
        let kh = self.kernel_h as nat;
        let kw = self.kernel_w as nat;
        let bo = bi * oh + oi;
        let row = self.patch_row(bi, oi, oj);
        let cik = ci * kh + ki;
        let col = self.patch_col(ci, ki, kj);
        let p = self.patch_pos(bi, oi, oj, ci, ki, kj);
        assert(bo < (self.batch as nat) * oh) by (nonlinear_arith)
            requires bo == bi * oh + oi, bi < self.batch, oi < oh;
        assert(row < self.rows()) by (nonlinear_arith)
            requires
                row == bo * ow + oj,
                bo < (self.batch as nat) * oh,
                oj < ow,
                self.rows() == (self.batch as nat) * oh * ow;
        assert(cik < (self.channels as nat) * kh) by (nonlinear_arith)
            requires cik == ci * kh + ki, ci < self.channels, ki < kh;
        assert(col < k) by (nonlinear_arith)
            requires col == cik * kw + kj, cik < (self.channels as nat) * kh, kj < kw,
                k == (self.channels as nat) * kh * kw;
        assert(p < self.rows() * k) by (nonlinear_arith)
            requires p == row * k + col, row < self.rows(), col < k;
        lemma_div_mod_unique(p as int, k as int, row as int, col as int);
        lemma_div_mod_unique(row as int, ow as int, bo as int, oj as int);
        lemma_div_mod_unique(bo as int, oh as int, bi as int, oi as int);
        lemma_div_mod_unique(col as int, kw as int, cik as int, kj as int);
        lemma_div_mod_unique(cik as int, kh as int, ci as int, ki as int);
    }

    /// The image shape `[B, OC, OH, OW]` of a convolution output with
    /// `out_channels` channels.
    pub open spec fn image_shape(self, out_channels: usize) -> Seq<usize> {
        seq![self.batch, out_channels, self.out_h() as usize, self.out_w() as usize]
    }

    /// The geometry read from an input shape `[B, C, H, W]`, a kernel size
    /// and a stride.
    pub open spec fn spec_from(input_shape: Seq<usize>, kernel_size: (usize, usize), stride: usize) -> Self {
        ConvGeometry {
            batch: input_shape[0],
            channels: input_shape[1],
            height: input_shape[2],
            width: input_shape[3],
            kernel_h: kernel_size.0,
            kernel_w: kernel_size.1,
            stride,
        }
    }

    /// An output position in range has an im2col row, and decoding that
    /// row gives the position back.
    pub proof fn lemma_row_encode(self, bi: nat, oi: nat, oj: nat)
        requires
            self.valid(),
            bi < self.batch,
            oi < self.out_h(),
            oj < self.out_w(),
        ensures
            self.patch_row(bi, oi, oj) < self.rows(),
            (self.patch_row(bi, oi, oj) / self.out_w()) / self.out_h() == bi,
            (self.patch_row(bi, oi, oj) / self.out_w()) % self.out_h() == oi,
            self.patch_row(bi, oi, oj) % self.out_w() == oj,
    {
        let oh = self.out_h();
        let ow = self.out_w();
        let bo = bi * oh + oi;
        let row = self.patch_row(bi, oi, oj);
        assert(bo < (self.batch as nat) * oh) by (nonlinear_arith)
            requires bo == bi * oh + oi, bi < self.batch, oi < oh;
        assert(row < self.rows()) by (nonlinear_arith)
            requires
                row == bo * ow + oj,
                bo < (self.batch as nat) * oh,
                oj < ow,
                self.rows() == (self.batch as nat) * oh * ow;
        lemma_div_mod_unique(row as int, ow as int, bo as int, oj as int);
        lemma_div_mod_unique(bo as int, oh as int, bi as int, oi as int);
    }

    /// Every im2col row is the row of an output position in range.
    pub proof fn lemma_row_decode(self, row: nat)
        requires
            self.valid(),
            row < self.rows(),
        ensures
            (row / self.out_w()) / self.out_h() < self.batch,
            (row / self.out_w()) % self.out_h() < self.out_h(),
            row % self.out_w() < self.out_w(),
            self.patch_row((row / self.out_w()) / self.out_h(), (row / self.out_w()) % self.out_h(), row
                % self.out_w()) == row,
    {
        let oh = self.out_h();
        let ow = self.out_w();
        let bo = row / ow;
        lemma_div_mod(row as int, ow as int);
        assert(self.rows() == ((self.batch as nat) * oh) * ow);
        lemma_quotient_bound(row as int, ow as int, ((self.batch as nat) * oh) as int);
        lemma_div_mod(bo as int, oh as int);
        lemma_quotient_bound(bo as int, oh as int, self.batch as int);
        let bi = bo / oh;
        let oi = bo % oh;
        let oj = row % ow;
        assert(self.patch_row(bi, oi, oj) == row) by (nonlinear_arith)
            requires
                bo == oh * bi + oi,
                row == ow * bo + oj,
                self.patch_row(bi, oi, oj) == (bi * oh + oi) * ow + oj;
    }

    /// The input element read by an output position and kernel tap in
    /// range lies inside the input.
    pub proof fn lemma_input_index_in_bounds(self, bi: nat, oi: nat, oj: nat, ci: nat, ki: nat, kj: nat)
        requires
            self.valid(),
            self.in_range(bi, oi, oj, ci, ki, kj),
        ensures
            in_bounds(self.input_index(bi, oi, oj, ci, ki, kj), self.input_shape()),
            oi * (self.stride as nat) + ki < self.height,
            oj * (self.stride as nat) + kj < self.width,
    {
        let s = self.stride as nat;
        let dh = (self.height - self.kernel_h) as nat;
        let dw = (self.width - self.kernel_w) as nat;
        lemma_div_mod(dh as int, s as int);
        lemma_div_mod(dw as int, s as int);
        assert(oi * s + ki < self.height) by (nonlinear_arith)
            requires
                oi < dh / s + 1,
                dh == s * (dh / s) + dh % s,
                dh % s >= 0,
                ki < self.kernel_h,
                dh == self.height - self.kernel_h,
                s > 0;
        assert(oj * s + kj < self.width) by (nonlinear_arith)
            requires
                oj < dw / s + 1,
                dw == s * (dw / s) + dw % s,
                dw % s >= 0,
                kj < self.kernel_w,
                dw == self.width - self.kernel_w,
                s > 0;
    }
}

impl ConvGeometry {
    /// The geometry of a convolution of an input of shape `input_shape`
    /// by a kernel of size `kernel_size` with stride `stride`, or `None`
    /// when it has none: the input is not `[B, C, H, W]`, the kernel is
    /// larger than the input, the stride is zero, or a count overflows.
    pub fn new(input_shape: &[usize], kernel_size: (usize, usize), stride: usize) -> (g: Option<Self>)
        requires
            shape_fits(input_shape@),
        ensures
            g is Some <==> input_shape@.len() == 4 && Self::spec_from(input_shape@, kernel_size, stride).valid(),
            g matches Some(geom) ==> geom == Self::spec_from(input_shape@, kernel_size, stride),
    {
        if input_shape.len() != 4 {
            return None;
        }
        let (kh, kw) = kernel_size;
        let geom = ConvGeometry {
            batch: input_shape[0],
            channels: input_shape[1],
            height: input_shape[2],
            width: input_shape[3],
            kernel_h: kh,
            kernel_w: kw,
            stride,
        };
        proof {
            assert(geom.input_shape() =~= input_shape@);
        }
        if stride == 0 || kh > geom.height || kw > geom.width {
            return None;
        }
        let dh = (geom.height - kh) / stride;
        let dw = (geom.width - kw) / stride;
        if dh == usize::MAX || dw == usize::MAX {
            return None;
        }
        let oh = dh + 1;
        let ow = dw + 1;
        let bo = match geom.batch.checked_mul(oh) {
            Some(x) => x,
            None => {
                proof {
                    assert(geom.rows() > usize::MAX) by (nonlinear_arith)
                        requires geom.rows() == (geom.batch as nat) * (oh as nat) * (ow as nat),
                            (geom.batch as nat) * (oh as nat) > usize::MAX, ow >= 1;
                }
                return None;
            },
        };
        let rows = match bo.checked_mul(ow) {
            Some(x) => x,
            None => return None,
        };
        let ck = match geom.channels.checked_mul(kh) {
            Some(x) => x,
            None => return None,
        };
        let k = match ck.checked_mul(kw) {
            Some(x) => x,
            None => return None,
        };
        match rows.checked_mul(k) {
            Some(_) => Some(geom),
            None => None,
        }
    }

    /// Output height, `(H - KH) / stride + 1`.
    pub fn output_height(&self) -> (n: usize)
        requires
            self.valid(),
        ensures
            n == self.out_h(),
    {
        proof {
            self.lemma_out_dims_fit();
        }
        (self.height - self.kernel_h) / self.stride + 1
    }

    /// Output width, `(W - KW) / stride + 1`.
    pub fn output_width(&self) -> (n: usize)
        requires
            self.valid(),
        ensures
            n == self.out_w(),
    {
        proof {
            self.lemma_out_dims_fit();
        }
        (self.width - self.kernel_w) / self.stride + 1
    }

    proof fn lemma_out_dims_fit(self)
        requires
            self.valid(),
        ensures
            self.out_h() <= self.height + 1,
            self.out_w() <= self.width + 1,
            self.out_h() >= 1,
            self.out_w() >= 1,
            (self.batch as nat) * self.out_h() <= self.rows() || self.batch == 0,
    {
        let s = self.stride as nat;
        let dh = (self.height - self.kernel_h) as nat;
        let dw = (self.width - self.kernel_w) as nat;
        lemma_div_mod(dh as int, s as int);
        lemma_div_mod(dw as int, s as int);
        assert(dh / s <= dh) by (nonlinear_arith)
            requires dh == s * (dh / s) + dh % s, dh % s >= 0, s >= 1, dh / s >= 0;
        assert(dw / s <= dw) by (nonlinear_arith)
            requires dw == s * (dw / s) + dw % s, dw % s >= 0, s >= 1, dw / s >= 0;
        let bh = (self.batch as nat) * self.out_h();
        assert(bh <= bh * self.out_w()) by (nonlinear_arith)
            requires self.out_w() >= 1;
    }

    /// For every im2col position, the row-major position in the input of
    /// the element it gathers: `[bi, ci, oi * stride + ki, oj * stride + kj]`
    /// at the row of output position `(bi, oi, oj)` and the column of
    /// kernel tap `(ci, ki, kj)`. Gathering through it builds the im2col
    /// matrix; scattering through it, in order, accumulates that matrix's
    /// gradient back into the input's.
    pub fn im2col_sources(&self) -> (src: Vec<usize>)
        requires
            self.valid(),
        ensures
            self.are_im2col_sources(src@),
    {
        let oh = self.output_height();
        let ow = self.output_width();
        proof {
            self.lemma_out_dims_fit();
        }
        let rows = self.batch * oh * ow;
        let k = self.channels * self.kernel_h * self.kernel_w;
        let total = rows * k;
        let in_shape = [self.batch, self.channels, self.height, self.width];
        assert(in_shape@ =~= self.input_shape());
        let in_strides = row_major_strides_of(&in_shape);
        let mut src: Vec<usize> = Vec::with_capacity(total);
        let mut p: usize = 0;
        while p < total
            invariant
                self.valid(),
                oh == self.out_h(),
                ow == self.out_w(),
                k == self.patch_len(),
                total == self.rows() * self.patch_len(),
                in_shape@ == self.input_shape(),
                in_strides@ == crate::layout::row_major_strides(in_shape@),
                p <= total,
                src@.len() == p,
                forall|q: int| 0 <= q < p ==> #[trigger] src@[q] < numel(self.input_shape()),
                forall|q: int|
                    0 <= q < p ==> {
                        let (bi, oi, oj, ci, ki, kj) = self.decode(q as nat);
                        #[trigger] src@[q] == flat_index(
                            self.input_index(bi, oi, oj, ci, ki, kj),
                            self.input_shape(),
                        )
                    },
            decreases total - p,
        {
            proof {
                self.lemma_decode(p as nat);
            }
            let ghost d = self.decode(p as nat);
            let row = p / k;
            let col = p % k;
            let bo = row / ow;
            let oj = row % ow;
            let bi = bo / oh;
            let oi = bo % oh;
            let cik = col / self.kernel_w;
            let kj = col % self.kernel_w;
            let ci = cik / self.kernel_h;
            let ki = cik % self.kernel_h;
            assert(d == (bi as nat, oi as nat, oj as nat, ci as nat, ki as nat, kj as nat));
            proof {
                self.lemma_input_index_in_bounds(bi as nat, oi as nat, oj as nat, ci as nat, ki as nat, kj as nat);
            }
            let hi = oi * self.stride + ki;
            let wi = oj * self.stride + kj;
            let idx = [bi, ci, hi, wi];
            assert(idx@ =~= self.input_index(bi as nat, oi as nat, oj as nat, ci as nat, ki as nat, kj as nat));
            proof {
                lemma_offset_row_major(idx@, in_shape@);
                crate::layout::lemma_flat_index_bound(idx@, in_shape@);
                assert(in_shape@.skip(0) =~= in_shape@);
                assert(numel(in_shape@.skip(0)) <= usize::MAX);
            }
            let off = offset_of(&idx, in_strides.as_slice());
            src.push(off);
            p = p + 1;
        }
        proof {
            assert forall|bi: nat, oi: nat, oj: nat, ci: nat, ki: nat, kj: nat|
                self.in_range(bi, oi, oj, ci, ki, kj) implies #[trigger] src@[self.patch_pos(
                bi,
                oi,
                oj,
                ci,
                ki,
                kj,
            ) as int] == flat_index(self.input_index(bi, oi, oj, ci, ki, kj), self.input_shape()) by {
                self.lemma_encode(bi, oi, oj, ci, ki, kj);
            }
        }
        src
    }
}

impl ConvGeometry {
    /// The output position `(bi, oi, oj)` of im2col row `row`.
    pub open spec fn row_decode(self, row: nat) -> (nat, nat, nat) {
        ((row / self.out_w()) / self.out_h(), (row / self.out_w()) % self.out_h(), row % self.out_w())
    }

    /// `col` is the im2col matrix of `input`.
    pub open spec fn is_im2col_of<T>(self, col: Tensor<T>, input: Tensor<T>) -> bool {
        &&& col.spec_shape() == seq![self.rows() as usize, self.patch_len() as usize]
        &&& forall|bi: nat, oi: nat, oj: nat, ci: nat, ki: nat, kj: nat|
            self.in_range(bi, oi, oj, ci, ki, kj) ==> #[trigger] col.at2(
                self.patch_row(bi, oi, oj) as usize,
                self.patch_col(ci, ki, kj) as usize,
            ) == input.at(self.input_index(bi, oi, oj, ci, ki, kj))
    }

    /// `src` gives, for every im2col position, the row-major position in
    /// the input of the element gathered there.
    pub open spec fn are_im2col_sources(self, src: Seq<usize>) -> bool {
        &&& src.len() == self.rows() * self.patch_len()
        &&& forall|p: int| 0 <= p < src.len() ==> #[trigger] src[p] < numel(self.input_shape())
        &&& forall|bi: nat, oi: nat, oj: nat, ci: nat, ki: nat, kj: nat|
            self.in_range(bi, oi, oj, ci, ki, kj) ==> #[trigger] src[self.patch_pos(
                bi,
                oi,
                oj,
                ci,
                ki,
                kj,
            ) as int] == flat_index(self.input_index(bi, oi, oj, ci, ki, kj), self.input_shape())
    }

    /// `img` holds `m`, a `[B * OH * OW, OC]` product, in the image layout
    /// `[B, OC, OH, OW]`.
    pub open spec fn image_layout_of<T>(self, img: Tensor<T>, m: Tensor<T>) -> bool {
        &&& img.spec_shape() == self.image_shape(m.spec_shape()[1])
        &&& forall|bi: usize, oc: usize, oi: usize, oj: usize|
            bi < self.batch && oc < m.spec_shape()[1] && oi < self.out_h() && oj < self.out_w()
                ==> #[trigger] img.at4(bi, oc, oi, oj) == m.at2(
                self.patch_row(bi as nat, oi as nat, oj as nat) as usize,
                oc,
            )
    }

    /// `m` holds `g`, an image-layout `[B, OC, OH, OW]` tensor, in the
    /// product layout `[B * OH * OW, OC]`.
    pub open spec fn row_layout_of<T>(self, m: Tensor<T>, g: Tensor<T>) -> bool {
        &&& m.spec_shape() == seq![self.rows() as usize, g.spec_shape()[1]]
        &&& forall|bi: usize, oc: usize, oi: usize, oj: usize|
            bi < self.batch && oc < g.spec_shape()[1] && oi < self.out_h() && oj < self.out_w()
                ==> #[trigger] m.at2(self.patch_row(bi as nat, oi as nat, oj as nat) as usize, oc)
                == g.at4(bi, oc, oi, oj)
    }

    /// The im2col matrix of `input`: row `patch_row(bi, oi, oj)`, column
    /// `patch_col(ci, ki, kj)` holds the input element
    /// `[bi, ci, oi * stride + ki, oj * stride + kj]`, so a matrix product
    /// with the kernel reshaped to `[OC, C * KH * KW]` computes the
    /// convolution.
    pub fn im2col<T: Copy>(&self, input: &Tensor<T>) -> (col: Tensor<T>)
        requires
            self.valid(),
            input.spec_shape() == self.input_shape(),
        ensures
            self.is_im2col_of(col, *input),
            col.spec_is_contiguous(),
    {
        let oh = self.output_height();
        let ow = self.output_width();
        proof {
            self.lemma_out_dims_fit();
        }
        let rows = self.batch * oh * ow;
        let k = self.channels * self.kernel_h * self.kernel_w;
        let src = self.im2col_sources();
        let data = input.to_vec();
        let total = src.len();
        let mut out: Vec<T> = Vec::with_capacity(total);
        let mut p: usize = 0;
        while p < total
            invariant
                total == src@.len(),
                data@ == input.values(),
                data@.len() == numel(self.input_shape()),
                forall|q: int| 0 <= q < total ==> #[trigger] src@[q] < numel(self.input_shape()),
                p <= total,
                out@.len() == p,
                forall|q: int| 0 <= q < p ==> #[trigger] out@[q] == data@[src@[q] as int],
            decreases total - p,
        {
            out.push(data[src[p]]);
            p = p + 1;
        }
        let shape = [rows, k];
        proof {
            lemma_matrix_shape(rows, k);
        }
        let col = Tensor::from_vec(out, &shape);
        proof {
            assert forall|bi: nat, oi: nat, oj: nat, ci: nat, ki: nat, kj: nat|
                self.in_range(bi, oi, oj, ci, ki, kj) implies #[trigger] col.at2(
                self.patch_row(bi, oi, oj) as usize,
                self.patch_col(ci, ki, kj) as usize,
            ) == input.at(self.input_index(bi, oi, oj, ci, ki, kj)) by {
                self.lemma_encode(bi, oi, oj, ci, ki, kj);
                self.lemma_input_index_in_bounds(bi, oi, oj, ci, ki, kj);
                let r = self.patch_row(bi, oi, oj) as usize;
                let c = self.patch_col(ci, ki, kj) as usize;
                let idx = self.input_index(bi, oi, oj, ci, ki, kj);
                assert(in_bounds(seq![r, c], col.spec_shape()));
                col.lemma_values_at(seq![r, c]);
                lemma_flat_index_2d(r, c, rows, k);
                input.lemma_values_at(idx);
                let pp = self.patch_pos(bi, oi, oj, ci, ki, kj);
                assert(src@[pp as int] == flat_index(idx, self.input_shape()));
            }
        }
        col
    }

    /// The gradient with respect to the input of a gradient `grad_col` with
    /// respect to the im2col matrix: starting from `zero` everywhere, every
    /// entry of `grad_col`, in row-major order, is added with `combine` into the
    /// input element it was gathered from.
    pub fn col2im<T: Copy, F: Fn(T, T) -> T>(&self, grad_col: &Tensor<T>, zero: T, combine: F) -> (g: Tensor<T>)
        requires
            self.valid(),
            grad_col.spec_shape() == seq![self.rows() as usize, self.patch_len() as usize],
            forall|a: T, b: T| call_requires(combine, (a, b)),
        ensures
            g.spec_shape() == self.input_shape(),
            g.spec_is_contiguous(),
            exists|src: Seq<usize>, trace: Seq<Seq<T>>|
                #![trigger is_scatter_trace(trace, repeated(zero, numel(self.input_shape())), src, grad_col.values(), combine)]
                {
                    &&& self.are_im2col_sources(src)
                    &&& is_scatter_trace(
                        trace,
                        repeated(zero, numel(self.input_shape())),
                        src,
                        grad_col.values(),
                        combine,
                    )
                    &&& g.values() == trace.last()
                },
    {
        let src = self.im2col_sources();
        let values = grad_col.to_vec();
        let shape = [self.batch, self.channels, self.height, self.width];
        assert(shape@ =~= self.input_shape());
        let n = numel_of(&shape);
        let mut init: Vec<T> = Vec::with_capacity(n);
        let mut i: usize = 0;
        while i < n
            invariant
                i <= n,
                init@ == Seq::new(i as nat, |j: int| zero),
            decreases n - i,
        {
            init.push(zero);
            i = i + 1;
            assert(init@ =~= Seq::new(i as nat, |j: int| zero));
        }
        assert(init@ =~= repeated(zero, numel(self.input_shape())));
        proof {
            lemma_matrix_shape(self.rows() as usize, self.patch_len() as usize);
        }
        let ghost init_seq = init@;
        let out = scatter_accumulate(init, src.as_slice(), values.as_slice(), combine);
        let ghost trace = choose|trace: Seq<Seq<T>>|
            is_scatter_trace(trace, init_seq, src@, values@, combine) && trace.last() == out@;
        proof {
            assert(out@.len() == n) by {
                crate::tensor::lemma_scatter_keeps_length(trace, init_seq, src@, values@, combine);
            }
        }
        let g = Tensor::from_vec(out, &shape);
        proof {
            assert(self.are_im2col_sources(src@));
            assert(is_scatter_trace(trace, repeated(zero, numel(self.input_shape())), src@, grad_col.values(), combine));
        }
        g
    }

    /// Moves the `[B * OH * OW, OC]` product of the im2col matrix and the
    /// kernel into the image layout `[B, OC, OH, OW]`: element
    /// `[bi, oc, oi, oj]` is element `[patch_row(bi, oi, oj), oc]`.
    pub fn rows_to_channels<T: Copy>(&self, m: &Tensor<T>) -> (img: Tensor<T>)
        requires
            self.valid(),
            m.spec_shape().len() == 2,
            m.spec_shape()[0] == self.rows(),
            shape_fits(self.image_shape(m.spec_shape()[1])),
        ensures
            self.image_layout_of(img, *m),
            img.spec_is_contiguous(),
    {
        let oh = self.output_height();
        let ow = self.output_width();
        let oc = m.shape()[1];
        let shape = [self.batch, oc, oh, ow];
        assert(shape@ =~= self.image_shape(oc));
        let n = numel_of(&shape);
        let rm = row_major_strides_of(&shape);
        let mut out: Vec<T> = Vec::with_capacity(n);
        let mut q: usize = 0;
        while q < n
            invariant
                self.valid(),
                oh == self.out_h(),
                ow == self.out_w(),
                oc == m.spec_shape()[1],
                m.spec_shape().len() == 2,
                m.spec_shape()[0] == self.rows(),
                shape@ == self.image_shape(oc),
                shape_fits(shape@),
                n == numel(shape@),
                rm@ == crate::layout::row_major_strides(shape@),
                q <= n,
                out@.len() == q,
                forall|j: int|
                    0 <= j < q ==> {
                        let u = unflat_index(j as nat, shape@);
                        #[trigger] out@[j] == m.at2(
                            self.patch_row(u[0] as nat, u[2] as nat, u[3] as nat) as usize,
                            u[1],
                        )
                    },
            decreases n - q,
        {
            let u = unflat_index_of(q, &shape, rm.as_slice());
            proof {
                crate::layout::lemma_unflat_index(q as nat, shape@);
                assert(in_bounds(u@, shape@));
                assert(u@[0] < self.batch && u@[2] < oh && u@[3] < ow && u@[1] < oc);
                self.lemma_row_encode(u@[0] as nat, u@[2] as nat, u@[3] as nat);
            }
            proof {
                let bo = (u@[0] as nat) * (oh as nat) + (u@[2] as nat);
                assert(bo <= bo * (ow as nat)) by (nonlinear_arith)
                    requires ow >= 1;
                assert((u@[0] as nat) * (oh as nat) <= bo);
            }
            let row = (u[0] * oh + u[2]) * ow + u[3];
            let c = u[1];
            assert(in_bounds(seq![row, c], m.spec_shape()));
            let x = m.get(&[row, c]);
            out.push(x);
            q = q + 1;
        }
        let img = Tensor::from_vec(out, &shape);
        proof {
            assert forall|bi: usize, c: usize, oi: usize, oj: usize|
                bi < self.batch && c < oc && oi < self.out_h() && oj < self.out_w()
                    implies #[trigger] img.at4(bi, c, oi, oj) == m.at2(
                    self.patch_row(bi as nat, oi as nat, oj as nat) as usize,
                    c,
                ) by {
                let idx = seq![bi, c, oi, oj];
                assert(in_bounds(idx, shape@));
                img.lemma_values_at(idx);
                crate::layout::lemma_flat_index_bound(idx, shape@);
                crate::layout::lemma_flat_unflat(idx, shape@);
            }
        }
        img
    }

    /// Moves a gradient of image layout `[B, OC, OH, OW]` into the product
    /// layout `[B * OH * OW, OC]`: element `[patch_row(bi, oi, oj), oc]` is
    /// element `[bi, oc, oi, oj]`.
    pub fn channels_to_rows<T: Copy>(&self, g: &Tensor<T>) -> (m: Tensor<T>)
        requires
            self.valid(),
            g.spec_shape().len() == 4,
            g.spec_shape() == self.image_shape(g.spec_shape()[1]),
            self.rows() * (g.spec_shape()[1] as nat) <= usize::MAX,
        ensures
            self.row_layout_of(m, *g),
            m.spec_is_contiguous(),
    {
        let oh = self.output_height();
        let ow = self.output_width();
        proof {
            self.lemma_out_dims_fit();
        }
        proof {
            let bh = (self.batch as nat) * (oh as nat);
            assert(bh <= self.rows()) by (nonlinear_arith)
                requires self.rows() == bh * (ow as nat), ow >= 1;
        }
        let rows = self.batch * oh * ow;
        let oc = g.shape()[1];
        let total = rows * oc;
        let mut out: Vec<T> = Vec::with_capacity(total);
        let mut p: usize = 0;
        while p < total
            invariant
                self.valid(),
                oh == self.out_h(),
                ow == self.out_w(),
                rows == self.rows(),
                oc == g.spec_shape()[1],
                g.spec_shape() == self.image_shape(oc),
                total == rows * oc,
                p <= total,
                out@.len() == p,
                forall|j: int|
                    0 <= j < p ==> {
                        let (bi, oi, oj) = self.row_decode(j as nat / oc as nat);
                        #[trigger] out@[j] == g.at4(
                            bi as usize,
                            (j as nat % oc as nat) as usize,
                            oi as usize,
                            oj as usize,
                        )
                    },
            decreases total - p,
        {
            proof {
                lemma_div_mod(p as int, oc as int);
                lemma_quotient_bound(p as int, oc as int, rows as int);
                self.lemma_row_decode(p as nat / oc as nat);
            }
            let row = p / oc;
            let c = p % oc;
            let bo = row / ow;
            let oj = row % ow;
            let bi = bo / oh;
            let oi = bo % oh;
            assert(in_bounds(seq![bi, c, oi, oj], g.spec_shape()));
            let x = g.get(&[bi, c, oi, oj]);
            out.push(x);
            p = p + 1;
        }
        let shape = [rows, oc];
        proof {
            lemma_matrix_shape(rows, oc);
        }
        let m = Tensor::from_vec(out, &shape);
        proof {
            assert forall|bi: usize, c: usize, oi: usize, oj: usize|
                bi < self.batch && c < oc && oi < self.out_h() && oj < self.out_w()
                    implies #[trigger] m.at2(self.patch_row(bi as nat, oi as nat, oj as nat) as usize, c)
                    == g.at4(bi, c, oi, oj) by {
                self.lemma_row_encode(bi as nat, oi as nat, oj as nat);
                let r = self.patch_row(bi as nat, oi as nat, oj as nat);
                assert(in_bounds(seq![r as usize, c], shape@));
                m.lemma_values_at(seq![r as usize, c]);
                lemma_flat_index_2d(r as usize, c, rows, oc);
                let pp = r * (oc as nat) + c;
                assert(pp < total) by (nonlinear_arith)
                    requires pp == r * (oc as nat) + c, r < rows, c < oc, total == rows * oc;
                lemma_div_mod_unique(pp as int, oc as int, r as int, c as int);
            }
        }
        m
    }
}

/// A kernel as large as the input, with any positive stride, is a valid
/// geometry when the input's element count fits (and, for an empty
/// width, channels times height does), and gives a single
/// output position per image: the im2col matrix has one row per image and
/// one column per input element of that image.
pub proof fn lemma_whole_input_kernel(g: ConvGeometry)
    requires
        g.stride > 0,
        g.kernel_h == g.height,
        g.kernel_w == g.width,
        shape_fits(g.input_shape()),
        (g.channels as nat) * (g.height as nat) <= usize::MAX,
    ensures
        g.valid(),
        g.out_h() == 1,
        g.out_w() == 1,
        g.rows() == g.batch,
        g.rows() * g.patch_len() == numel(g.input_shape()),
{
    let s = g.input_shape();
    reveal_with_fuel(numel, 5);
    assert(s.drop_first() =~= seq![g.channels, g.height, g.width]);
    assert(s.drop_first().drop_first() =~= seq![g.height, g.width]);
    assert(s.drop_first().drop_first().drop_first() =~= seq![g.width]);
    assert(s.drop_first().drop_first().drop_first().drop_first() =~= Seq::<usize>::empty());
    let b = g.batch as nat;
    let c = g.channels as nat;
    let h = g.height as nat;
    let w = g.width as nat;
    crate::layout::lemma_numel_vector(g.width);
    assert(numel(seq![g.height, g.width]) == h * numel(seq![g.width]));
    assert(numel(seq![g.channels, g.height, g.width]) == c * numel(seq![g.height, g.width]));
    assert(numel(s) == b * numel(seq![g.channels, g.height, g.width]));
    assert(numel(s) == b * (c * (h * w)));
    assert(s.skip(0) =~= s);
    assert(s.skip(1) =~= s.drop_first());
    assert(numel(s.skip(1)) <= usize::MAX);
    assert(numel(s.skip(0)) <= usize::MAX);
    assert(b * 1 * 1 == b);
    assert(g.patch_len() == c * h * w);
    assert(b * (c * h * w) == b * (c * (h * w))) by (nonlinear_arith);
    assert(c * h * w == c * (h * w)) by (nonlinear_arith);
    let dh = (g.height - g.kernel_h) as nat;
    assert(dh == 0);
    assert(dh / (g.stride as nat) == 0);
    assert((g.width - g.kernel_w) as nat / (g.stride as nat) == 0);
    assert(g.out_h() == 1);
    assert(g.out_w() == 1);
    assert(g.rows() == b * 1 * 1);
}

/// Moving a `[B * OH * OW, OC]` product into the image layout and back
/// gives every element back at its place.
pub proof fn lemma_rows_channels_round_trip<T>(
    geom: ConvGeometry,
    m: Tensor<T>,
    img: Tensor<T>,
    back: Tensor<T>,
)
    requires
        geom.valid(),
        m.spec_shape().len() == 2,
        m.spec_shape()[0] == geom.rows(),
        geom.image_layout_of(img, m),
        geom.row_layout_of(back, img),
    ensures
        back.spec_shape() == m.spec_shape(),
        forall|r: usize, c: usize|
            r < m.spec_shape()[0] && c < m.spec_shape()[1] ==> #[trigger] back.at2(r, c) == m.at2(r, c),
{
    assert(img.spec_shape()[1] == m.spec_shape()[1]);
    assert(back.spec_shape() =~= m.spec_shape());
    assert forall|r: usize, c: usize| r < m.spec_shape()[0] && c < m.spec_shape()[1] implies #[trigger] back.at2(
        r,
        c,
    ) == m.at2(r, c) by {
        geom.lemma_row_decode(r as nat);
        let (bi, oi, oj) = geom.row_decode(r as nat);
        assert(img.at4(bi as usize, c, oi as usize, oj as usize) == m.at2(
            geom.patch_row(bi, oi, oj) as usize,
            c,
        ));
    }
}

/// Moving an image-layout `[B, OC, OH, OW]` tensor into the product
/// layout and back gives every element back at its place.
pub proof fn lemma_channels_rows_round_trip<T>(
    geom: ConvGeometry,
    g: Tensor<T>,
    m: Tensor<T>,
    back: Tensor<T>,
)
    requires
        geom.valid(),
        g.spec_shape().len() == 4,
        g.spec_shape() == geom.image_shape(g.spec_shape()[1]),
        geom.row_layout_of(m, g),
        geom.image_layout_of(back, m),
    ensures
        back.spec_shape() == g.spec_shape(),
        forall|bi: usize, oc: usize, oi: usize, oj: usize|
            bi < geom.batch && oc < g.spec_shape()[1] && oi < geom.out_h() && oj < geom.out_w()
                ==> #[trigger] back.at4(bi, oc, oi, oj) == g.at4(bi, oc, oi, oj),
{
    assert(m.spec_shape()[1] == g.spec_shape()[1]);
    assert forall|bi: usize, oc: usize, oi: usize, oj: usize|
        bi < geom.batch && oc < g.spec_shape()[1] && oi < geom.out_h() && oj < geom.out_w() implies #[trigger] back.at4(
        bi,
        oc,
        oi,
        oj,
    ) == g.at4(bi, oc, oi, oj) by {
        assert(m.at2(geom.patch_row(bi as nat, oi as nat, oj as nat) as usize, oc) == g.at4(bi, oc, oi, oj));
    }
}

/// The im2col matrix is exactly the gather of the input through the
/// im2col sources: position `p` of the matrix holds the input element at
/// row-major position `src[p]`. So scattering a gradient of the matrix
/// back through the same sources sends every entry to the input element it
/// was read from.
pub proof fn lemma_im2col_gathers_through_sources<T>(
    geom: ConvGeometry,
    input: Tensor<T>,
    col: Tensor<T>,
    src: Seq<usize>,
)
    requires
        geom.valid(),
        input.spec_shape() == geom.input_shape(),
        geom.is_im2col_of(col, input),
        geom.are_im2col_sources(src),
    ensures
        col.values().len() == src.len(),
        forall|p: int| 0 <= p < src.len() ==> #[trigger] col.values()[p] == input.values()[src[p] as int],
{
    let k = geom.patch_len();
    lemma_matrix_shape(geom.rows() as usize, k as usize);
    assert forall|p: int| 0 <= p < src.len() implies #[trigger] col.values()[p] == input.values()[src[p]
        as int] by {
        geom.lemma_decode(p as nat);
        let (bi, oi, oj, ci, ki, kj) = geom.decode(p as nat);
        geom.lemma_encode(bi, oi, oj, ci, ki, kj);
        geom.lemma_input_index_in_bounds(bi, oi, oj, ci, ki, kj);
        let r = geom.patch_row(bi, oi, oj) as usize;
        let c = geom.patch_col(ci, ki, kj) as usize;
        assert(in_bounds(seq![r, c], col.spec_shape()));
        col.lemma_values_at(seq![r, c]);
        lemma_flat_index_2d(r, c, geom.rows() as usize, k as usize);
        input.lemma_values_at(geom.input_index(bi, oi, oj, ci, ki, kj));
        assert(col.at2(r, c) == input.at(geom.input_index(bi, oi, oj, ci, ki, kj)));
        assert(src[geom.patch_pos(bi, oi, oj, ci, ki, kj) as int] == flat_index(
            geom.input_index(bi, oi, oj, ci, ki, kj),
            geom.input_shape(),
        ));
        assert(geom.patch_pos(bi, oi, oj, ci, ki, kj) == (r as nat) * (k as nat) + (c as nat));
    }
    col.lemma_values_len();
}

} // verus!
