//! `Tensor`: a flat buffer shared between views, with a shape and strides
//! layered on top of it.

use std::rc::Rc;
use vstd::prelude::*;

use crate::layout::{
    broadcast_index, broadcast_index_of, broadcasts_to, flat_index, in_bounds,
    lemma_broadcast_in_bounds, lemma_flat_index_bound, lemma_flat_unflat, lemma_offset_row_major,
    lemma_unflat_index, numel, offset, offset_of, row_major_strides, row_major_strides_of,
    numel_of, shape_fits, unflat_index, unflat_index_of,
};

verus! {

/// Dense numerical container exchanged between successive layers.
///
/// `data` is a single flat buffer. `shape` and `strides` map each
/// multi-index to an offset in it, so operations that only rearrange which
/// multi-index reads which offset (transposing, reshaping a contiguous
/// tensor) are metadata edits that share `data` instead of copying it.
#[derive(Debug)]
pub struct Tensor<T> {
    data: Rc<Vec<T>>,
    shape: Vec<usize>,
    strides: Vec<usize>,
}

impl<T> Tensor<T> {
    #[verifier::type_invariant]
    spec fn well_formed(self) -> bool {
        &&& self.shape@.len() == self.strides@.len()
        &&& shape_fits(self.shape@)
        &&& self.data@.len() == numel(self.shape@)
        &&& forall|idx: Seq<usize>| #[trigger]
            in_bounds(idx, self.shape@) ==> offset(idx, self.strides@) < self.data@.len()
    }

    /// The dimensions of the tensor.
    pub closed spec fn spec_shape(self) -> Seq<usize> {
        self.shape@
    }

    /// The strides of the tensor: how far apart, in the buffer, neighbours
    /// along each axis are.
    pub closed spec fn spec_strides(self) -> Seq<usize> {
        self.strides@
    }

    /// The flat buffer that the tensor reads from.
    pub closed spec fn buffer(self) -> Seq<T> {
        self.data@
    }

    /// The element at multi-index `idx`.
    pub closed spec fn at(self, idx: Seq<usize>) -> T {
        self.data@[offset(idx, self.strides@) as int]
    }

    /// The element at row `i`, column `j` of a matrix.
    pub open spec fn at2(self, i: usize, j: usize) -> T {
        self.at(seq![i, j])
    }

    /// The element at `[i, j, k, l]` of a rank-four tensor.
    pub open spec fn at4(self, i: usize, j: usize, k: usize, l: usize) -> T {
        self.at(seq![i, j, k, l])
    }

    /// `self` is the matrix transpose of `x`: element `[i, j]` of `self` is
    /// element `[j, i]` of `x`.
    pub open spec fn is_transpose_of(self, x: Self) -> bool {
        &&& x.spec_shape().len() == 2
        &&& self.spec_shape() == seq![x.spec_shape()[1], x.spec_shape()[0]]
        &&& forall|i: usize, j: usize|
            i < x.spec_shape()[1] && j < x.spec_shape()[0] ==> #[trigger] self.at2(i, j) == x.at2(j, i)
    }

    /// The elements in row-major order of their multi-indices.
    pub closed spec fn values(self) -> Seq<T> {
        Seq::new(numel(self.shape@), |k: int| self.at(unflat_index(k as nat, self.shape@)))
    }

    /// The tensor's strides are those of a contiguous row-major layout.
    pub open spec fn spec_is_contiguous(self) -> bool {
        self.spec_strides() == row_major_strides(self.spec_shape())
    }

    /// Row-major position `flat_index(idx)` of `values()` holds the element
    /// at `idx`.
    pub proof fn lemma_values_at(self, idx: Seq<usize>)
        requires
            in_bounds(idx, self.spec_shape()),
        ensures
            self.values().len() == numel(self.spec_shape()),
            flat_index(idx, self.spec_shape()) < self.values().len(),
            self.values()[flat_index(idx, self.spec_shape()) as int] == self.at(idx),
    {
        lemma_flat_index_bound(idx, self.shape@);
        lemma_flat_unflat(idx, self.shape@);
    }

    /// There are as many row-major values as elements.
    pub proof fn lemma_values_len(self)
        ensures
            self.values().len() == numel(self.spec_shape()),
    {
    }

    /// A contiguous tensor's row-major values are its buffer.
    proof fn lemma_contiguous_values(self)
        requires
            self.well_formed(),
            self.spec_is_contiguous(),
        ensures
            self.values() == self.buffer(),
    {
        assert forall|k: int| 0 <= k < numel(self.shape@) implies #[trigger] self.values()[k]
            == self.data@[k] by {
            lemma_unflat_index(k as nat, self.shape@);
            lemma_offset_row_major(unflat_index(k as nat, self.shape@), self.shape@);
        }
        assert(self.values() =~= self.buffer());
    }
}

impl<T: Copy> Clone for Tensor<T> {
    /// Another handle on the same buffer, with the same shape and strides.
    fn clone(&self) -> (r: Self)
        ensures
            r.spec_shape() == self.spec_shape(),
            r.spec_strides() == self.spec_strides(),
            r.buffer() == self.buffer(),
            r.values() == self.values(),
    {
        proof {
            use_type_invariant(self);
        }
        Tensor {
            data: Rc::clone(&self.data),
            shape: vstd::slice::slice_to_vec(self.shape.as_slice()),
            strides: vstd::slice::slice_to_vec(self.strides.as_slice()),
        }
    }
}

/// Transposing twice gives back every element at its place.
pub proof fn lemma_transpose_twice<T>(x: Tensor<T>, y: Tensor<T>, z: Tensor<T>)
    requires
        y.is_transpose_of(x),
        z.is_transpose_of(y),
    ensures
        z.spec_shape() == x.spec_shape(),
        forall|i: usize, j: usize|
            i < x.spec_shape()[0] && j < x.spec_shape()[1] ==> #[trigger] z.at2(i, j) == x.at2(i, j),
{
    assert(z.spec_shape() =~= x.spec_shape());
    assert forall|i: usize, j: usize| i < x.spec_shape()[0] && j < x.spec_shape()[1] implies #[trigger] z.at2(
        i,
        j,
    ) == x.at2(i, j) by {
        assert(z.at2(i, j) == y.at2(j, i));
    }
}

/// Two tensors of the same shape with the same row-major values hold the
/// same element at every multi-index: a copy agrees with the view it was
/// made from.
pub proof fn lemma_same_values_same_elements<T>(a: Tensor<T>, b: Tensor<T>)
    requires
        a.spec_shape() == b.spec_shape(),
        a.values() == b.values(),
    ensures
        forall|idx: Seq<usize>| in_bounds(idx, a.spec_shape()) ==> #[trigger] a.at(idx) == b.at(idx),
{
    assert forall|idx: Seq<usize>| in_bounds(idx, a.spec_shape()) implies #[trigger] a.at(idx) == b.at(
        idx,
    ) by {
        a.lemma_values_at(idx);
        b.lemma_values_at(idx);
    }
}

impl<T: Copy> Tensor<T> {
    /// Wraps `data`, read in row-major order, as a tensor of shape `shape`.
    pub fn from_vec(data: Vec<T>, shape: &[usize]) -> (t: Self)
        requires
            data@.len() == numel(shape@),
            shape_fits(shape@),
        ensures
            t.spec_shape() == shape@,
            t.spec_is_contiguous(),
            t.buffer() == data@,
            t.values() == data@,
    {
        let strides = row_major_strides_of(shape);
        let ghost dv = data@;
        assert forall|idx: Seq<usize>| #[trigger] in_bounds(idx, shape@) implies offset(
            idx,
            strides@,
        ) < dv.len() by {
            lemma_offset_row_major(idx, shape@);
            lemma_flat_index_bound(idx, shape@);
        }
        let t = Tensor { data: Rc::new(data), shape: vstd::slice::slice_to_vec(shape), strides };
        proof {
            use_type_invariant(&t);
            t.lemma_contiguous_values();
        }
        t
    }

    /// A tensor of shape `shape` whose every element is `value`.
    pub fn filled(shape: &[usize], value: T) -> (t: Self)
        requires
            shape_fits(shape@),
        ensures
            t.spec_shape() == shape@,
            t.spec_is_contiguous(),
            t.values() == Seq::new(numel(shape@), |k: int| value),
    {
        let n = numel_of(shape);
        let mut data: Vec<T> = Vec::with_capacity(n);
        let mut k: usize = 0;
        while k < n
            invariant
                k <= n,
                data@ == Seq::new(k as nat, |j: int| value),
            decreases n - k,
        {
            data.push(value);
            k = k + 1;
            assert(data@ =~= Seq::new(k as nat, |j: int| value));
        }
        Tensor::from_vec(data, shape)
    }

    /// The dimensions of the tensor.
    pub fn shape(&self) -> (s: &[usize])
        ensures
            s@ == self.spec_shape(),
            shape_fits(s@),
    {
        proof {
            use_type_invariant(self);
        }
        self.shape.as_slice()
    }

    /// The strides of the tensor.
    pub fn strides(&self) -> (s: &[usize])
        ensures
            s@ == self.spec_strides(),
    {
        self.strides.as_slice()
    }

    /// Whether the strides are those of a contiguous row-major layout.
    pub fn is_contiguous(&self) -> (b: bool)
        ensures
            b == self.spec_is_contiguous(),
    {
        proof {
            use_type_invariant(self);
        }
        let rm = row_major_strides_of(self.shape.as_slice());
        let n = rm.len();
        let mut i: usize = 0;
        while i < n
            invariant
                i <= n == rm@.len() == self.strides@.len(),
                rm@ == row_major_strides(self.shape@),
                forall|j: int| 0 <= j < i ==> rm@[j] == self.strides@[j],
            decreases n - i,
        {
            if rm[i] != self.strides[i] {
                assert(rm@ != self.strides@);
                return false;
            }
            i = i + 1;
        }
        assert(rm@ =~= self.strides@);
        true
    }

    /// Number of axes.
    pub fn ndim(&self) -> (n: usize)
        ensures
            n == self.spec_shape().len(),
    {
        self.shape.len()
    }

    /// Number of elements.
    pub fn numel(&self) -> (n: usize)
        ensures
            n == numel(self.spec_shape()),
            n == self.values().len(),
    {
        proof {
            use_type_invariant(self);
        }
        self.data.len()
    }

    /// The element at multi-index `idx`.
    pub fn get(&self, idx: &[usize]) -> (x: T)
        requires
            in_bounds(idx@, self.spec_shape()),
        ensures
            x == self.at(idx@),
            x == self.values()[flat_index(idx@, self.spec_shape()) as int],
    {
        proof {
            use_type_invariant(self);
            self.lemma_values_at(idx@);
            assert(in_bounds(idx@, self.shape@));
        }
        let n = self.data.len();
        assert(offset(idx@, self.strides@) < n);
        let off = offset_of(idx, self.strides.as_slice());
        self.data[off]
    }
}

impl<T: Copy> Tensor<T> {
    /// The elements in row-major order, read through the strides.
    pub fn to_vec(&self) -> (v: Vec<T>)
        ensures
            v@ == self.values(),
            v@.len() == numel(self.spec_shape()),
    {
        proof {
            use_type_invariant(self);
        }
        let n = self.data.len();
        let rm = row_major_strides_of(self.shape.as_slice());
        let mut out: Vec<T> = Vec::with_capacity(n);
        let mut k: usize = 0;
        while k < n
            invariant
                k <= n == numel(self.shape@) == self.data@.len(),
                rm@ == row_major_strides(self.shape@),
                shape_fits(self.shape@),
                out@.len() == k,
                forall|j: int| 0 <= j < k ==> out@[j] == self.values()[j],
            decreases n - k,
        {
            let idx = unflat_index_of(k, self.shape.as_slice(), rm.as_slice());
            proof {
                use_type_invariant(self);
                lemma_unflat_index(k as nat, self.shape@);
                assert(in_bounds(idx@, self.shape@));
            }
            let off = offset_of(idx.as_slice(), self.strides.as_slice());
            out.push(self.data[off]);
            k = k + 1;
        }
        assert(out@ =~= self.values());
        out
    }

    /// Applies `f` to every element; the result has the same shape and is
    /// contiguous.
    pub fn map<U: Copy, F: Fn(T) -> U>(&self, f: F) -> (r: Tensor<U>)
        requires
            forall|k: int| 0 <= k < self.values().len() ==> call_requires(f, (self.values()[k],)),
        ensures
            r.spec_shape() == self.spec_shape(),
            r.spec_is_contiguous(),
            r.values().len() == self.values().len(),
            forall|k: int|
                0 <= k < self.values().len() ==> call_ensures(f, (self.values()[k],), #[trigger] r.values()[k]),
    {
        proof {
            use_type_invariant(self);
        }
        let v = self.to_vec();
        let n = v.len();
        let mut out: Vec<U> = Vec::with_capacity(n);
        let mut k: usize = 0;
        while k < n
            invariant
                k <= n == v@.len(),
                v@ == self.values(),
                forall|j: int| 0 <= j < n ==> call_requires(f, (v@[j],)),
                out@.len() == k,
                forall|j: int| 0 <= j < k ==> call_ensures(f, (v@[j],), #[trigger] out@[j]),
            decreases n - k,
        {
            let y = f(v[k]);
            out.push(y);
            k = k + 1;
        }
        Tensor::from_vec(out, self.shape.as_slice())
    }

    /// Combines corresponding elements of two tensors of the same shape.
    pub fn zip_map<U: Copy, V: Copy, F: Fn(T, U) -> V>(&self, other: &Tensor<U>, f: F) -> (r: Tensor<V>)
        requires
            other.spec_shape() == self.spec_shape(),
            forall|k: int|
                0 <= k < self.values().len() ==> call_requires(f, (self.values()[k], other.values()[k])),
        ensures
            r.spec_shape() == self.spec_shape(),
            r.spec_is_contiguous(),
            r.values().len() == self.values().len(),
            forall|k: int|
                0 <= k < self.values().len() ==> call_ensures(
                    f,
                    (self.values()[k], other.values()[k]),
                    #[trigger] r.values()[k],
                ),
    {
        proof {
            use_type_invariant(self);
        }
        let a = self.to_vec();
        let b = other.to_vec();
        let n = a.len();
        let mut out: Vec<V> = Vec::with_capacity(n);
        let mut k: usize = 0;
        while k < n
            invariant
                k <= n == a@.len() == b@.len(),
                a@ == self.values(),
                b@ == other.values(),
                forall|j: int| 0 <= j < n ==> call_requires(f, (a@[j], b@[j])),
                out@.len() == k,
                forall|j: int| 0 <= j < k ==> call_ensures(f, (a@[j], b@[j]), #[trigger] out@[j]),
            decreases n - k,
        {
            let y = f(a[k], b[k]);
            out.push(y);
            k = k + 1;
        }
        Tensor::from_vec(out, self.shape.as_slice())
    }

    /// Combines every element with the element of `other` at the same
    /// multi-index, `other` being broadcast along its axes of length one
    /// (a `[1, F]` bias over a `[B, F]` batch, say).
    pub fn zip_map_broadcast<U: Copy, V: Copy, F: Fn(T, U) -> V>(&self, other: &Tensor<U>, f: F) -> (r:
        Tensor<V>)
        requires
            broadcasts_to(other.spec_shape(), self.spec_shape()),
            forall|idx: Seq<usize>|
                in_bounds(idx, self.spec_shape()) ==> call_requires(
                    f,
                    (self.at(idx), other.at(broadcast_index(idx, other.spec_shape()))),
                ),
        ensures
            r.spec_shape() == self.spec_shape(),
            r.spec_is_contiguous(),
            forall|idx: Seq<usize>|
                in_bounds(idx, self.spec_shape()) ==> call_ensures(
                    f,
                    (self.at(idx), other.at(broadcast_index(idx, other.spec_shape()))),
                    #[trigger] r.at(idx),
                ),
    {
        proof {
            use_type_invariant(self);
            use_type_invariant(other);
        }
        let n = self.data.len();
        let rm = row_major_strides_of(self.shape.as_slice());
        let mut out: Vec<V> = Vec::with_capacity(n);
        let mut k: usize = 0;
        while k < n
            invariant
                k <= n == numel(self.shape@) == self.data@.len(),
                rm@ == row_major_strides(self.shape@),
                shape_fits(self.shape@),
                broadcasts_to(other.shape@, self.shape@),
                forall|idx: Seq<usize>|
                    in_bounds(idx, self.spec_shape()) ==> call_requires(
                        f,
                        (self.at(idx), other.at(broadcast_index(idx, other.spec_shape()))),
                    ),
                out@.len() == k,
                forall|j: int|
                    0 <= j < k ==> call_ensures(
                        f,
                        (
                            self.at(unflat_index(j as nat, self.shape@)),
                            other.at(broadcast_index(unflat_index(j as nat, self.shape@), other.shape@)),
                        ),
                        #[trigger] out@[j],
                    ),
            decreases n - k,
        {
            proof {
                use_type_invariant(self);
                use_type_invariant(other);
            }
            let idx = unflat_index_of(k, self.shape.as_slice(), rm.as_slice());
            proof {
                lemma_unflat_index(k as nat, self.shape@);
                assert(in_bounds(idx@, self.shape@));
            }
            let bidx = broadcast_index_of(idx.as_slice(), other.shape.as_slice());
            proof {
                lemma_broadcast_in_bounds(idx@, other.shape@, self.shape@);
                assert(in_bounds(bidx@, other.shape@));
            }
            let x = self.data[offset_of(idx.as_slice(), self.strides.as_slice())];
            let ob = other.data.len();
            assert(offset(bidx@, other.strides@) < ob);
            let y = other.data[offset_of(bidx.as_slice(), other.strides.as_slice())];
            assert(x == self.at(idx@));
            assert(y == other.at(bidx@));
            assert(in_bounds(idx@, self.spec_shape()));
            let z = f(x, y);
            out.push(z);
            k = k + 1;
        }
        let r = Tensor::from_vec(out, self.shape.as_slice());
        proof {
            assert forall|idx: Seq<usize>| in_bounds(idx, self.spec_shape()) implies call_ensures(
                f,
                (self.at(idx), other.at(broadcast_index(idx, other.spec_shape()))),
                #[trigger] r.at(idx),
            ) by {
                r.lemma_values_at(idx);
                lemma_flat_index_bound(idx, self.shape@);
                lemma_flat_unflat(idx, self.shape@);
            }
        }
        r
    }

    /// A copy of the tensor laid out contiguously in a buffer of its own.
    pub fn contiguous(&self) -> (c: Self)
        ensures
            c.spec_shape() == self.spec_shape(),
            c.spec_is_contiguous(),
            c.values() == self.values(),
    {
        proof {
            use_type_invariant(self);
        }
        let v = self.to_vec();
        Tensor::from_vec(v, self.shape.as_slice())
    }

    /// The matrix transpose, as a view: the shape and the strides of the two
    /// axes are swapped and the buffer is shared, not copied.
    pub fn t(&self) -> (r: Self)
        requires
            self.spec_shape().len() == 2,
        ensures
            r.spec_shape() == seq![self.spec_shape()[1], self.spec_shape()[0]],
            r.spec_strides() == seq![self.spec_strides()[1], self.spec_strides()[0]],
            r.buffer() == self.buffer(),
            r.is_transpose_of(*self),
    {
        proof {
            use_type_invariant(self);
        }
        let s0 = self.shape[0];
        let s1 = self.shape[1];
        let st0 = self.strides[0];
        let st1 = self.strides[1];
        let shape = vec![s1, s0];
        let strides = vec![st1, st0];
        let ghost old_shape = self.shape@;
        let ghost old_strides = self.strides@;
        proof {
            assert(old_shape =~= seq![s0, s1]);
            assert(old_strides =~= seq![st0, st1]);
            assert forall|idx: Seq<usize>| #[trigger] in_bounds(idx, shape@) implies offset(
                idx,
                strides@,
            ) < self.data@.len() by {
                let sw = seq![idx[1], idx[0]];
                assert(in_bounds(sw, old_shape));
                reveal_with_fuel(offset, 3);
                assert(offset(idx, strides@) == offset(sw, old_strides));
            }
            reveal_with_fuel(numel, 3);
            assert(numel(shape@) == (s1 as nat) * (s0 as nat));
            assert(numel(old_shape) == (s0 as nat) * (s1 as nat));
            assert((s1 as nat) * (s0 as nat) == (s0 as nat) * (s1 as nat)) by (nonlinear_arith);
            assert(shape_fits(shape@)) by {
                assert forall|i: int| 0 <= i <= shape@.len() implies #[trigger] numel(
                    shape@.skip(i),
                ) <= usize::MAX by {
                    if i == 0 {
                        assert(shape@.skip(0) =~= shape@);
                        assert(numel(old_shape.skip(0)) <= usize::MAX);
                        assert(old_shape.skip(0) =~= old_shape);
                    } else if i == 1 {
                        assert(shape@.skip(1) =~= seq![s0]);
                    } else {
                        assert(shape@.skip(2) =~= Seq::<usize>::empty());
                    }
                }
            }
        }
        let r = Tensor { data: Rc::clone(&self.data), shape, strides };
        proof {
            assert forall|i: usize, j: usize|
                i < s1 && j < s0 implies #[trigger] r.at2(i, j) == self.at2(j, i) by {
                reveal_with_fuel(offset, 3);
            }
        }
        r
    }

    /// The same elements, in the same row-major order, under a new shape.
    /// A contiguous tensor is reshaped as a view sharing its buffer; any
    /// other is first copied into a contiguous buffer.
    pub fn reshape(&self, shape: &[usize]) -> (r: Self)
        requires
            numel(shape@) == numel(self.spec_shape()),
            shape_fits(shape@),
        ensures
            r.spec_shape() == shape@,
            r.spec_is_contiguous(),
            r.values() == self.values(),
            self.spec_is_contiguous() ==> r.buffer() == self.buffer(),
    {
        proof {
            use_type_invariant(self);
        }
        let data = if self.is_contiguous() {
            proof {
                self.lemma_contiguous_values();
            }
            Rc::clone(&self.data)
        } else {
            Rc::new(self.to_vec())
        };
        let strides = row_major_strides_of(shape);
        proof {
            assert forall|idx: Seq<usize>| #[trigger] in_bounds(idx, shape@) implies offset(
                idx,
                strides@,
            ) < data@.len() by {
                lemma_offset_row_major(idx, shape@);
                lemma_flat_index_bound(idx, shape@);
            }
        }
        let r = Tensor { data, shape: vstd::slice::slice_to_vec(shape), strides };
        proof {
            use_type_invariant(&r);
            r.lemma_contiguous_values();
        }
        r
    }
}

/// `n` copies of `value`.
pub open spec fn repeated<T>(value: T, n: nat) -> Seq<T> {
    Seq::new(n, |j: int| value)
}

/// One step of a scatter: `after` is `before` with the element at `target`
/// replaced by what `combine` returns for it and `value`.
pub open spec fn scatter_step<T, F: Fn(T, T) -> T>(
    before: Seq<T>,
    after: Seq<T>,
    target: usize,
    value: T,
    combine: F,
) -> bool {
    &&& after.len() == before.len()
    &&& target < before.len()
    &&& forall|j: int| 0 <= j < before.len() && j != target ==> #[trigger] after[j] == before[j]
    &&& call_ensures(combine, (before[target as int], value), after[target as int])
}

/// `trace` lists the states of a scatter from `init` through its first `k`
/// steps, step `i` adding `values[i]` into position `targets[i]`.
pub open spec fn is_scatter_prefix<T, F: Fn(T, T) -> T>(
    trace: Seq<Seq<T>>,
    init: Seq<T>,
    targets: Seq<usize>,
    values: Seq<T>,
    combine: F,
    k: nat,
) -> bool {
    &&& trace.len() == k + 1
    &&& trace[0] == init
    &&& forall|i: int|
        #![trigger targets[i]]
        0 <= i < k ==> scatter_step(trace[i], trace[i + 1], targets[i], values[i], combine)
}

/// `trace` lists the states of the whole scatter of `values` into
/// `targets`, in order, from `init`.
pub open spec fn is_scatter_trace<T, F: Fn(T, T) -> T>(
    trace: Seq<Seq<T>>,
    init: Seq<T>,
    targets: Seq<usize>,
    values: Seq<T>,
    combine: F,
) -> bool {
    is_scatter_prefix(trace, init, targets, values, combine, targets.len())
}

/// Adds `values[i]` into position `targets[i]` of `init` with `combine`, for
/// `i` in order: the accumulation that sends a gradient back through a
/// gather.
pub fn scatter_accumulate<T: Copy, F: Fn(T, T) -> T>(
    init: Vec<T>,
    targets: &[usize],
    values: &[T],
    combine: F,
) -> (out: Vec<T>)
    requires
        targets@.len() == values@.len(),
        forall|i: int| 0 <= i < targets@.len() ==> #[trigger] targets@[i] < init@.len(),
        forall|a: T, b: T| call_requires(combine, (a, b)),
    ensures
        exists|trace: Seq<Seq<T>>|
            is_scatter_trace(trace, init@, targets@, values@, combine) && trace.last() == out@,
{
    let mut out = init;
    let ghost init_seq = out@;
    let ghost trace: Seq<Seq<T>> = seq![out@];
    let n = targets.len();
    let mut k: usize = 0;
    while k < n
        invariant
            n == targets@.len() == values@.len(),
            k <= n,
            out@.len() == init_seq.len(),
            forall|i: int| 0 <= i < targets@.len() ==> #[trigger] targets@[i] < init_seq.len(),
            forall|a: T, b: T| call_requires(combine, (a, b)),
            is_scatter_prefix(trace, init_seq, targets@, values@, combine, k as nat),
            trace.last() == out@,
        decreases n - k,
    {
        let t = targets[k];
        let ghost before = out@;
        let x = out[t];
        let y = combine(x, values[k]);
        out.set(t, y);
        proof {
            let old_trace = trace;
            trace = trace.push(out@);
            assert(scatter_step(before, out@, t, values@[k as int], combine));
            assert forall|i: int|
                #![trigger targets@[i]]
                0 <= i < k + 1 implies scatter_step(trace[i], trace[i + 1], targets@[i], values@[i], combine) by {
                if i < k {
                    assert(trace[i] == old_trace[i]);
                    assert(trace[i + 1] == old_trace[i + 1]);
                }
            }
        }
        k = k + 1;
    }
    out
}

/// A scatter keeps the length of what it accumulates into.
pub proof fn lemma_scatter_keeps_length<T, F: Fn(T, T) -> T>(
    trace: Seq<Seq<T>>,
    init: Seq<T>,
    targets: Seq<usize>,
    values: Seq<T>,
    combine: F,
)
    requires
        is_scatter_trace(trace, init, targets, values, combine),
    ensures
        trace.last().len() == init.len(),
{
    let n = targets.len();
    assert forall|k: int| 0 <= k <= n implies #[trigger] trace[k].len() == init.len() by {
        lemma_scatter_prefix_length(trace, init, targets, values, combine, k);
    }
}

proof fn lemma_scatter_prefix_length<T, F: Fn(T, T) -> T>(
    trace: Seq<Seq<T>>,
    init: Seq<T>,
    targets: Seq<usize>,
    values: Seq<T>,
    combine: F,
    k: int,
)
    requires
        is_scatter_trace(trace, init, targets, values, combine),
        0 <= k <= targets.len(),
    ensures
        trace[k].len() == init.len(),
    decreases k,
{
    if k > 0 {
        lemma_scatter_prefix_length(trace, init, targets, values, combine, k - 1);
        assert(scatter_step(trace[k - 1], trace[k - 1 + 1], targets[k - 1], values[k - 1], combine));
    }
}

} // verus!
