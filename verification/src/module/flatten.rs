//! `Flatten`: `[B, ...]` to `[B, prod(...)]` and back.

use vstd::prelude::*;

use crate::layout::{lemma_numel_step, numel, numel_of, shape_fits};
use crate::tensor::Tensor;

verus! {

/// The shape `[s[0], s[1] * ... * s[n-1]]` that `Flatten` gives a batch of
/// shape `s`.
pub open spec fn flattened_shape(s: Seq<usize>) -> Seq<usize> {
    seq![s[0], numel(s.drop_first()) as usize]
}

/// Reshapes `[B, ...]` to `[B, prod(...)]`, so a convolution's
/// `[B, C, H, W]` output can feed a fully connected layer's `[B, F]`
/// input, and reshapes the gradient back on the way down. Both directions
/// are views on the same buffer when the input is contiguous.
pub struct Flatten {
    input_shape: Option<Vec<usize>>,
}

impl Flatten {
    #[verifier::type_invariant]
    spec fn well_formed(self) -> bool {
        match self.input_shape {
            Some(s) => shape_fits(s@),
            None => true,
        }
    }

    /// The shape of the input seen by the last `forward`, if any.
    pub closed spec fn cached_shape(self) -> Option<Seq<usize>> {
        match self.input_shape {
            Some(s) => Some(s@),
            None => None,
        }
    }

    /// A layer that has not seen an input yet.
    pub fn new() -> (f: Self)
        ensures
            f.cached_shape() is None,
    {
        Flatten { input_shape: None }
    }

    /// The shape of the input seen by the last `forward`, if any.
    pub fn input_shape(&self) -> (s: Option<&[usize]>)
        ensures
            s is Some <==> self.cached_shape() is Some,
            s matches Some(v) ==> self.cached_shape() == Some(v@),
    {
        match &self.input_shape {
            Some(v) => Some(v.as_slice()),
            None => None,
        }
    }

    /// Remembers the input's shape and returns the input viewed as
    /// `[B, F]`, with its elements in the same row-major order.
    pub fn forward<T: Copy>(&mut self, input: Tensor<T>) -> (out: Tensor<T>)
        requires
            input.spec_shape().len() >= 1,
        ensures
            final(self).cached_shape() == Some(input.spec_shape()),
            out.spec_shape() == flattened_shape(input.spec_shape()),
            out.values() == input.values(),
            out.spec_is_contiguous(),
            input.spec_is_contiguous() ==> out.buffer() == input.buffer(),
    {
        let shape = input.shape();
        let ghost s = shape@;
        let batch = shape[0];
        let tail = vstd::slice::slice_subrange(shape, 1, shape.len());
        proof {
            assert(tail@ =~= s.skip(1));
            assert(s.skip(1) =~= s.drop_first());
            assert(shape_fits(tail@)) by {
                assert forall|i: int| 0 <= i <= tail@.len() implies #[trigger] numel(tail@.skip(i))
                    <= usize::MAX by {
                    assert(tail@.skip(i) =~= s.skip(i + 1));
                }
            }
        }
        let rest = numel_of(tail);
        let new_shape = [batch, rest];
        proof {
            lemma_numel_step(s, 0);
            assert(s.skip(0) =~= s);
            reveal_with_fuel(numel, 3);
            assert(new_shape@ =~= flattened_shape(s));
            assert(numel(new_shape@) == numel(s));
            assert(shape_fits(new_shape@)) by {
                assert forall|i: int| 0 <= i <= new_shape@.len() implies #[trigger] numel(
                    new_shape@.skip(i),
                ) <= usize::MAX by {
                    if i == 0 {
                        assert(new_shape@.skip(0) =~= new_shape@);
                    } else if i == 1 {
                        assert(new_shape@.skip(1) =~= seq![rest]);
                    } else {
                        assert(new_shape@.skip(2) =~= Seq::<usize>::empty());
                    }
                }
            }
        }
        let out = input.reshape(&new_shape);
        self.input_shape = Some(vstd::slice::slice_to_vec(shape));
        out
    }

    /// Views the gradient with respect to the output back in the shape of
    /// the input that `forward` last saw.
    pub fn backward<T: Copy>(&mut self, grad_output: Tensor<T>) -> (grad_input: Tensor<T>)
        requires
            old(self).cached_shape() is Some,
            numel(grad_output.spec_shape()) == numel(old(self).cached_shape()->0),
        ensures
            final(self).cached_shape() == old(self).cached_shape(),
            grad_input.spec_shape() == old(self).cached_shape()->0,
            grad_input.values() == grad_output.values(),
            grad_input.spec_is_contiguous(),
            grad_output.spec_is_contiguous() ==> grad_input.buffer() == grad_output.buffer(),
    {
        proof {
            use_type_invariant(&*self);
        }
        match &self.input_shape {
            Some(s) => grad_output.reshape(s.as_slice()),
            None => grad_output,
        }
    }
}

impl Default for Flatten {
    fn default() -> (f: Self)
        ensures
            f.cached_shape() is None,
    {
        Flatten::new()
    }
}

/// `Flatten` keeps the element count, so the gradient of the flattened
/// output is always accepted back by `backward`.
pub proof fn lemma_flatten_keeps_numel(s: Seq<usize>)
    requires
        s.len() >= 1,
        shape_fits(s),
    ensures
        numel(flattened_shape(s)) == numel(s),
        flattened_shape(s).len() == 2,
{
    lemma_numel_step(s, 0);
    assert(s.skip(0) =~= s);
    assert(s.skip(1) =~= s.drop_first());
    assert(numel(s.skip(1)) <= usize::MAX);
    reveal_with_fuel(numel, 3);
}

/// Flattening and then unflattening the gradient of the flattened output
/// gives back a tensor of the input's shape holding the input's values.
pub proof fn lemma_flatten_round_trip<T>(
    input: Tensor<T>,
    out: Tensor<T>,
    back: Tensor<T>,
)
    requires
        input.spec_shape().len() >= 1,
        out.spec_shape() == flattened_shape(input.spec_shape()),
        out.values() == input.values(),
        back.spec_shape() == input.spec_shape(),
        back.values() == out.values(),
    ensures
        back.spec_shape() == input.spec_shape(),
        back.values() == input.values(),
        numel(out.spec_shape()) == numel(input.spec_shape()),
{
    out.lemma_values_len();
    input.lemma_values_len();
}

} // verus!
