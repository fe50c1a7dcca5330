//! Sizes of device buffers, computed from tensor shapes.

use vstd::prelude::*;
use burn::tensor::Shape;

verus! {

/// Product of all dimensions, taken left to right.
pub open spec fn product_of(dims: Seq<usize>) -> nat
    decreases dims.len(),
{
    if dims.len() == 0 {
        1
    } else {
        product_of(dims.drop_last()) * (dims.last() as nat)
    }
}

/// Every running product over a prefix of `dims` is representable as `usize`.
pub open spec fn products_fit(dims: Seq<usize>) -> bool {
    forall|k: int| 0 <= k <= dims.len() ==> #[trigger] product_of(dims.take(k)) <= usize::MAX
}

/// Number of bytes of a buffer that holds a tensor of shape `dims` with
/// elements of `elem_size` bytes each.
pub open spec fn bytes_of(dims: Seq<usize>, elem_size: usize) -> nat {
    product_of(dims) * (elem_size as nat)
}

pub proof fn lemma_product_step(dims: Seq<usize>, k: int)
    requires
        0 <= k < dims.len(),
    ensures
        product_of(dims.take(k + 1)) == product_of(dims.take(k)) * (dims[k] as nat),
{
    assert(dims.take(k + 1).drop_last() =~= dims.take(k));
}

/// Calls `burn::tensor::Shape::new` and then `Shape::num_elements`, which
/// multiplies the dimensions one after another starting from one. The contract
/// claims that the result is that product; inputs on which a running product
/// would overflow are left out.
#[verifier::external_body]
fn shape_num_elements<const D: usize>(dims: [usize; D]) -> (n: usize)
    requires
        products_fit(dims@),
    ensures
        n == product_of(dims@),
{
    Shape::new(dims).num_elements()
}

/// Size in bytes of the buffer reserved for a tensor of the given shape.
pub fn buffer_size<const D: usize>(shape: [usize; D], elem_size: usize) -> (bytes: usize)
    requires
        products_fit(shape@),
        bytes_of(shape@, elem_size) <= usize::MAX,
    ensures
        bytes == bytes_of(shape@, elem_size),
{
    let count = shape_num_elements(shape);
    count * elem_size
}

/// Size in bytes of the buffer for a tensor of the given shape, or `None`
/// where that size, or a running product on the way to it, exceeds `usize`.
pub fn checked_buffer_size<const D: usize>(shape: [usize; D], elem_size: usize) -> (bytes: Option<
    usize,
>)
    ensures
        bytes.is_some() <==> products_fit(shape@) && bytes_of(shape@, elem_size) <= usize::MAX,
        bytes.is_some() ==> bytes.unwrap() == bytes_of(shape@, elem_size),
{
    let mut acc: usize = 1;
    let mut i: usize = 0;
    assert(shape@.take(0) =~= Seq::<usize>::empty());
    while i < D
        invariant
            0 <= i <= D,
            D == shape@.len(),
            acc == product_of(shape@.take(i as int)),
            forall|k: int| 0 <= k <= i ==> #[trigger] product_of(shape@.take(k)) <= usize::MAX,
        decreases D - i,
    {
        proof {
            lemma_product_step(shape@, i as int);
        }
        match acc.checked_mul(shape[i]) {
            Some(next) => {
                acc = next;
            },
            None => {
                assert(!products_fit(shape@)) by {
                    assert(product_of(shape@.take(i + 1)) > usize::MAX);
                }
                return None;
            },
        }
        i += 1;
    }
    assert(shape@.take(D as int) =~= shape@);
    match acc.checked_mul(elem_size) {
        Some(_) => Some(buffer_size(shape, elem_size)),
        None => None,
    }
}

} // verus!
