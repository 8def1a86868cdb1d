//! The two reductions from per-token embeddings to one vector per sequence.
use vstd::prelude::*;
use crate::tensor::{extend_from_range, lemma_volume2, lemma_volume3, offset2, offset3, Tensor, TensorView};

verus! {

/// Which reduction turns the token embeddings of a sequence into one vector.
#[derive(Debug, Clone, Copy, PartialEq, Eq)]
pub enum Pooling {
    /// The embedding of the first token.
    Cls,
    /// The attention-weighted mean of the token embeddings.
    Mean,
}

impl Default for Pooling {
    /// The default strategy is [`Pooling::Cls`].
    fn default() -> (r: Self)
        ensures
            r == Pooling::Cls,
    {
        Pooling::Cls
    }
}

/// Why a reduction refused its input.
#[derive(Debug, PartialEq, Eq)]
pub enum PoolingError {
    /// The embeddings have neither two nor three axes; `shape` is the offending shape.
    InvalidShape { shape: Vec<usize> },
    /// The mask cannot be spread over the embeddings.
    ShapeMismatch { embeddings: Vec<usize>, mask: Vec<usize> },
}

/// A row `r` that precedes row `bound` ends before `bound` begins.
proof fn lemma_row_bound(r: int, bound: int, h: int, k: int)
    requires
        0 <= r < bound,
        0 <= k < h,
    ensures
        0 <= r * h + k < bound * h,
        r * h + h <= bound * h,
{
    assert(r * h + h == (r + 1) * h) by (nonlinear_arith);
    assert((r + 1) * h <= bound * h) by (nonlinear_arith)
        requires
            r + 1 <= bound,
            0 <= h,
    ;
    assert(0 <= r * h) by (nonlinear_arith)
        requires
            0 <= r,
            0 <= h,
    ;
}

/// `out` holds, for every sequence of `input`, the embedding of its first token.
pub open spec fn is_first_token<T>(input: TensorView<T>, out: TensorView<T>) -> bool {
    &&& out.shape == seq![input.shape[0], input.shape[2]]
    &&& out.well_formed()
    &&& forall|i: int, k: int|
        0 <= i < input.shape[0] && 0 <= k < input.shape[2] ==> #[trigger] out.at2(i, k)
            == input.at3(i, 0, k)
}

fn copy_shape(shape: &Vec<usize>) -> (r: Vec<usize>)
    ensures
        r@ == shape@,
{
    let mut r: Vec<usize> = Vec::new();
    extend_from_range(&mut r, shape, 0, shape.len());
    assert(r@ =~= shape@);
    r
}

/// Reduces token embeddings to the embedding of the first token.
///
/// A rank-2 tensor `(batch, hidden)` counts as already reduced and comes back as an
/// equal copy. A rank-3 tensor `(batch, tokens, hidden)` gives the `(batch, hidden)`
/// tensor of the vectors at token 0. Any other rank is refused with the shape.
pub fn cls<T: Copy>(tensor: &Tensor<T>) -> (r: Result<Tensor<T>, PoolingError>)
    requires
        tensor@.rank() == 3 ==> tensor@.shape[1] >= 1,
    ensures
        tensor@.rank() == 2 ==> (r matches Ok(out) && out@ == tensor@),
        tensor@.rank() == 3 ==> (r matches Ok(out) && is_first_token(tensor@, out@)),
        tensor@.rank() != 2 && tensor@.rank() != 3 ==> (r matches Err(
            PoolingError::InvalidShape { shape },
        ) && shape@ == tensor@.shape),
{
    let rank: usize = tensor.ndim();
    if rank == 2 {
        Ok(tensor.clone())
    } else if rank == 3 {
        Ok(first_token(tensor))
    } else {
        Err(PoolingError::InvalidShape { shape: copy_shape(tensor.shape()) })
    }
}

/// Entry `(p, q)` of the reduced data is entry `(p, 0, q)` of the token embeddings.
spec fn picked<T>(out: Seq<T>, data: Seq<T>, t: int, h: int, p: int, q: int) -> bool {
    out[offset2(h, p, q)] == data[offset3(t, h, p, 0, q)]
}

/// The rank-3 path of [`cls`]: the vectors at token 0.
fn first_token<T: Copy>(tensor: &Tensor<T>) -> (out: Tensor<T>)
    requires
        tensor@.rank() == 3,
        tensor@.shape[1] >= 1,
    ensures
        is_first_token(tensor@, out@),
{
    let dims: &Vec<usize> = tensor.shape();
    let data: &Vec<T> = tensor.data();
    let b: usize = dims[0];
    let t: usize = dims[1];
    let h: usize = dims[2];
    let count: usize = data.len();
    proof {
        lemma_volume3(dims@);
    }
    let mut shape: Vec<usize> = Vec::new();
    shape.push(b);
    shape.push(h);
    let mut out: Vec<T> = Vec::new();
    let mut i: usize = 0;
    // Without features there is nothing to copy, and `b * t` need not fit.
    while h > 0 && i < b
        invariant
            i <= b,
            t >= 1,
            count == data@.len(),
            count == b * t * h,
            out@.len() == i * h,
            forall|p: int, q: int|
                0 <= p < i && 0 <= q < h ==> #[trigger] picked(out@, data@, t as int, h as int, p, q),
        decreases b - i,
    {
        proof {
            assert(i * t + 1 <= b * t) by (nonlinear_arith)
                requires
                    i + 1 <= b,
                    t >= 1,
            ;
            lemma_row_bound(i * t, b * t, h as int, 0);
            assert(i * t <= i * t * h) by (nonlinear_arith)
                requires
                    h >= 1,
            ;
        }
        let start: usize = i * t * h;
        let ghost before = out@;
        extend_from_range(&mut out, data, start, h);
        proof {
            assert((i + 1) * h == i * h + h) by (nonlinear_arith);
            assert forall|p: int, q: int| 0 <= p < i + 1 && 0 <= q < h implies #[trigger] picked(
                out@,
                data@,
                t as int,
                h as int,
                p,
                q,
            ) by {
                if p < i {
                    lemma_row_bound(p, i as int, h as int, q);
                    assert(picked(before, data@, t as int, h as int, p, q));
                } else {
                    assert(offset2(h as int, p, q) == before.len() + q);
                    assert(offset3(t as int, h as int, p, 0, q) == start + q);
                }
            }
        }
        i += 1;
    }
    proof {
        lemma_volume2(shape@);
        if h == 0 {
            assert(b * h == 0 && i * h == 0) by (nonlinear_arith)
                requires
                    h == 0,
            ;
        }
        assert(shape@ =~= seq![dims@[0], dims@[2]]);
    }
    let result = Tensor::from_parts(shape, out);
    proof {
        assert forall|p: int, q: int| 0 <= p < b && 0 <= q < h implies #[trigger] result@.at2(p, q)
            == tensor@.at3(p, 0, q) by {
            assert(picked(out@, data@, t as int, h as int, p, q));
        }
    }
    result
}

/// The mask can be spread over the embeddings: the embeddings are
/// `(batch, tokens, hidden)`, the mask is `(batch, m)` with the same batch, and
/// `m` is either `tokens` or 1.
pub open spec fn mask_fits<T>(embeddings: TensorView<T>, mask: TensorView<i64>) -> bool {
    &&& embeddings.rank() == 3
    &&& mask.rank() == 2
    &&& mask.shape[0] == embeddings.shape[0]
    &&& (mask.shape[1] == embeddings.shape[1] || mask.shape[1] == 1)
}

/// The weight that `mask` gives to token `j` of sequence `i`, where the
/// embeddings hold `tokens` tokens per sequence: a mask with a single column
/// gives that column's weight to every token.
pub open spec fn mask_weight(mask: TensorView<i64>, tokens: usize, i: int, j: int) -> i64 {
    if mask.shape[1] == tokens {
        mask.at2(i, j)
    } else {
        mask.at2(i, 0)
    }
}

/// `out` has the given rank-3 shape and holds at `(i, j, k)` the weight of token
/// `j` of sequence `i`, whatever the feature `k`.
pub open spec fn is_broadcast_of(out: TensorView<i64>, mask: TensorView<i64>, shape: Seq<usize>) -> bool {
    &&& out.shape == shape
    &&& out.well_formed()
    &&& forall|i: int, j: int, k: int|
        0 <= i < shape[0] && 0 <= j < shape[1] && 0 <= k < shape[2] ==> #[trigger] out.at3(i, j, k)
            == mask_weight(mask, shape[1], i, j)
}

/// Where the mask gives one and the same weight `w` to every token of sequence
/// `i`, the spread mask holds `w` at every entry of sequence `i`: a row of zeros
/// stays all zero, a row of ones all one.
pub proof fn lemma_uniform_row_stays_uniform<T>(
    embeddings: TensorView<T>,
    mask: TensorView<i64>,
    out: TensorView<i64>,
    i: int,
    w: i64,
)
    requires
        mask_fits(embeddings, mask),
        is_broadcast_of(out, mask, embeddings.shape),
        0 <= i < embeddings.shape[0],
        forall|c: int| 0 <= c < mask.shape[1] ==> #[trigger] mask.at2(i, c) == w,
    ensures
        forall|j: int, k: int|
            0 <= j < embeddings.shape[1] && 0 <= k < embeddings.shape[2] ==> #[trigger] out.at3(
                i,
                j,
                k,
            ) == w,
{
    assert forall|j: int, k: int|
        0 <= j < embeddings.shape[1] && 0 <= k < embeddings.shape[2] implies #[trigger] out.at3(
        i,
        j,
        k,
    ) == w by {
        assert(out.at3(i, j, k) == mask_weight(mask, embeddings.shape[1], i, j));
        if mask.shape[1] == embeddings.shape[1] {
            assert(mask.at2(i, j) == w);
        } else {
            assert(mask.at2(i, 0) == w);
        }
    }
}

/// Appends `count` copies of `value` to `out`.
fn push_repeated(out: &mut Vec<i64>, value: i64, count: usize)
    ensures
        final(out)@ == old(out)@ + Seq::new(count as nat, |n: int| value),
{
    let mut n: usize = 0;
    while n < count
        invariant
            n <= count,
            out@ == old(out)@ + Seq::new(n as nat, |n: int| value),
        decreases count - n,
    {
        out.push(value);
        n += 1;
        assert(out@ =~= old(out)@ + Seq::new(n as nat, |n: int| value));
    }
}

/// Entry `(p, q, k)` of the spread data is the weight of token `q` of sequence
/// `p` in a mask with `m` columns.
spec fn spread(out: Seq<i64>, weights: Seq<i64>, t: int, h: int, m: int, p: int, q: int, k: int) -> bool {
    out[offset3(t, h, p, q, k)] == weights[offset2(m, p, if m == t { q } else { 0 })]
}

/// Spreads an attention mask over the shape of the embeddings it belongs to.
///
/// The mask `(batch, tokens)` gets a trailing axis of length 1 and is then
/// repeated along every axis of length 1 until it has the shape
/// `(batch, tokens, hidden)` of the embeddings. The batches of the two must be
/// equal. Where the mask does not fit, the two shapes come back in the error.
pub fn broadcast_mask<T>(embeddings: &Tensor<T>, mask: &Tensor<i64>) -> (r: Result<
    Tensor<i64>,
    PoolingError,
>)
    ensures
        mask_fits(embeddings@, mask@) ==> (r matches Ok(out) && is_broadcast_of(
            out@,
            mask@,
            embeddings@.shape,
        )),
        !mask_fits(embeddings@, mask@) ==> (r matches Err(
            PoolingError::ShapeMismatch { embeddings: e, mask: m },
        ) && e@ == embeddings@.shape && m@ == mask@.shape),
{
    let dims: &Vec<usize> = embeddings.shape();
    let mdims: &Vec<usize> = mask.shape();
    if dims.len() != 3 || mdims.len() != 2 || mdims[0] != dims[0] || (mdims[1] != dims[1]
        && mdims[1] != 1) {
        return Err(
            PoolingError::ShapeMismatch { embeddings: copy_shape(dims), mask: copy_shape(mdims) },
        );
    }
    let weights: &Vec<i64> = mask.data();
    let b: usize = dims[0];
    let t: usize = dims[1];
    let h: usize = dims[2];
    let m: usize = mdims[1];
    let count: usize = embeddings.len();
    let given: usize = weights.len();
    proof {
        lemma_volume3(dims@);
        lemma_volume2(mdims@);
        assert(0 * t * h == 0) by (nonlinear_arith);
    }
    let mut out: Vec<i64> = Vec::new();
    let mut i: usize = 0;
    // Without features there is nothing to write, and `b * t` need not fit.
    while h > 0 && i < b
        invariant
            i <= b,
            m == t || m == 1,
            count == b * t * h,
            given == weights@.len(),
            given == b * m,
            out@.len() == i * t * h,
            forall|p: int, q: int, k: int|
                0 <= p < i && 0 <= q < t && 0 <= k < h ==> #[trigger] spread(
                    out@,
                    weights@,
                    t as int,
                    h as int,
                    m as int,
                    p,
                    q,
                    k,
                ),
        decreases b - i,
    {
        let mut j: usize = 0;
        while j < t
            invariant
                h > 0,
                i < b,
                j <= t,
                m == t || m == 1,
                count == b * t * h,
                given == weights@.len(),
                given == b * m,
                out@.len() == (i * t + j) * h,
                forall|p: int, q: int, k: int|
                    0 <= p < i && 0 <= q < t && 0 <= k < h ==> #[trigger] spread(
                        out@,
                        weights@,
                        t as int,
                        h as int,
                        m as int,
                        p,
                        q,
                        k,
                    ),
                forall|q: int, k: int|
                    0 <= q < j && 0 <= k < h ==> #[trigger] spread(
                        out@,
                        weights@,
                        t as int,
                        h as int,
                        m as int,
                        i as int,
                        q,
                        k,
                    ),
            decreases t - j,
        {
            let col: usize = if m == t { j } else { 0 };
            proof {
                lemma_row_bound(i as int, b as int, m as int, col as int);
            }
            let w: i64 = weights[i * m + col];
            let ghost before = out@;
            push_repeated(&mut out, w, h);
            proof {
                lemma_row_bound(i as int, b as int, t as int, j as int);
                assert((i * t + j + 1) * h == (i * t + j) * h + h) by (nonlinear_arith);
                assert forall|p: int, q: int, k: int|
                    0 <= p < i && 0 <= q < t && 0 <= k < h implies #[trigger] spread(
                    out@,
                    weights@,
                    t as int,
                    h as int,
                    m as int,
                    p,
                    q,
                    k,
                ) by {
                    lemma_row_bound(p, i as int, t as int, q);
                    lemma_row_bound(p * t + q, i * t + j, h as int, k);
                    assert(spread(before, weights@, t as int, h as int, m as int, p, q, k));
                }
                assert forall|q: int, k: int| 0 <= q < j + 1 && 0 <= k < h implies #[trigger] spread(
                    out@,
                    weights@,
                    t as int,
                    h as int,
                    m as int,
                    i as int,
                    q,
                    k,
                ) by {
                    if q < j {
                        lemma_row_bound(i * t + q, i * t + j, h as int, k);
                        assert(spread(before, weights@, t as int, h as int, m as int, i as int, q, k));
                    } else {
                        assert(offset3(t as int, h as int, i as int, q, k) == before.len() + k);
                    }
                }
            }
            j += 1;
        }
        proof {
            assert((i + 1) * t * h == (i * t + t) * h) by (nonlinear_arith);
        }
        i += 1;
    }
    proof {
        if h == 0 {
            assert(b * t * h == 0 && i * t * h == 0) by (nonlinear_arith)
                requires
                    h == 0,
            ;
        }
    }
    let result = Tensor::from_parts(copy_shape(dims), out);
    proof {
        assert forall|p: int, q: int, k: int|
            0 <= p < b && 0 <= q < t && 0 <= k < h implies #[trigger] result@.at3(p, q, k)
            == mask_weight(mask@, t, p, q) by {
            assert(spread(out@, weights@, t as int, h as int, m as int, p, q, k));
        }
    }
    Ok(result)
}

} // verus!
