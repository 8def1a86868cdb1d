//! A dense, row-major tensor of dynamic rank, and the arithmetic of its shape.
use vstd::prelude::*;

verus! {

/// Number of elements in a tensor of the given shape: the product of the axis lengths.
pub open spec fn volume(shape: Seq<usize>) -> nat
    decreases shape.len(),
{
    if shape.len() == 0 {
        1
    } else {
        volume(shape.drop_last()) * (shape.last() as nat)
    }
}

/// Row-major offset of element `(i, k)` in a matrix with rows of length `h`.
pub open spec fn offset2(h: int, i: int, k: int) -> int {
    i * h + k
}

/// Row-major offset of element `(i, j, k)` in a tensor whose trailing axes have
/// lengths `t` and `h`.
pub open spec fn offset3(t: int, h: int, i: int, j: int, k: int) -> int {
    (i * t + j) * h + k
}

/// The mathematical value of a tensor: its shape and its elements in row-major order.
pub struct TensorView<T> {
    pub shape: Seq<usize>,
    pub data: Seq<T>,
}

impl<T> TensorView<T> {
    /// Number of axes.
    pub open spec fn rank(self) -> nat {
        self.shape.len()
    }

    /// The element count agrees with the shape.
    pub open spec fn well_formed(self) -> bool {
        self.data.len() == volume(self.shape)
    }

    /// Element `(i, k)` of a rank-2 tensor.
    pub open spec fn at2(self, i: int, k: int) -> T
        recommends
            self.rank() == 2,
    {
        self.data[offset2(self.shape[1] as int, i, k)]
    }

    /// Element `(i, j, k)` of a rank-3 tensor.
    pub open spec fn at3(self, i: int, j: int, k: int) -> T
        recommends
            self.rank() == 3,
    {
        self.data[offset3(self.shape[1] as int, self.shape[2] as int, i, j, k)]
    }
}

/// An axis of length zero makes the volume zero.
pub proof fn lemma_volume_zero(shape: Seq<usize>, at: int)
    requires
        0 <= at < shape.len(),
        shape[at] == 0,
    ensures
        volume(shape) == 0,
    decreases shape.len(),
{
    if at < shape.len() - 1 {
        lemma_volume_zero(shape.drop_last(), at);
        assert(volume(shape.drop_last()) * (shape.last() as nat) == 0) by (nonlinear_arith)
            requires
                volume(shape.drop_last()) == 0,
        ;
    } else {
        assert(volume(shape.drop_last()) * (shape.last() as nat) == 0) by (nonlinear_arith)
            requires
                shape.last() == 0,
        ;
    }
}

/// With no empty axis, the volume of a prefix of the shape never exceeds the
/// volume of the whole shape.
pub proof fn lemma_volume_prefix(shape: Seq<usize>, n: int)
    requires
        0 <= n <= shape.len(),
        forall|a: int| 0 <= a < shape.len() ==> shape[a] >= 1,
    ensures
        volume(shape.take(n)) <= volume(shape),
    decreases shape.len(),
{
    if n == shape.len() {
        assert(shape.take(n) =~= shape);
    } else {
        let front = shape.drop_last();
        lemma_volume_prefix(front, n);
        assert(front.take(n) =~= shape.take(n));
        assert(volume(front) <= volume(front) * (shape.last() as nat)) by (nonlinear_arith)
            requires
                shape.last() >= 1,
        ;
    }
}

/// The volume of a rank-2 shape.
pub proof fn lemma_volume2(shape: Seq<usize>)
    requires
        shape.len() == 2,
    ensures
        volume(shape) == shape[0] * shape[1],
{
    let s1 = shape.drop_last();
    let s0 = s1.drop_last();
    assert(volume(s0) == 1);
    assert(volume(s1) == volume(s0) * (s1.last() as nat));
    assert(volume(shape) == volume(s1) * (shape.last() as nat));
    assert(1 * (shape[0] as nat) * (shape[1] as nat) == shape[0] * shape[1]) by (nonlinear_arith);
}

/// The volume of a rank-3 shape.
pub proof fn lemma_volume3(shape: Seq<usize>)
    requires
        shape.len() == 3,
    ensures
        volume(shape) == shape[0] * shape[1] * shape[2],
{
    let s2 = shape.drop_last();
    lemma_volume2(s2);
    assert(volume(shape) == volume(s2) * (shape.last() as nat));
}

/// Computes the volume of `shape`, or reports that it does not fit in `usize`.
pub fn shape_volume(shape: &Vec<usize>) -> (r: Option<usize>)
    ensures
        match r {
            Some(n) => n == volume(shape@),
            None => volume(shape@) > usize::MAX,
        },
{
    let rank: usize = shape.len();
    let mut z: usize = 0;
    while z < rank
        invariant
            rank == shape@.len(),
            z <= rank,
            forall|a: int| 0 <= a < z ==> shape@[a] >= 1,
        decreases rank - z,
    {
        if shape[z] == 0 {
            proof {
                lemma_volume_zero(shape@, z as int);
            }
            return Some(0);
        }
        z += 1;
    }
    let mut acc: usize = 1;
    let mut n: usize = 0;
    while n < rank
        invariant
            rank == shape@.len(),
            n <= rank,
            forall|a: int| 0 <= a < rank ==> shape@[a] >= 1,
            acc == volume(shape@.take(n as int)),
        decreases rank - n,
    {
        proof {
            assert(shape@.take(n + 1).drop_last() =~= shape@.take(n as int));
            assert(shape@.take(n + 1).last() == shape@[n as int]);
        }
        match acc.checked_mul(shape[n]) {
            Some(next) => {
                acc = next;
            },
            None => {
                proof {
                    lemma_volume_prefix(shape@, n + 1);
                }
                return None;
            },
        }
        n += 1;
    }
    proof {
        assert(shape@.take(rank as int) =~= shape@);
    }
    Some(acc)
}

/// Appends `len` elements of `src`, starting at `start`, to `out`.
pub(crate) fn extend_from_range<T: Copy>(out: &mut Vec<T>, src: &Vec<T>, start: usize, len: usize)
    requires
        start + len <= src@.len(),
    ensures
        final(out)@ == old(out)@ + src@.subrange(start as int, start + len),
{
    let total: usize = src.len();
    let mut n: usize = 0;
    while n < len
        invariant
            n <= len,
            start + len <= src@.len(),
            src@.len() == total,
            out@ == old(out)@ + src@.subrange(start as int, start + n),
        decreases len - n,
    {
        let x: T = src[start + n];
        out.push(x);
        n += 1;
        assert(out@ =~= old(out)@ + src@.subrange(start as int, start + n));
    }
}

/// A dense tensor: its axis lengths, and its elements in row-major order.
///
/// Every value holds exactly as many elements as its shape asks for.
#[derive(Debug, PartialEq)]
pub struct Tensor<T> {
    shape: Vec<usize>,
    data: Vec<T>,
}

impl<T> View for Tensor<T> {
    type V = TensorView<T>;

    closed spec fn view(&self) -> TensorView<T> {
        TensorView { shape: self.shape@, data: self.data@ }
    }
}

impl<T> Tensor<T> {
    #[verifier::type_invariant]
    spec fn consistent(&self) -> bool {
        self.data@.len() == volume(self.shape@)
    }

    /// Builds a tensor from its shape and its elements in row-major order.
    /// Succeeds exactly when the number of elements is the volume of the shape.
    pub fn from_shape_vec(shape: Vec<usize>, data: Vec<T>) -> (r: Option<Tensor<T>>)
        ensures
            r.is_some() <==> data@.len() == volume(shape@),
            r matches Some(t) ==> t@.shape == shape@ && t@.data == data@ && t@.well_formed(),
    {
        let count: usize = data.len();
        match shape_volume(&shape) {
            Some(n) => {
                if n == count {
                    Some(Tensor { shape, data })
                } else {
                    None
                }
            },
            None => None,
        }
    }

    /// Builds a tensor whose parts are known to agree.
    pub(crate) fn from_parts(shape: Vec<usize>, data: Vec<T>) -> (r: Tensor<T>)
        requires
            data@.len() == volume(shape@),
        ensures
            r@.shape == shape@,
            r@.data == data@,
            r@.well_formed(),
    {
        Tensor { shape, data }
    }

    /// Number of axes.
    pub fn ndim(&self) -> (r: usize)
        ensures
            r == self@.rank(),
    {
        self.shape.len()
    }

    /// The axis lengths.
    pub fn shape(&self) -> (r: &Vec<usize>)
        ensures
            r@ == self@.shape,
    {
        &self.shape
    }

    /// The elements in row-major order.
    pub fn data(&self) -> (r: &Vec<T>)
        ensures
            r@ == self@.data,
            self@.well_formed(),
    {
        proof {
            use_type_invariant(self);
        }
        &self.data
    }

    /// Number of elements.
    pub fn len(&self) -> (r: usize)
        ensures
            r == self@.data.len(),
            r == volume(self@.shape),
    {
        proof {
            use_type_invariant(self);
        }
        self.data.len()
    }

    /// Gives the elements back, in row-major order.
    pub fn into_raw_vec(self) -> (r: Vec<T>)
        ensures
            r@ == self@.data,
    {
        self.data
    }
}

impl<T: Copy> Clone for Tensor<T> {
    fn clone(&self) -> (r: Self)
        ensures
            r@ == self@,
    {
        proof {
            use_type_invariant(self);
        }
        let mut shape: Vec<usize> = Vec::new();
        extend_from_range(&mut shape, &self.shape, 0, self.shape.len());
        let mut data: Vec<T> = Vec::new();
        extend_from_range(&mut data, &self.data, 0, self.data.len());
        proof {
            assert(shape@ =~= self.shape@);
            assert(data@ =~= self.data@);
        }
        Tensor { shape, data }
    }
}

} // verus!
