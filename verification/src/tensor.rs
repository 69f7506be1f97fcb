use vstd::prelude::*;
use ndarray_rand::RandomExt;

verus! {

/// Upper bound on the element count of any materialized tensor: an array that
/// exists in memory never holds more elements than this.
pub const SIZE_LIMIT: usize = 0x7fff_ffff;

/// Product of the extents of a shape: the element count of a tensor of that shape.
pub open spec fn shape_product(s: Seq<usize>) -> int
    decreases s.len(),
{
    if s.len() == 0 {
        1
    } else {
        s[0] * shape_product(s.drop_first())
    }
}

/// Product of the nonzero extents of a shape. This is the quantity ndarray's
/// own shape check multiplies, so a tensor can only be constructed when it is
/// within bounds, even when a zero extent makes the element count 0.
pub open spec fn nonzero_shape_product(s: Seq<usize>) -> int
    decreases s.len(),
{
    if s.len() == 0 {
        1
    } else if s[0] == 0 {
        nonzero_shape_product(s.drop_first())
    } else {
        s[0] * nonzero_shape_product(s.drop_first())
    }
}

/// Numeric payload of a tensor, opaque to the verifier: an n-dimensional array
/// of the outside crate. Everything the library states about tensors is stated
/// over the plain `shape` field of `Tensor`, which the trusted tensor functions
/// keep equal to the real shape of this array.
#[verifier::external_body]
#[verifier::reject_recursive_types(A)]
pub struct Payload<A> {
    arr: ndarray::ArrayD<A>,
}

/// An n-dimensional numeric tensor. The element data is opaque to the verifier;
/// the shape is a plain vector of extents, one per axis, and is what the view
/// of a tensor exposes.
#[verifier::reject_recursive_types(A)]
pub struct Tensor<A> {
    shape: Vec<usize>,
    payload: Payload<A>,
}

impl<A> View for Tensor<A> {
    type V = Seq<usize>;

    closed spec fn view(&self) -> Seq<usize> {
        self.shape@
    }
}

impl<A> Tensor<A> {
    /// A tensor that exists in memory holds at most `SIZE_LIMIT` elements.
    pub open spec fn wf(&self) -> bool {
        shape_product(self@) <= SIZE_LIMIT
    }

    /// The extents of the tensor, one per axis.
    pub fn shape(&self) -> (r: &Vec<usize>)
        ensures
            r@ == self@,
    {
        &self.shape
    }
}

/// Relies on ndarray's `Array::zeros`: a one-axis array of `n` zero elements.
#[verifier::external_body]
pub fn zeros<A: num_traits::Zero + Clone>(n: usize) -> (r: Tensor<A>)
    requires
        n <= SIZE_LIMIT,
    ensures
        r@ == seq![n],
        r.wf(),
{
    let arr = ndarray::ArrayD::zeros(ndarray::IxDyn(&[n]));
    Tensor { shape: vec![n], payload: Payload { arr } }
}

/// Relies on ndarray_rand's `RandomExt::random` with rand_distr's
/// `StandardNormal`: a freshly sampled `rows` by `cols` matrix. Nothing is
/// assumed of the sampled values, which differ from call to call.
#[verifier::external_body]
pub fn random_standard_normal<A>(rows: usize, cols: usize) -> (r: Tensor<A>) where
    ndarray_rand::rand_distr::StandardNormal: ndarray_rand::rand::distr::Distribution<A>,

    requires
        1 <= rows,
        1 <= cols,
        rows * cols <= SIZE_LIMIT,
    ensures
        r@ == seq![rows, cols],
        r.wf(),
{
    let arr = ndarray::ArrayD::random(
        ndarray::IxDyn(&[rows, cols]),
        ndarray_rand::rand_distr::StandardNormal,
    );
    Tensor { shape: vec![rows, cols], payload: Payload { arr } }
}

/// Relies on num_traits' `Float` arithmetic: the scalar `1 / sqrt(n)`, the
/// variance-preserving scale applied to freshly sampled weights.
#[verifier::external_body]
pub fn recip_sqrt<A: num_traits::Float>(n: usize) -> A {
    A::one() / A::from(n).unwrap().sqrt()
}

/// Relies on ndarray's `mapv` and scalar multiplication: every element of `t`
/// multiplied by `s`; the shape is kept.
#[verifier::external_body]
pub fn scale<A: ndarray::LinalgScalar>(t: &Tensor<A>, s: A) -> (r: Tensor<A>)
    ensures
        r@ == t@,
{
    let arr = t.payload.arr.mapv(|v| v * s);
    Tensor { shape: t.shape.clone(), payload: Payload { arr } }
}

/// Relies on ndarray's elementwise subtraction of two same-shaped arrays.
#[verifier::external_body]
pub fn sub_same<A: ndarray::LinalgScalar>(a: &Tensor<A>, b: &Tensor<A>) -> (r: Tensor<A>)
    requires
        a@ == b@,
    ensures
        r@ == a@,
{
    let arr = &a.payload.arr - &b.payload.arr;
    Tensor { shape: a.shape.clone(), payload: Payload { arr } }
}

/// Relies on ndarray's elementwise addition of two same-shaped arrays.
#[verifier::external_body]
pub fn add_same<A: ndarray::LinalgScalar>(a: &Tensor<A>, b: &Tensor<A>) -> (r: Tensor<A>)
    requires
        a@ == b@,
    ensures
        r@ == a@,
{
    let arr = &a.payload.arr + &b.payload.arr;
    Tensor { shape: a.shape.clone(), payload: Payload { arr } }
}

/// Relies on ndarray's broadcasting addition: the one-axis array `b` added to
/// every row of the matrix `a`.
#[verifier::external_body]
pub fn add_row<A: ndarray::LinalgScalar>(a: &Tensor<A>, b: &Tensor<A>) -> (r: Tensor<A>)
    requires
        a@.len() == 2,
        b@.len() == 1,
        b@[0] == a@[1],
    ensures
        r@ == a@,
{
    let arr = &a.payload.arr + &b.payload.arr;
    Tensor { shape: a.shape.clone(), payload: Payload { arr } }
}

/// Relies on ndarray's `dot` for two-axis arrays: the matrix product.
#[verifier::external_body]
pub fn matmul<A: ndarray::LinalgScalar>(a: &Tensor<A>, b: &Tensor<A>) -> (r: Tensor<A>)
    requires
        a@.len() == 2,
        b@.len() == 2,
        a@[1] == b@[0],
        a@[0] * b@[1] <= SIZE_LIMIT,
    ensures
        r@ == seq![a@[0], b@[1]],
        r.wf(),
{
    let am = a.payload.arr.view().into_dimensionality::<ndarray::Ix2>().unwrap();
    let bm = b.payload.arr.view().into_dimensionality::<ndarray::Ix2>().unwrap();
    let c = am.dot(&bm);
    let shape = vec![a.shape[0], b.shape[1]];
    Tensor { shape, payload: Payload { arr: c.into_dyn() } }
}

/// Relies on ndarray's `t`: the two-axis array with its axes swapped.
#[verifier::external_body]
pub fn transpose<A: Clone>(a: &Tensor<A>) -> (r: Tensor<A>)
    requires
        a@.len() == 2,
    ensures
        r@ == seq![a@[1], a@[0]],
{
    let arr = a.payload.arr.t().to_owned();
    Tensor { shape: vec![a.shape[1], a.shape[0]], payload: Payload { arr } }
}

/// Relies on ndarray's `sum_axis`: the column sums of a two-axis array.
#[verifier::external_body]
pub fn sum_axis0<A: ndarray::LinalgScalar>(a: &Tensor<A>) -> (r: Tensor<A>)
    requires
        a@.len() == 2,
    ensures
        r@ == seq![a@[1]],
{
    let arr = a.payload.arr.sum_axis(ndarray::Axis(0));
    Tensor { shape: vec![a.shape[1]], payload: Payload { arr } }
}

/// Relies on ndarray's `sum`: the sum of all elements, as a zero-axis tensor.
#[verifier::external_body]
pub fn sum_all<A: ndarray::LinalgScalar>(a: &Tensor<A>) -> (r: Tensor<A>)
    ensures
        r@ == Seq::<usize>::empty(),
        r.wf(),
{
    let s = a.payload.arr.sum();
    let arr = ndarray::arr0(s).into_dyn();
    Tensor { shape: Vec::new(), payload: Payload { arr } }
}

/// Relies on ndarray's `broadcast`: the zero-axis tensor `t` repeated into the
/// shape of `target`. A zero-axis array broadcasts to every shape.
#[verifier::external_body]
pub fn broadcast_like<A: Clone>(t: &Tensor<A>, target: &Tensor<A>) -> (r: Tensor<A>)
    requires
        t@.len() == 0,
    ensures
        r@ == target@,
{
    let v = t.payload.arr.broadcast(target.payload.arr.raw_dim()).unwrap();
    Tensor { shape: target.shape.clone(), payload: Payload { arr: v.to_owned() } }
}

/// Relies on ndarray's `Clone` for arrays: an equal-shaped copy.
#[verifier::external_body]
pub fn clone_of<A: Clone>(t: &Tensor<A>) -> (r: Tensor<A>)
    ensures
        r@ == t@,
{
    Tensor { shape: t.shape.clone(), payload: Payload { arr: t.payload.arr.clone() } }
}

/// Relies on ndarray's `Array::ones`: a tensor of ones with the shape of `t`,
/// the multiplicative-identity seed for backward traversal.
#[verifier::external_body]
pub fn ones_like<A: Clone + num_traits::One>(t: &Tensor<A>) -> (r: Tensor<A>)
    ensures
        r@ == t@,
{
    let arr = ndarray::ArrayD::ones(t.payload.arr.raw_dim());
    Tensor { shape: t.shape.clone(), payload: Payload { arr } }
}

/// Relies on ndarray's `from_shape_vec`: a tensor holding exactly the given
/// elements in row-major order under the given shape. ndarray checks the
/// product of the nonzero extents, so that product must be in bounds too.
#[verifier::external_body]
pub fn from_vec<A>(shape: Vec<usize>, data: Vec<A>) -> (r: Tensor<A>)
    requires
        shape_product(shape@) == data@.len(),
        nonzero_shape_product(shape@) <= SIZE_LIMIT,
    ensures
        r@ == shape@,
        r.wf(),
{
    let arr = ndarray::ArrayD::from_shape_vec(ndarray::IxDyn(&shape), data).unwrap();
    Tensor { shape, payload: Payload { arr } }
}

/// Relies on ndarray's element iterator: the elements in row-major order.
#[verifier::external_body]
pub fn to_vec<A: Clone>(t: &Tensor<A>) -> (r: Vec<A>)
    ensures
        r@.len() == shape_product(t@),
{
    t.payload.arr.iter().cloned().collect()
}

} // verus!
