//! A dense feed-forward network trained by gradient descent.
//!
//! The network is generic over its number type: `Scalar` supplies the
//! arithmetic and `Activation` the activation function and its derivative.
//! Each pass is stated exactly over the spec functions of those traits
//! (`forward_spec`, `back_spec`, `train_spec`); every weight, bias and cached
//! activation keeps the shape that the layer sizes give it, and each pass
//! fails with an error, changing nothing, rather than take mis-sized data.

use crate::activation::Activation;
use crate::matrix::{
    flat,
    lemma_map_cells, scalar_difference, scalar_hadamard, scalar_product, scalar_scale, scalar_sum,
    transpose_spec, Grid, Matrix, Scalar,
};
use crate::training_data::{lemma_shuffle_len, pairs, shuffle_spec, valid_draws, TrainingData};
use vstd::prelude::*;

verus! {

/// Why a network refused its arguments.
#[derive(Debug, Clone, Copy, PartialEq, Eq, Structural)]
pub enum NetworkError {
    /// Fewer than two layers, or a vector whose length is not its layer's
    /// size, or a backward pass without a forward pass before it.
    InvalidShape,
    /// Inputs and targets differ in number.
    SizeMismatch,
}

/// The matrix held by a result that is known to be `Ok`.
fn ok_matrix<T>(r: Result<Matrix<T>, crate::matrix::MatrixError>) -> (m: Matrix<T>)
    requires
        r is Ok,
    ensures
        r == Ok::<Matrix<T>, crate::matrix::MatrixError>(m),
{
    match r {
        Ok(m) => m,
        Err(_) => Matrix { rows: 0, cols: 0, data: Vec::new() },
    }
}

/// Every row of `rows` has `n` elements.
pub open spec fn rows_fit<T>(rows: Seq<Vec<T>>, n: int) -> bool {
    forall|i: int| 0 <= i < rows.len() ==> (#[trigger] rows[i])@.len() == n
}

fn rows_have_len<T>(rows: &Vec<Vec<T>>, n: usize) -> (r: bool)
    ensures
        r == rows_fit(rows@, n as int),
{
    let mut i: usize = 0;
    while i < rows.len()
        invariant
            i <= rows@.len(),
            forall|j: int| 0 <= j < i ==> (#[trigger] rows@[j])@.len() == n,
        decreases rows@.len() - i,
    {
        if rows[i].len() != n {
            return false;
        }
        i = i + 1;
    }
    true
}

/// Rows of the right lengths stay so when the pairs are rearranged.
proof fn lemma_rearranged_rows_fit<T>(
    a: Seq<Vec<T>>,
    b: Seq<Vec<T>>,
    a2: Seq<Vec<T>>,
    b2: Seq<Vec<T>>,
    na: int,
    nb: int,
)
    requires
        a.len() == b.len(),
        a2.len() == b2.len(),
        pairs(a2, b2).to_multiset() == pairs(a, b).to_multiset(),
        rows_fit(a, na),
        rows_fit(b, nb),
    ensures
        rows_fit(a2, na),
        rows_fit(b2, nb),
{
    assert forall|i: int| 0 <= i < a2.len() implies (#[trigger] a2[i])@.len() == na && b2[i]@.len()
        == nb by {
        let p = pairs(a2, b2);
        let q = pairs(a, b);
        assert(p[i] == (a2[i], b2[i]));
        assert(p.contains(p[i]));
        vstd::seq_lib::to_multiset_contains(p, p[i]);
        vstd::seq_lib::to_multiset_contains(q, p[i]);
        let j = choose|j: int| 0 <= j < q.len() && q[j] == p[i];
        assert(q[j] == (a[j], b[j]));
    }
    assert forall|i: int| 0 <= i < b2.len() implies (#[trigger] b2[i])@.len() == nb by {
        assert(a2[i]@.len() == na);
    }
}

/// The views of a sequence of matrices.
pub open spec fn views<T>(s: Seq<Matrix<T>>) -> Seq<Grid<T>> {
    s.map_values(|m: Matrix<T>| m@)
}

/// `v` as a column.
pub open spec fn column_of<T>(v: Seq<T>) -> Grid<T> {
    Grid { rows: v.len(), cols: 1, cells: Seq::new(v.len(), |i: int| seq![v[i]]) }
}

/// The activation function applied to every element.
pub open spec fn activated<T, A: Activation<T>>(g: Grid<T>, act: A) -> Grid<T> {
    Grid {
        rows: g.rows,
        cols: g.cols,
        cells: Seq::new(g.rows, |i: int| Seq::new(g.cols, |j: int| act.spec_function(g.cells[i][j]))),
    }
}

/// The derivative applied to every element.
pub open spec fn derived<T, A: Activation<T>>(g: Grid<T>, act: A) -> Grid<T> {
    Grid {
        rows: g.rows,
        cols: g.cols,
        cells: Seq::new(g.rows, |i: int| Seq::new(g.cols, |j: int| act.spec_derivative(g.cells[i][j]))),
    }
}

/// Layers `0..=k` of a forward pass from the input column `x`: layer
/// `i + 1` is the activation of `ws[i] * layer i + bs[i]`.
pub open spec fn forward_spec<T: Scalar, A: Activation<T>>(
    ws: Seq<Grid<T>>,
    bs: Seq<Grid<T>>,
    act: A,
    x: Grid<T>,
    k: nat,
) -> Seq<Grid<T>>
    decreases k,
{
    if k == 0 {
        seq![x]
    } else {
        let prev = forward_spec(ws, bs, act, x, (k - 1) as nat);
        prev.push(activated(scalar_sum(scalar_product(ws[k - 1], prev[k - 1]), bs[k - 1]), act))
    }
}

/// Weights and biases after the backward steps for layers `k - 1` down to
/// 0. At each step the gradient is `eta * (d . e)` (elementwise); the weights
/// gain the gradient times the transposed cached activations, the biases
/// the gradient; the error moves back through the updated weights and the
/// next `d` is the derivative of the cached activations.
pub open spec fn back_spec<T: Scalar, A: Activation<T>>(
    ws: Seq<Grid<T>>,
    bs: Seq<Grid<T>>,
    cache: Seq<Grid<T>>,
    e: Grid<T>,
    d: Grid<T>,
    k: nat,
    act: A,
    eta: T,
) -> (Seq<Grid<T>>, Seq<Grid<T>>)
    decreases k,
{
    if k == 0 {
        (ws, bs)
    } else {
        let i = k - 1;
        let g = scalar_scale(scalar_hadamard(d, e), eta);
        let w2 = scalar_sum(ws[i], scalar_product(g, transpose_spec(cache[i])));
        let b2 = scalar_sum(bs[i], g);
        back_spec(
            ws.update(i, w2),
            bs.update(i, b2),
            cache,
            scalar_product(transpose_spec(w2), e),
            derived(cache[i], act),
            i as nat,
            act,
            eta,
        )
    }
}

/// One training step on the pair `(x, y)`: a forward pass from `x`, then the
/// backward pass against `y` from its output. `k` is the number of weight
/// layers.
pub open spec fn step_spec<T: Scalar, A: Activation<T>>(
    ws: Seq<Grid<T>>,
    bs: Seq<Grid<T>>,
    act: A,
    eta: T,
    x: Seq<T>,
    y: Seq<T>,
    k: nat,
) -> (Seq<Grid<T>>, Seq<Grid<T>>) {
    let c = forward_spec(ws, bs, act, column_of(x), k);
    back_spec(ws, bs, c, scalar_difference(column_of(y), c.last()), derived(c.last(), act), k, act, eta)
}

/// Training steps on the first `n` pairs, in order.
pub open spec fn epoch_spec<T: Scalar, A: Activation<T>>(
    ws: Seq<Grid<T>>,
    bs: Seq<Grid<T>>,
    act: A,
    eta: T,
    xs: Seq<Vec<T>>,
    ys: Seq<Vec<T>>,
    n: nat,
    k: nat,
) -> (Seq<Grid<T>>, Seq<Grid<T>>)
    decreases n,
{
    if n == 0 {
        (ws, bs)
    } else {
        let p = epoch_spec(ws, bs, act, eta, xs, ys, (n - 1) as nat, k);
        step_spec(p.0, p.1, act, eta, xs[n - 1]@, ys[n - 1]@, k)
    }
}

/// The rows after the first `e` co-shuffles, shuffle `i` given by `draws[i]`.
pub open spec fn shuffled_rows<T>(rows: Seq<Vec<T>>, draws: Seq<Seq<usize>>, e: nat) -> Seq<Vec<T>>
    decreases e,
{
    if e == 0 {
        rows
    } else {
        let prev = shuffled_rows(rows, draws, (e - 1) as nat);
        shuffle_spec(prev, draws[e - 1], prev.len())
    }
}

/// Weights and biases after `e` epochs: epoch `i` runs over every pair of
/// the data after the first `i` co-shuffles.
pub open spec fn train_spec<T: Scalar, A: Activation<T>>(
    ws: Seq<Grid<T>>,
    bs: Seq<Grid<T>>,
    act: A,
    eta: T,
    xs: Seq<Vec<T>>,
    ys: Seq<Vec<T>>,
    draws: Seq<Seq<usize>>,
    e: nat,
    k: nat,
) -> (Seq<Grid<T>>, Seq<Grid<T>>)
    decreases e,
{
    if e == 0 {
        (ws, bs)
    } else {
        let p = train_spec(ws, bs, act, eta, xs, ys, draws, (e - 1) as nat, k);
        let dx = shuffled_rows(xs, draws, (e - 1) as nat);
        let dy = shuffled_rows(ys, draws, (e - 1) as nat);
        epoch_spec(p.0, p.1, act, eta, dx, dy, dx.len(), k)
    }
}

proof fn lemma_draws_prefix<T: Scalar, A: Activation<T>>(
    ws: Seq<Grid<T>>,
    bs: Seq<Grid<T>>,
    act: A,
    eta: T,
    xs: Seq<Vec<T>>,
    ys: Seq<Vec<T>>,
    draws: Seq<Seq<usize>>,
    d: Seq<usize>,
    e: nat,
    k: nat,
)
    requires
        e <= draws.len(),
    ensures
        shuffled_rows(xs, draws.push(d), e) == shuffled_rows(xs, draws, e),
        shuffled_rows(ys, draws.push(d), e) == shuffled_rows(ys, draws, e),
        train_spec(ws, bs, act, eta, xs, ys, draws.push(d), e, k) == train_spec(
            ws,
            bs,
            act,
            eta,
            xs,
            ys,
            draws,
            e,
            k,
        ),
    decreases e,
{
    if e > 0 {
        lemma_draws_prefix(ws, bs, act, eta, xs, ys, draws, d, (e - 1) as nat, k);
        assert(draws.push(d)[e - 1] == draws[e - 1]);
    }
}

/// On empty data no epoch changes anything.
proof fn lemma_train_empty<T: Scalar, A: Activation<T>>(
    ws: Seq<Grid<T>>,
    bs: Seq<Grid<T>>,
    act: A,
    eta: T,
    xs: Seq<Vec<T>>,
    ys: Seq<Vec<T>>,
    draws: Seq<Seq<usize>>,
    e: nat,
    k: nat,
)
    requires
        xs.len() == 0,
    ensures
        shuffled_rows(xs, draws, e).len() == 0,
        train_spec(ws, bs, act, eta, xs, ys, draws, e, k) == (ws, bs),
    decreases e,
{
    if e > 0 {
        lemma_train_empty(ws, bs, act, eta, xs, ys, draws, (e - 1) as nat, k);
    }
}

proof fn lemma_column_view<T>(m: Matrix<T>)
    requires
        m.wf(),
        m.cols == 1,
    ensures
        m@ == column_of(m.data@),
{
    assert forall|i: int| 0 <= i < m.rows implies #[trigger] m@.cells[i] =~= column_of(m.data@).cells[i] by {
        assert(flat(i, 0, 1) == i);
    }
    assert(m@.cells =~= column_of(m.data@).cells);
}

/// A column vector of `n` elements.
pub open spec fn is_column<T>(m: Matrix<T>, n: int) -> bool {
    m.wf() && m.rows == n && m.cols == 1
}

pub struct Network<T, A> {
    layer_sizes: Vec<usize>,
    weights: Vec<Matrix<T>>,
    biases: Vec<Matrix<T>>,
    layer_outputs: Vec<Matrix<T>>,
    activation: A,
    learning_rate: T,
}

impl<T: Scalar, A: Activation<T>> Network<T, A> {
    /// The layer sizes, input layer first.
    pub closed spec fn sizes(&self) -> Seq<usize> {
        self.layer_sizes@
    }

    pub closed spec fn weights(&self) -> Seq<Matrix<T>> {
        self.weights@
    }

    pub closed spec fn biases(&self) -> Seq<Matrix<T>> {
        self.biases@
    }

    /// The activations of every layer from the latest forward pass, input
    /// layer first; empty before the first pass.
    pub closed spec fn cache(&self) -> Seq<Matrix<T>> {
        self.layer_outputs@
    }

    pub closed spec fn activation(&self) -> A {
        self.activation
    }

    pub closed spec fn learning_rate(&self) -> T {
        self.learning_rate
    }

    /// Weights `i` map layer `i` to layer `i + 1`: shape
    /// `(sizes[i + 1], sizes[i])`; biases `i` are a column of `sizes[i + 1]`.
    /// The cache is empty or holds one column per layer.
    pub open spec fn wf(&self) -> bool {
        let s = self.sizes();
        &&& s.len() >= 2
        &&& self.weights().len() == s.len() - 1
        &&& self.biases().len() == s.len() - 1
        &&& forall|i: int|
            0 <= i < s.len() - 1 ==> {
                let w = #[trigger] self.weights()[i];
                w.wf() && w.rows == s[i + 1] && w.cols == s[i]
            }
        &&& forall|i: int| 0 <= i < s.len() - 1 ==> is_column(#[trigger] self.biases()[i], s[i + 1] as int)
        &&& self.cache().len() == 0 || self.cache().len() == s.len()
        &&& forall|i: int| 0 <= i < self.cache().len() ==> is_column(#[trigger] self.cache()[i], s[i] as int)
    }

    /// A network with the given layer sizes, weights and biases drawn
    /// uniformly from `[0, 1)`, and an empty cache. `InvalidShape` when
    /// there are fewer than two layers.
    pub fn new(layer_sizes: Vec<usize>, activation: A, learning_rate: T) -> (r: Result<
        Network<T, A>,
        NetworkError,
    >)
        requires
            forall|i: int|
                0 <= i < layer_sizes@.len() - 1 ==> #[trigger] layer_sizes@[i + 1] * layer_sizes@[i]
                    <= usize::MAX,
        ensures
            r is Ok <==> layer_sizes@.len() >= 2,
            r is Err ==> r == Err::<Network<T, A>, NetworkError>(NetworkError::InvalidShape),
            r matches Ok(n) ==> {
                &&& n.wf()
                &&& n.sizes() == layer_sizes@
                &&& n.cache().len() == 0
                &&& n.activation() == activation
                &&& n.learning_rate() == learning_rate
            },
    {
        if layer_sizes.len() < 2 {
            return Err(NetworkError::InvalidShape);
        }
        let mut weights: Vec<Matrix<T>> = Vec::new();
        let mut biases: Vec<Matrix<T>> = Vec::new();
        let mut i: usize = 0;
        while i < layer_sizes.len() - 1
            invariant
                layer_sizes@.len() >= 2,
                forall|j: int|
                    0 <= j < layer_sizes@.len() - 1 ==> #[trigger] layer_sizes@[j + 1] * layer_sizes@[j]
                        <= usize::MAX,
                i <= layer_sizes@.len() - 1,
                weights@.len() == i,
                biases@.len() == i,
                forall|j: int|
                    0 <= j < i ==> {
                        let w = #[trigger] weights@[j];
                        w.wf() && w.rows == layer_sizes@[j + 1] && w.cols == layer_sizes@[j]
                    },
                forall|j: int| 0 <= j < i ==> is_column(#[trigger] biases@[j], layer_sizes@[j + 1] as int),
            decreases layer_sizes@.len() - 1 - i,
        {
            proof {
                assert(layer_sizes@[i + 1] * layer_sizes@[i as int] <= usize::MAX);
            }
            weights.push(Matrix::random(layer_sizes[i + 1], layer_sizes[i]));
            biases.push(Matrix::random(layer_sizes[i + 1], 1));
            i = i + 1;
        }
        Ok(Network { layer_sizes, weights, biases, layer_outputs: Vec::new(), activation, learning_rate })
    }

    /// Runs `inputs` through every layer: layer `i + 1` is the activation of
    /// `weights[i] * layer[i] + biases[i]`. Caches every layer's activations
    /// and returns the last layer's. Only the cache changes. `InvalidShape`,
    /// with nothing changed, unless `inputs` has the input layer's size.
    pub fn feed_forward(&mut self, inputs: Vec<T>) -> (r: Result<Vec<T>, NetworkError>)
        requires
            old(self).wf(),
        ensures
            final(self).wf(),
            final(self).sizes() == old(self).sizes(),
            final(self).weights() == old(self).weights(),
            final(self).biases() == old(self).biases(),
            final(self).activation() == old(self).activation(),
            final(self).learning_rate() == old(self).learning_rate(),
            r is Ok <==> inputs@.len() == old(self).sizes()[0],
            r is Err ==> r == Err::<Vec<T>, NetworkError>(NetworkError::InvalidShape) && *final(self)
                == *old(self),
            r matches Ok(out) ==> {
                let c = final(self).cache();
                &&& c.len() == final(self).sizes().len()
                &&& views(c) == forward_spec(
                    views(old(self).weights()),
                    views(old(self).biases()),
                    old(self).activation(),
                    column_of(inputs@),
                    (old(self).sizes().len() - 1) as nat,
                )
                &&& out@ == c.last().data@
                &&& column_of(out@) == c.last()@
                &&& out@.len() == final(self).sizes().last()
            },
    {
        if inputs.len() != self.layer_sizes[0] {
            return Err(NetworkError::InvalidShape);
        }
        let ghost inputs_view = inputs@;
        let count = self.layer_sizes.len();
        let mut cache: Vec<Matrix<T>> = Vec::new();
        let first = Matrix { rows: inputs.len(), cols: 1, data: inputs };
        proof {
            lemma_column_view(first);
        }
        cache.push(first);
        proof {
            assert(views(cache@) =~= seq![column_of(inputs_view)]);
        }
        let mut layer: usize = 0;
        while layer < count - 1
            invariant
                self.wf(),
                count == self.sizes().len(),
                layer < count,
                cache@.len() == layer + 1,
                forall|i: int| 0 <= i < cache@.len() ==> is_column(#[trigger] cache@[i], self.sizes()[i] as int),
                views(cache@) == forward_spec(
                    views(self.weights()),
                    views(self.biases()),
                    self.activation(),
                    column_of(inputs_view),
                    layer as nat,
                ),
            decreases count - 1 - layer,
        {
            let weighted = ok_matrix(self.weights[layer].product(&cache[layer]));
            let shifted = ok_matrix(weighted.sum(&self.biases[layer]));
            let act = &self.activation;
            let f = |x: T| -> (y: T)
                ensures
                    y == act.spec_function(x),
                { act.function(x) };
            let activated_layer = shifted.map(f);
            proof {
                lemma_map_cells(shifted, activated_layer, |x: T| act.spec_function(x));
                assert(activated_layer@.cells =~~= activated(shifted@, *act).cells);
            }
            let ghost before = cache@;
            cache.push(activated_layer);
            proof {
                assert(views(self.weights())[layer as int] == self.weights()[layer as int]@);
                assert(views(self.biases())[layer as int] == self.biases()[layer as int]@);
                assert(views(before)[layer as int] == before[layer as int]@);
                assert(views(cache@) =~= views(before).push(activated_layer@));
            }
            layer = layer + 1;
        }
        let top = &cache[count - 1];
        let out = ok_matrix(Matrix::from_vec(&top.data, top.rows, top.cols)).data;
        proof {
            lemma_column_view(cache@[count - 1]);
        }
        self.layer_outputs = cache;
        Ok(out)
    }

    /// Moves the weights and biases against the error of the latest forward
    /// pass, last layer first, as `back_spec` states: the error starts as
    /// `targets - outputs` and the first derivative is taken at `outputs`.
    /// Only the weights and biases change. `InvalidShape`, with nothing
    /// changed, unless `outputs` and `targets` have the output layer's size
    /// and a forward pass has filled the cache.
    pub fn back_propagation(&mut self, outputs: Vec<T>, targets: Vec<T>) -> (r: Result<(), NetworkError>)
        requires
            old(self).wf(),
        ensures
            final(self).wf(),
            final(self).sizes() == old(self).sizes(),
            final(self).cache() == old(self).cache(),
            final(self).activation() == old(self).activation(),
            final(self).learning_rate() == old(self).learning_rate(),
            forall|i: int|
                0 <= i < old(self).sizes().len() - 1 ==> (#[trigger] final(self).weights()[i]).rows
                    == old(self).weights()[i].rows && final(self).weights()[i].cols
                    == old(self).weights()[i].cols,
            r is Ok <==> {
                &&& outputs@.len() == old(self).sizes().last()
                &&& targets@.len() == old(self).sizes().last()
                &&& old(self).cache().len() == old(self).sizes().len()
            },
            r is Err ==> r == Err::<(), NetworkError>(NetworkError::InvalidShape) && *final(self)
                == *old(self),
            r is Ok ==> (views(final(self).weights()), views(final(self).biases())) == back_spec(
                views(old(self).weights()),
                views(old(self).biases()),
                views(old(self).cache()),
                scalar_difference(column_of(targets@), column_of(outputs@)),
                derived(column_of(outputs@), old(self).activation()),
                (old(self).sizes().len() - 1) as nat,
                old(self).activation(),
                old(self).learning_rate(),
            ),
    {
        let count = self.layer_sizes.len();
        let last = self.layer_sizes[count - 1];
        if outputs.len() != last || targets.len() != last || self.layer_outputs.len() != count {
            return Err(NetworkError::InvalidShape);
        }
        let rate = self.learning_rate;
        let output_matrix = Matrix { rows: last, cols: 1, data: outputs };
        let target_matrix = Matrix { rows: last, cols: 1, data: targets };
        proof {
            lemma_column_view(output_matrix);
            lemma_column_view(target_matrix);
        }
        let mut errors = ok_matrix(target_matrix.difference(&output_matrix));
        let act = &self.activation;
        let d = |y: T| -> (z: T)
            ensures
                z == act.spec_derivative(y),
            { act.derivative(y) };
        let mut gradients = output_matrix.map(d);
        proof {
            lemma_map_cells(output_matrix, gradients, |y: T| act.spec_derivative(y));
            assert(gradients@.cells =~~= derived(output_matrix@, *act).cells);
        }
        let ghost sizes = self.sizes();
        let ghost cache = self.cache();
        let ghost old_weights = self.weights();
        let ghost act0 = self.activation();
        let ghost target = back_spec(
            views(self.weights()),
            views(self.biases()),
            views(cache),
            errors@,
            gradients@,
            (count - 1) as nat,
            self.activation(),
            rate,
        );
        let mut layer: usize = count - 1;
        while layer > 0
            invariant
                self.wf(),
                self.sizes() == sizes,
                self.cache() == cache,
                self.learning_rate() == rate,
                self.activation() == act0,
                forall|i: int|
                    0 <= i < sizes.len() - 1 ==> (#[trigger] self.weights()[i]).rows == old_weights[i].rows
                        && self.weights()[i].cols == old_weights[i].cols,
                old_weights.len() == sizes.len() - 1,
                forall|i: int|
                    0 <= i < sizes.len() - 1 ==> (#[trigger] old_weights[i]).rows == sizes[i + 1]
                        && old_weights[i].cols == sizes[i],
                count == sizes.len(),
                cache.len() == count,
                0 <= layer < count,
                is_column(errors, sizes[layer as int] as int),
                is_column(gradients, sizes[layer as int] as int),
                back_spec(
                    views(self.weights()),
                    views(self.biases()),
                    views(cache),
                    errors@,
                    gradients@,
                    layer as nat,
                    self.activation(),
                    rate,
                ) == target,
            decreases layer,
        {
            layer = layer - 1;
            let g = ok_matrix(gradients.hadamard(&errors)).scale(rate);
            let previous = self.layer_outputs[layer].transpose();
            let delta = ok_matrix(g.product(&previous));
            let new_weights = ok_matrix(self.weights[layer].sum(&delta));
            let new_biases = ok_matrix(self.biases[layer].sum(&g));
            let ghost ws0 = self.weights();
            let ghost bs0 = self.biases();
            self.weights.set(layer, new_weights);
            self.biases.set(layer, new_biases);
            errors = ok_matrix(self.weights[layer].transpose().product(&errors));
            let act = &self.activation;
            let d = |y: T| -> (z: T)
                ensures
                    z == act.spec_derivative(y),
                { act.derivative(y) };
            gradients = self.layer_outputs[layer].map(d);
            proof {
                lemma_map_cells(cache[layer as int], gradients, |y: T| act.spec_derivative(y));
                assert(gradients@.cells =~~= derived(cache[layer as int]@, *act).cells);
                assert(views(cache)[layer as int] == cache[layer as int]@);
                assert(views(ws0)[layer as int] == ws0[layer as int]@);
                assert(views(bs0)[layer as int] == bs0[layer as int]@);
                assert(views(self.weights()) =~= views(ws0).update(layer as int, new_weights@));
                assert(views(self.biases()) =~= views(bs0).update(layer as int, new_biases@));
            }
        }
        Ok(())
    }

    /// Trains on `inputs` and `targets` for `epochs + 1` passes over the
    /// data: each pass runs a forward and a backward pass on every pair in
    /// turn, then co-shuffles the pairs. On success the weights and biases
    /// are those of `train_spec` for some valid draws of the shuffles.
    /// `SizeMismatch` when the inputs and targets differ in number,
    /// `InvalidShape` when a row does not have its layer's size; either way
    /// nothing changes.
    pub fn train(&mut self, inputs: Vec<Vec<T>>, targets: Vec<Vec<T>>, epochs: u16) -> (r: Result<
        (),
        NetworkError,
    >)
        requires
            old(self).wf(),
        ensures
            final(self).wf(),
            final(self).sizes() == old(self).sizes(),
            final(self).activation() == old(self).activation(),
            final(self).learning_rate() == old(self).learning_rate(),
            r is Ok <==> {
                &&& inputs@.len() == targets@.len()
                &&& rows_fit(inputs@, old(self).sizes()[0] as int)
                &&& rows_fit(targets@, old(self).sizes().last() as int)
            },
            (r == Err::<(), NetworkError>(NetworkError::SizeMismatch)) <==> inputs@.len()
                != targets@.len(),
            r is Err ==> *final(self) == *old(self),
            r is Ok && inputs@.len() == 0 ==> views(final(self).weights()) == views(old(self).weights())
                && views(final(self).biases()) == views(old(self).biases()),
            r is Ok ==> exists|draws: Seq<Seq<usize>>|
                {
                    &&& draws.len() == epochs + 1
                    &&& forall|i: int|
                        0 <= i < draws.len() ==> valid_draws(#[trigger] draws[i], inputs@.len())
                    &&& (views(final(self).weights()), views(final(self).biases())) == #[trigger] train_spec(
                        views(old(self).weights()),
                        views(old(self).biases()),
                        old(self).activation(),
                        old(self).learning_rate(),
                        inputs@,
                        targets@,
                        draws,
                        (epochs + 1) as nat,
                        (old(self).sizes().len() - 1) as nat,
                    )
                },
    {
        let count = self.layer_sizes.len();
        let first = self.layer_sizes[0];
        let last = self.layer_sizes[count - 1];
        let fits = rows_have_len(&inputs, first) && rows_have_len(&targets, last);
        let ghost xs = inputs@;
        let ghost ys = targets@;
        let mut data = match TrainingData::new(inputs, targets) {
            Ok(d) => d,
            Err(_) => {
                return Err(NetworkError::SizeMismatch);
            },
        };
        if !fits {
            return Err(NetworkError::InvalidShape);
        }
        let ghost sizes = self.sizes();
        let ghost act = self.activation();
        let ghost eta = self.learning_rate();
        let ghost w0 = views(self.weights());
        let ghost b0 = views(self.biases());
        let ghost k = (sizes.len() - 1) as nat;
        let ghost mut drawn: Seq<Seq<usize>> = Seq::empty();
        let mut epoch: u32 = 0;
        while epoch <= epochs as u32
            invariant
                self.wf(),
                self.sizes() == sizes,
                self.activation() == act,
                self.learning_rate() == eta,
                count == sizes.len(),
                k == sizes.len() - 1,
                first == sizes[0],
                last == sizes.last(),
                data.wf(),
                data.inputs@.len() == xs.len(),
                rows_fit(data.inputs@, first as int),
                rows_fit(data.targets@, last as int),
                epoch <= epochs as u32 + 1,
                drawn.len() == epoch,
                forall|i: int| 0 <= i < drawn.len() ==> valid_draws(#[trigger] drawn[i], xs.len()),
                data.inputs@ == shuffled_rows(xs, drawn, epoch as nat),
                data.targets@ == shuffled_rows(ys, drawn, epoch as nat),
                (views(self.weights()), views(self.biases())) == train_spec(
                    w0,
                    b0,
                    act,
                    eta,
                    xs,
                    ys,
                    drawn,
                    epoch as nat,
                    k,
                ),
            decreases epochs as u32 + 1 - epoch,
        {
            let ghost ws_start = views(self.weights());
            let ghost bs_start = views(self.biases());
            let mut i: usize = 0;
            while i < data.inputs.len()
                invariant
                    self.wf(),
                    self.sizes() == sizes,
                    self.activation() == act,
                    self.learning_rate() == eta,
                    count == sizes.len(),
                    k == sizes.len() - 1,
                    first == sizes[0],
                    last == sizes.last(),
                    data.wf(),
                    rows_fit(data.inputs@, first as int),
                    rows_fit(data.targets@, last as int),
                    i <= data.inputs@.len(),
                    (views(self.weights()), views(self.biases())) == epoch_spec(
                        ws_start,
                        bs_start,
                        act,
                        eta,
                        data.inputs@,
                        data.targets@,
                        i as nat,
                        k,
                    ),
                decreases data.inputs@.len() - i,
            {
                let x = ok_matrix(Matrix::from_vec(&data.inputs[i], first, 1)).data;
                let y = ok_matrix(Matrix::from_vec(&data.targets[i], last, 1)).data;
                let ghost wv = views(self.weights());
                let ghost bv = views(self.biases());
                let outputs = self.feed_forward(x);
                if let Ok(out) = outputs {
                    let _ = self.back_propagation(out, y);
                    proof {
                        let c = forward_spec(wv, bv, act, column_of(data.inputs@[i as int]@), k);
                        assert(views(self.cache()).last() == self.cache().last()@);
                        assert(c.last() == column_of(out@));
                    }
                }
                i = i + 1;
            }
            let ghost before = data;
            data = data.shuffle();
            proof {
                let d = choose|d: Seq<usize>|
                    valid_draws(d, before.inputs@.len()) && data.inputs@ == shuffle_spec(
                        before.inputs@,
                        d,
                        before.inputs@.len(),
                    ) && data.targets@ == shuffle_spec(before.targets@, d, before.targets@.len());
                lemma_rearranged_rows_fit(
                    before.inputs@,
                    before.targets@,
                    data.inputs@,
                    data.targets@,
                    first as int,
                    last as int,
                );
                lemma_draws_prefix(w0, b0, act, eta, xs, ys, drawn, d, epoch as nat, k);
                lemma_shuffle_len(before.inputs@, d, before.inputs@.len());
                drawn = drawn.push(d);
                assert(drawn[epoch as int] == d);
            }
            epoch = epoch + 1;
        }
        proof {
            if xs.len() == 0 {
                lemma_train_empty(w0, b0, act, eta, xs, ys, drawn, (epochs + 1) as nat, k);
            }
            assert(epoch == epochs as u32 + 1);
            assert(drawn.len() == epochs + 1);
            assert((views(self.weights()), views(self.biases())) == train_spec(
                w0,
                b0,
                act,
                eta,
                xs,
                ys,
                drawn,
                (epochs + 1) as nat,
                k,
            ));
        }
        Ok(())
    }
}

} // verus!
