//! The feed-forward controller: layered hard-threshold perceptron levels
//! with random initialisation and a blending mutation operator.

use vstd::prelude::*;
use crate::fixed::{SCALE, FX_LIM, div_tz, fxm, fxlerp, mag};
use crate::utils::lerp;
use crate::rng::rand_in_range;

verus! {

/// Most nodes a single level may connect on either side (a machine limit
/// that keeps every weighted sum far inside `i64` range).
pub const LEVEL_NODE_LIM: usize = 1_000_000;

/// One layer: a bias per output and a weight per (input, output) pair.
/// `inputs` and `outputs` hold the most recently evaluated values.
#[derive(Debug, Clone)]
pub struct Level {
    pub inputs: Vec<i64>,
    pub outputs: Vec<i64>,
    pub biases: Vec<i64>,
    pub weights: Vec<Vec<i64>>,
}

/// Every element lies in the closed fixed-point unit interval `[-1, 1]`.
pub open spec fn vals_in_unit(s: Seq<i64>) -> bool {
    forall|i: int| 0 <= i < s.len() ==> -SCALE <= #[trigger] s[i] <= SCALE
}

/// Well-formedness of a level: consistent dimensions, all values in unit
/// range.
pub open spec fn level_wf(l: Level) -> bool {
    &&& l.inputs@.len() <= LEVEL_NODE_LIM
    &&& l.outputs@.len() <= LEVEL_NODE_LIM
    &&& l.biases@.len() == l.outputs@.len()
    &&& l.weights@.len() == l.inputs@.len()
    &&& forall|i: int|
        0 <= i < l.weights@.len() ==> (#[trigger] l.weights@[i])@.len() == l.outputs@.len()
    &&& vals_in_unit(l.inputs@)
    &&& vals_in_unit(l.outputs@)
    &&& vals_in_unit(l.biases@)
    &&& forall|i: int| 0 <= i < l.weights@.len() ==> vals_in_unit((#[trigger] l.weights@[i])@)
}

/// The weighted sum of the first `n` inputs into output `j`.
pub open spec fn dot_prefix(ins: Seq<i64>, ws: Seq<Vec<i64>>, j: int, n: int) -> int
    decreases n,
{
    if n <= 0 {
        0
    } else {
        dot_prefix(ins, ws, j, n - 1) + ins[n - 1] * ws[n - 1]@[j]
    }
}

/// Output `j` of a level on the given inputs: exactly scaled 1 when the
/// weighted sum strictly exceeds the bias, else exactly 0.
pub open spec fn level_out(l: Level, given: Seq<i64>, j: int) -> i64 {
    if dot_prefix(given, l.weights@, j, l.inputs@.len() as int) > l.biases@[j] * (SCALE as int) {
        SCALE
    } else {
        0i64
    }
}

/// All outputs of a level on the given inputs.
pub open spec fn level_outs(l: Level, given: Seq<i64>) -> Seq<i64> {
    Seq::new(l.outputs@.len(), |j: int| level_out(l, given, j))
}

impl Level {
    /// A fresh level of the given dimensions with uniformly random weights
    /// and biases, and zeroed transient values.
    pub fn new(input_count: usize, output_count: usize) -> (r: Level)
        requires
            input_count <= LEVEL_NODE_LIM,
            output_count <= LEVEL_NODE_LIM,
        ensures
            level_wf(r),
            r.inputs@.len() == input_count,
            r.outputs@.len() == output_count,
            forall|i: int| 0 <= i < r.inputs@.len() ==> #[trigger] r.inputs@[i] == 0i64,
            forall|i: int| 0 <= i < r.outputs@.len() ==> #[trigger] r.outputs@[i] == 0i64,
    {
        let inputs = zero_vec(input_count);
        let outputs = zero_vec(output_count);
        let biases = zero_vec(output_count);
        let mut weights: Vec<Vec<i64>> = Vec::new();
        let mut i: usize = 0;
        while i < input_count
            invariant
                0 <= i <= input_count,
                weights@.len() == i,
                forall|k: int|
                    0 <= k < i ==> (#[trigger] weights@[k])@.len() == output_count,
                forall|k: int| 0 <= k < i ==> vals_in_unit((#[trigger] weights@[k])@),
            decreases input_count - i,
        {
            weights.push(zero_vec(output_count));
            i += 1;
        }
        let mut this = Level { inputs, outputs, biases, weights };
        this.randomize();
        this
    }

    /// Redraw every weight and bias independently and uniformly from the
    /// unit interval; dimensions and transient values stay as they are.
    pub fn randomize(&mut self)
        requires
            old(self).inputs@.len() <= LEVEL_NODE_LIM,
            old(self).outputs@.len() <= LEVEL_NODE_LIM,
            old(self).biases@.len() == old(self).outputs@.len(),
            old(self).weights@.len() == old(self).inputs@.len(),
            forall|i: int|
                0 <= i < old(self).weights@.len() ==> (#[trigger] old(self).weights@[i])@.len()
                    == old(self).outputs@.len(),
            vals_in_unit(old(self).inputs@),
            vals_in_unit(old(self).outputs@),
        ensures
            level_wf(*final(self)),
            final(self).inputs == old(self).inputs,
            final(self).outputs == old(self).outputs,
            final(self).biases@.len() == old(self).biases@.len(),
            final(self).weights@.len() == old(self).weights@.len(),
            forall|i: int|
                0 <= i < final(self).weights@.len() ==> (#[trigger] final(self).weights@[i])@.len()
                    == (old(self).weights@[i])@.len(),
    {
        let in_count = self.weights.len();
        let ghost out_count = self.outputs@.len();
        let mut new_weights: Vec<Vec<i64>> = Vec::new();
        let mut i: usize = 0;
        while i < in_count
            invariant
                0 <= i <= in_count,
                in_count == old(self).weights@.len(),
                self == old(self),
                new_weights@.len() == i,
                forall|k: int|
                    0 <= k < i ==> (#[trigger] new_weights@[k])@.len() == out_count,
                forall|k: int| 0 <= k < i ==> vals_in_unit((#[trigger] new_weights@[k])@),
                out_count == old(self).outputs@.len(),
                forall|k: int|
                    0 <= k < in_count ==> (#[trigger] old(self).weights@[k])@.len() == out_count,
            decreases in_count - i,
        {
            let row_len = self.outputs.len();
            new_weights.push(random_unit_vec(row_len));
            i += 1;
        }
        self.weights = new_weights;
        let bias_len = self.biases.len();
        self.biases = random_unit_vec(bias_len);
    }

    /// Evaluate the level: copy the first `input_count` given values into
    /// the transient inputs, then threshold each weighted sum against its
    /// bias. Every output is exactly scaled 0 or scaled 1.
    pub fn feed_forward(&mut self, given_inputs: Vec<i64>) -> (r: Vec<i64>)
        requires
            level_wf(*old(self)),
            given_inputs@.len() >= old(self).inputs@.len(),
            vals_in_unit(given_inputs@),
        ensures
            level_wf(*final(self)),
            final(self).biases == old(self).biases,
            final(self).weights == old(self).weights,
            final(self).inputs@ == given_inputs@.subrange(0, old(self).inputs@.len() as int),
            final(self).outputs@.len() == old(self).outputs@.len(),
            r@ == final(self).outputs@,
            r@ == level_outs(*old(self), given_inputs@),
    {
        let in_count = self.inputs.len();
        let out_count = self.outputs.len();
        let mut new_inputs: Vec<i64> = Vec::new();
        let mut i: usize = 0;
        while i < in_count
            invariant
                0 <= i <= in_count,
                in_count <= given_inputs@.len(),
                new_inputs@.len() == i,
                new_inputs@ == given_inputs@.subrange(0, i as int),
            decreases in_count - i,
        {
            new_inputs.push(given_inputs[i]);
            proof {
                assert(new_inputs@ =~= given_inputs@.subrange(0, i + 1));
            }
            i += 1;
        }
        self.inputs = new_inputs;
        let mut new_outputs: Vec<i64> = Vec::new();
        let mut j: usize = 0;
        while j < out_count
            invariant
                0 <= j <= out_count,
                level_wf(*old(self)),
                self.biases == old(self).biases,
                self.weights == old(self).weights,
                self.inputs@ == given_inputs@.subrange(0, in_count as int),
                in_count == old(self).inputs@.len(),
                out_count == old(self).outputs@.len(),
                given_inputs@.len() >= in_count,
                vals_in_unit(given_inputs@),
                new_outputs@.len() == j,
                forall|k: int|
                    0 <= k < j ==> #[trigger] new_outputs@[k] == level_out(
                        *old(self),
                        given_inputs@,
                        k,
                    ),
            decreases out_count - j,
        {
            let mut sum: i128 = 0;
            let mut i2: usize = 0;
            while i2 < in_count
                invariant
                    0 <= i2 <= in_count,
                    0 <= j < out_count,
                    level_wf(*old(self)),
                    self.weights == old(self).weights,
                    in_count == old(self).inputs@.len(),
                    out_count == old(self).outputs@.len(),
                    given_inputs@.len() >= in_count,
                    vals_in_unit(given_inputs@),
                    sum == dot_prefix(given_inputs@, old(self).weights@, j as int, i2 as int),
                    mag(sum as int) <= (i2 as int) * (SCALE as int) * (SCALE as int),
                decreases in_count - i2,
            {
                let v: i64 = given_inputs[i2];
                let w: i64 = self.weights[i2][j];
                proof {
                    assert(vals_in_unit(old(self).weights@[i2 as int]@));
                    assert(-SCALE <= w <= SCALE);
                    assert(mag((v as int) * (w as int)) <= (SCALE as int) * (SCALE as int))
                        by (nonlinear_arith)
                        requires
                            -SCALE <= v <= SCALE,
                            -SCALE <= w <= SCALE,
                            SCALE == 1_000_000i64,
                    ;
                    assert(((i2 + 1) as int) * (SCALE as int) * (SCALE as int) == (i2 as int) * (
                    SCALE as int) * (SCALE as int) + (SCALE as int) * (SCALE as int))
                        by (nonlinear_arith)
                    ;
                    assert((in_count as int) * (SCALE as int) * (SCALE as int)
                        <= 1_000_000_000_000_000_000int) by (nonlinear_arith)
                        requires
                            0 <= in_count <= LEVEL_NODE_LIM,
                            LEVEL_NODE_LIM == 1_000_000usize,
                            SCALE == 1_000_000i64,
                    ;
                    assert((i2 as int) * (SCALE as int) * (SCALE as int) <= (in_count as int) * (
                    SCALE as int) * (SCALE as int)) by (nonlinear_arith)
                        requires
                            0 <= i2 < in_count,
                    ;
                }
                sum = sum + (v as i128) * (w as i128);
                i2 += 1;
            }
            let bias: i64 = self.biases[j];
            let out_val: i64 = if sum > (bias as i128) * (SCALE as i128) {
                SCALE
            } else {
                0
            };
            new_outputs.push(out_val);
            i2 = 0;
            j += 1;
        }
        self.outputs = new_outputs;
        proof {
            assert(self.outputs@ =~= level_outs(*old(self), given_inputs@));
        }
        self.outputs.clone()
    }
}

/// The whole controller: a chain of levels evaluated in order.
#[derive(Debug, Clone)]
pub struct NeuralNetwork {
    pub levels: Vec<Level>,
}

/// Well-formedness of a network: at least one level, every level well
/// formed, and consecutive dimensions agree.
pub open spec fn net_wf(n: NeuralNetwork) -> bool {
    &&& n.levels@.len() >= 1
    &&& forall|i: int| 0 <= i < n.levels@.len() ==> level_wf(#[trigger] n.levels@[i])
    &&& forall|i: int|
        0 <= i < n.levels@.len() - 1 ==> (#[trigger] n.levels@[i]).outputs@.len()
            == n.levels@[i + 1].inputs@.len()
}

/// Two levels connect the same numbers of nodes.
pub open spec fn level_shape_eq(x: Level, y: Level) -> bool {
    &&& x.inputs@.len() == y.inputs@.len()
    &&& x.outputs@.len() == y.outputs@.len()
}

/// Two levels carry identical biases and weights (and the same shape).
pub open spec fn level_params_eq(x: Level, y: Level) -> bool {
    &&& level_shape_eq(x, y)
    &&& x.biases@ == y.biases@
    &&& x.weights@.len() == y.weights@.len()
    &&& forall|k: int| 0 <= k < x.weights@.len() ==> (#[trigger] x.weights@[k])@ == y.weights@[k]@
}

/// Two networks have the same topology.
pub open spec fn same_shape(a: NeuralNetwork, b: NeuralNetwork) -> bool {
    &&& a.levels@.len() == b.levels@.len()
    &&& forall|i: int|
        0 <= i < a.levels@.len() ==> level_shape_eq(#[trigger] a.levels@[i], b.levels@[i])
}

/// Two networks have the same topology and identical biases and weights.
pub open spec fn same_params(a: NeuralNetwork, b: NeuralNetwork) -> bool {
    &&& a.levels@.len() == b.levels@.len()
    &&& forall|i: int|
        0 <= i < a.levels@.len() ==> level_params_eq(#[trigger] a.levels@[i], b.levels@[i])
}

/// Two levels are interchangeable: identical parameters and identical
/// transient values.
pub open spec fn level_equiv(x: Level, y: Level) -> bool {
    &&& level_params_eq(x, y)
    &&& x.inputs@ == y.inputs@
    &&& x.outputs@ == y.outputs@
}

/// Two networks are interchangeable copies: same topology, identical
/// biases, weights and transient values.
pub open spec fn net_equiv(a: NeuralNetwork, b: NeuralNetwork) -> bool {
    &&& a.levels@.len() == b.levels@.len()
    &&& forall|i: int| 0 <= i < a.levels@.len() ==> level_equiv(#[trigger] a.levels@[i], b.levels@[i])
}

/// A level whose transient inputs and outputs are all exactly zero, as a
/// freshly built one's are.
pub open spec fn zeroed_transients(l: Level) -> bool {
    &&& forall|i: int| 0 <= i < l.inputs@.len() ==> #[trigger] l.inputs@[i] == 0i64
    &&& forall|i: int| 0 <= i < l.outputs@.len() ==> #[trigger] l.outputs@[i] == 0i64
}

/// The effective blend parameter of a mutation: the given amount, or a
/// full blend when absent.
pub open spec fn blend_amount(amount: Option<i64>) -> int {
    match amount {
        Some(a) => a as int,
        None => SCALE as int,
    }
}

/// `after` is the fixed-point blend of `before` toward some target in the
/// unit interval.
pub open spec fn is_blend_of(after: i64, before: i64, a: int) -> bool {
    exists|t: int| -SCALE <= t <= SCALE && after == #[trigger] fxlerp(before as int, t, a)
}

/// Every element of `after` is the fixed-point blend of the matching
/// element of `before` toward its own target in the unit interval.
pub open spec fn blended_values(after: Seq<i64>, before: Seq<i64>, a: int) -> bool {
    &&& after.len() == before.len()
    &&& forall|k: int| 0 <= k < after.len() ==> #[trigger] is_blend_of(after[k], before[k], a)
}

/// One mutated level against its pre-mutation self: transient values
/// untouched, every bias and weight blended toward its own fresh target.
pub open spec fn level_blended(l2: Level, l1: Level, a: int) -> bool {
    &&& level_shape_eq(l2, l1)
    &&& l2.inputs@ == l1.inputs@
    &&& l2.outputs@ == l1.outputs@
    &&& blended_values(l2.biases@, l1.biases@, a)
    &&& l2.weights@.len() == l1.weights@.len()
    &&& forall|r: int|
        0 <= r < l2.weights@.len() ==> blended_values(
            (#[trigger] l2.weights@[r])@,
            l1.weights@[r]@,
            a,
        )
}

/// A mutated controller against its pre-mutation self, level by level.
pub open spec fn net_blended(n2: NeuralNetwork, n1: NeuralNetwork, a: int) -> bool {
    &&& n2.levels@.len() == n1.levels@.len()
    &&& forall|i: int|
        0 <= i < n2.levels@.len() ==> level_blended(#[trigger] n2.levels@[i], n1.levels@[i], a)
}

/// A deep copy of a controller, value for value.
pub fn clone_network(n: &NeuralNetwork) -> (r: NeuralNetwork)
    requires
        net_wf(*n),
    ensures
        net_wf(r),
        net_equiv(r, *n),
{
    let count = n.levels.len();
    let mut levels: Vec<Level> = Vec::new();
    let mut i: usize = 0;
    while i < count
        invariant
            0 <= i <= count,
            count == n.levels@.len(),
            net_wf(*n),
            levels@.len() == i,
            forall|k: int| 0 <= k < i ==> level_wf(#[trigger] levels@[k]),
            forall|k: int| 0 <= k < i ==> level_equiv(#[trigger] levels@[k], n.levels@[k]),
        decreases count - i,
    {
        let src = &n.levels[i];
        let rows = src.weights.len();
        let mut weights: Vec<Vec<i64>> = Vec::new();
        let mut w: usize = 0;
        while w < rows
            invariant
                0 <= w <= rows,
                0 <= i < count,
                count == n.levels@.len(),
                net_wf(*n),
                src == &n.levels@[i as int],
                rows == src.weights@.len(),
                weights@.len() == w,
                forall|k: int| 0 <= k < w ==> (#[trigger] weights@[k])@ == src.weights@[k]@,
            decreases rows - w,
        {
            weights.push(copy_values(&src.weights[w]));
            w += 1;
        }
        levels.push(
            Level {
                inputs: copy_values(&src.inputs),
                outputs: copy_values(&src.outputs),
                biases: copy_values(&src.biases),
                weights,
            },
        );
        i += 1;
    }
    NeuralNetwork { levels }
}

/// A copy of a value vector.
fn copy_values(v: &Vec<i64>) -> (r: Vec<i64>)
    ensures
        r@ == v@,
{
    let n = v.len();
    let mut r: Vec<i64> = Vec::new();
    let mut i: usize = 0;
    while i < n
        invariant
            0 <= i <= n,
            n == v@.len(),
            r@ =~= v@.subrange(0, i as int),
        decreases n - i,
    {
        r.push(v[i]);
        proof {
            assert(r@ =~= v@.subrange(0, i as int + 1));
        }
        i += 1;
    }
    proof {
        assert(v@.subrange(0, n as int) =~= v@);
    }
    r
}

/// The result of piping `given` through the chain of levels in order.
pub open spec fn net_out(levels: Seq<Level>, given: Seq<i64>) -> Seq<i64>
    decreases levels.len(),
{
    if levels.len() == 0 {
        given
    } else {
        net_out(levels.skip(1), level_outs(levels[0], given))
    }
}

/// A feed-forward chain always yields exactly scaled 0 or scaled 1 in every
/// position, and exactly as many values as the final level has outputs.
pub proof fn lemma_net_out_binary(levels: Seq<Level>, given: Seq<i64>)
    requires
        levels.len() >= 1,
    ensures
        net_out(levels, given).len() == levels[levels.len() - 1].outputs@.len(),
        forall|j: int|
            0 <= j < net_out(levels, given).len() ==> #[trigger] net_out(levels, given)[j] == 0i64
                || net_out(levels, given)[j] == SCALE,
    decreases levels.len(),
{
    let first_out = level_outs(levels[0], given);
    if levels.len() == 1 {
        assert(net_out(levels.skip(1), first_out) == first_out);
    } else {
        lemma_net_out_binary(levels.skip(1), first_out);
        assert(levels.skip(1)[levels.skip(1).len() - 1] == levels[levels.len() - 1]);
    }
}

impl NeuralNetwork {
    /// A controller with one level between each pair of consecutive neuron
    /// counts, all weights and biases drawn uniformly at random. A list of
    /// fewer than two counts describes no level at all and is refused, as
    /// is a count beyond [`LEVEL_NODE_LIM`].
    pub fn new(neuron_counts: Vec<usize>) -> (r: Option<NeuralNetwork>)
        ensures
            (r is Some) == (neuron_counts@.len() >= 2 && forall|i: int|
                0 <= i < neuron_counts@.len() ==> #[trigger] neuron_counts@[i] <= LEVEL_NODE_LIM),
            r matches Some(net) ==> {
                &&& net_wf(net)
                &&& net.levels@.len() == neuron_counts@.len() - 1
                &&& forall|i: int|
                    0 <= i < net.levels@.len() ==> (#[trigger] net.levels@[i]).inputs@.len()
                        == neuron_counts@[i] && net.levels@[i].outputs@.len() == neuron_counts@[
                        i + 1]
                &&& forall|i: int|
                    0 <= i < net.levels@.len() ==> zeroed_transients(#[trigger] net.levels@[i])
            },
    {
        let n = neuron_counts.len();
        if n < 2 {
            return None;
        }
        let mut c: usize = 0;
        while c < n
            invariant
                0 <= c <= n,
                n == neuron_counts@.len(),
                forall|i: int| 0 <= i < c ==> #[trigger] neuron_counts@[i] <= LEVEL_NODE_LIM,
            decreases n - c,
        {
            if neuron_counts[c] > LEVEL_NODE_LIM {
                return None;
            }
            c += 1;
        }
        let mut levels: Vec<Level> = Vec::new();
        let mut i: usize = 0;
        while i < n - 1
            invariant
                0 <= i <= n - 1,
                2 <= n == neuron_counts@.len(),
                forall|k: int| 0 <= k < n ==> #[trigger] neuron_counts@[k] <= LEVEL_NODE_LIM,
                levels@.len() == i,
                forall|k: int| 0 <= k < i ==> level_wf(#[trigger] levels@[k]),
                forall|k: int|
                    0 <= k < i ==> (#[trigger] levels@[k]).inputs@.len() == neuron_counts@[k]
                        && levels@[k].outputs@.len() == neuron_counts@[k + 1],
                forall|k: int| 0 <= k < i ==> zeroed_transients(#[trigger] levels@[k]),
            decreases n - 1 - i,
        {
            levels.push(Level::new(neuron_counts[i], neuron_counts[i + 1]));
            i += 1;
        }
        Some(NeuralNetwork { levels })
    }

    /// Pipe the given inputs through every level in order. The result is the
    /// final level's output vector: each element exactly scaled 0 or scaled 1.
    pub fn feed_forward(&mut self, given_inputs: Vec<i64>) -> (r: Vec<i64>)
        requires
            net_wf(*old(self)),
            given_inputs@.len() >= old(self).levels@[0].inputs@.len(),
            vals_in_unit(given_inputs@),
        ensures
            net_wf(*final(self)),
            same_params(*final(self), *old(self)),
            r@ == net_out(old(self).levels@, given_inputs@),
            r@.len() == old(self).levels@[old(self).levels@.len() - 1].outputs@.len(),
            forall|j: int| 0 <= j < r@.len() ==> #[trigger] r@[j] == 0i64 || r@[j] == SCALE,
    {
        let ghost orig: Seq<Level> = old(self).levels@;
        let n = self.levels.len();
        let mut current: Vec<i64> = given_inputs;
        proof {
            assert(orig.skip(0) =~= orig);
        }
        let mut i: usize = 0;
        while i < n
            invariant
                0 <= i <= n,
                n == self.levels@.len() == orig.len(),
                net_wf(*old(self)),
                orig == old(self).levels@,
                forall|k: int| i <= k < n ==> #[trigger] self.levels@[k] == orig[k],
                forall|k: int| 0 <= k < i ==> level_params_eq(#[trigger] self.levels@[k], orig[k]),
                forall|k: int| 0 <= k < i ==> level_wf(#[trigger] self.levels@[k]),
                net_out(orig, given_inputs@) == net_out(orig.skip(i as int), current@),
                vals_in_unit(current@),
                i < n ==> current@.len() >= orig[i as int].inputs@.len(),
            decreases n - i,
        {
            let mut lvl = self.levels.remove(i);
            proof {
                assert(lvl == orig[i as int]);
            }
            let out = lvl.feed_forward(current);
            self.levels.insert(i, lvl);
            proof {
                assert(orig.skip(i as int).len() > 0);
                assert(orig.skip(i as int)[0] == orig[i as int]);
                assert(orig.skip(i as int).skip(1) =~= orig.skip(i as int + 1));
                assert(net_out(orig.skip(i as int), current@) == net_out(
                    orig.skip(i as int + 1),
                    level_outs(orig[i as int], current@),
                ));
                if i + 1 < n {
                    assert(orig[i as int].outputs@.len() == orig[i as int + 1].inputs@.len());
                }
            }
            current = out;
            i += 1;
        }
        proof {
            assert(orig.skip(n as int) =~= Seq::<Level>::empty());
            assert(net_out(orig.skip(n as int), current@) == current@);
            lemma_net_out_binary(orig, given_inputs@);
        }
        current
    }

    /// Blend every weight and bias toward an independent fresh uniform
    /// sample by `amount` (scaled; absent means a full replacement): each
    /// parameter `v` becomes the fixed-point interpolation of `v` toward its
    /// own target in the unit interval. Transient inputs and outputs are
    /// untouched, and `amount` 0 leaves the controller bit-for-bit
    /// unchanged.
    pub fn mutate(&mut self, amount: Option<i64>)
        requires
            net_wf(*old(self)),
            amount matches Some(a) ==> 0 <= a <= SCALE,
        ensures
            net_wf(*final(self)),
            same_shape(*final(self), *old(self)),
            net_blended(*final(self), *old(self), blend_amount(amount)),
            amount == Some(0i64) ==> same_params(*final(self), *old(self)),
    {
        let ghost orig: Seq<Level> = old(self).levels@;
        let a: i64 = match amount {
            Some(v) => v,
            None => SCALE,
        };
        let n = self.levels.len();
        let mut i: usize = 0;
        while i < n
            invariant
                0 <= i <= n,
                0 <= a <= SCALE,
                a == (if amount is Some {
                    amount->0
                } else {
                    SCALE as i64
                }),
                n == self.levels@.len() == orig.len(),
                net_wf(*old(self)),
                orig == old(self).levels@,
                forall|k: int| i <= k < n ==> #[trigger] self.levels@[k] == orig[k],
                forall|k: int| 0 <= k < i ==> level_wf(#[trigger] self.levels@[k]),
                forall|k: int|
                    0 <= k < i ==> level_shape_eq(#[trigger] self.levels@[k], orig[k])
                        && self.levels@[k].inputs@ == orig[k].inputs@ && self.levels@[k].outputs@
                        == orig[k].outputs@,
                a == 0 ==> forall|k: int|
                    0 <= k < i ==> level_params_eq(#[trigger] self.levels@[k], orig[k]),
                forall|k: int|
                    0 <= k < i ==> level_blended(#[trigger] self.levels@[k], orig[k], a as int),
            decreases n - i,
        {
            let mut lvl = self.levels.remove(i);
            proof {
                assert(lvl == orig[i as int]);
            }
            let ghost biases0 = lvl.biases@;
            let ghost weights0 = lvl.weights@;
            let bias_len = lvl.biases.len();
            let mut nb: Vec<i64> = Vec::new();
            let mut k: usize = 0;
            while k < bias_len
                invariant
                    0 <= k <= bias_len,
                    0 <= a <= SCALE,
                    bias_len == lvl.biases@.len(),
                    vals_in_unit(lvl.biases@),
                    biases0 == lvl.biases@,
                    nb@.len() == k,
                    vals_in_unit(nb@),
                    forall|idx: int|
                        0 <= idx < k ==> #[trigger] is_blend_of(nb@[idx], biases0[idx], a as int),
                    a == 0 ==> nb@ =~= lvl.biases@.subrange(0, k as int),
                decreases bias_len - k,
            {
                let v = lvl.biases[k];
                let target = rand_in_range(-SCALE, SCALE);
                let blended = lerp(v, target, a);
                proof {
                    if a == 0 {
                        crate::fixed::lemma_lerp_zero(v as int, target as int);
                    }
                }
                nb.push(blended);
                proof {
                    assert(is_blend_of(nb@[k as int], biases0[k as int], a as int)) by {
                        assert(-SCALE <= target <= SCALE && nb@[k as int] == fxlerp(
                            biases0[k as int] as int,
                            target as int,
                            a as int,
                        ));
                    };
                    if a == 0 {
                        assert(nb@ =~= lvl.biases@.subrange(0, k as int + 1));
                    }
                }
                k += 1;
            }
            proof {
                if a == 0 {
                    assert(lvl.biases@.subrange(0, bias_len as int) =~= lvl.biases@);
                }
            }
            lvl.biases = nb;
            let rows = lvl.weights.len();
            let mut nw: Vec<Vec<i64>> = Vec::new();
            let mut r: usize = 0;
            while r < rows
                invariant
                    0 <= r <= rows,
                    0 <= a <= SCALE,
                    rows == lvl.weights@.len(),
                    forall|p: int|
                        0 <= p < rows ==> vals_in_unit((#[trigger] lvl.weights@[p])@),
                    weights0 == lvl.weights@,
                    nw@.len() == r,
                    forall|p: int| 0 <= p < r ==> vals_in_unit((#[trigger] nw@[p])@),
                    forall|p: int|
                        0 <= p < r ==> (#[trigger] nw@[p])@.len() == lvl.weights@[p]@.len(),
                    forall|p: int|
                        0 <= p < r ==> blended_values((#[trigger] nw@[p])@, weights0[p]@, a as int),
                    a == 0 ==> forall|p: int|
                        0 <= p < r ==> (#[trigger] nw@[p])@ == lvl.weights@[p]@,
                decreases rows - r,
            {
                let row_len = lvl.weights[r].len();
                let mut nrow: Vec<i64> = Vec::new();
                let mut k2: usize = 0;
                while k2 < row_len
                    invariant
                        0 <= k2 <= row_len,
                        0 <= a <= SCALE,
                        0 <= r < rows,
                        rows == lvl.weights@.len(),
                        row_len == lvl.weights@[r as int]@.len(),
                        vals_in_unit(lvl.weights@[r as int]@),
                        weights0 == lvl.weights@,
                        nrow@.len() == k2,
                        vals_in_unit(nrow@),
                        forall|idx: int|
                            0 <= idx < k2 ==> #[trigger] is_blend_of(
                                nrow@[idx],
                                weights0[r as int]@[idx],
                                a as int,
                            ),
                        a == 0 ==> nrow@ =~= lvl.weights@[r as int]@.subrange(0, k2 as int),
                    decreases row_len - k2,
                {
                    let v = lvl.weights[r][k2];
                    let target = rand_in_range(-SCALE, SCALE);
                    let blended = lerp(v, target, a);
                    proof {
                        if a == 0 {
                            crate::fixed::lemma_lerp_zero(v as int, target as int);
                        }
                    }
                    nrow.push(blended);
                    proof {
                        assert(is_blend_of(
                            nrow@[k2 as int],
                            weights0[r as int]@[k2 as int],
                            a as int,
                        )) by {
                            assert(-SCALE <= target <= SCALE && nrow@[k2 as int] == fxlerp(
                                weights0[r as int]@[k2 as int] as int,
                                target as int,
                                a as int,
                            ));
                        };
                        if a == 0 {
                            assert(nrow@ =~= lvl.weights@[r as int]@.subrange(0, k2 as int + 1));
                        }
                    }
                    k2 += 1;
                }
                proof {
                    if a == 0 {
                        assert(lvl.weights@[r as int]@.subrange(0, row_len as int) =~= lvl.weights@[
                        r as int]@);
                    }
                }
                nw.push(nrow);
                r += 1;
            }
            lvl.weights = nw;
            proof {
                assert(blended_values(lvl.biases@, orig[i as int].biases@, a as int));
                assert forall|p: int| 0 <= p < lvl.weights@.len() implies blended_values(
                    (#[trigger] lvl.weights@[p])@,
                    orig[i as int].weights@[p]@,
                    a as int,
                ) by {
                    assert(weights0[p] == orig[i as int].weights@[p]);
                };
                assert(level_blended(lvl, orig[i as int], a as int));
            }
            self.levels.insert(i, lvl);
            i += 1;
        }
        proof {
            assert(blend_amount(amount) == a as int);
        }
    }
}

/// A vector of `n` zeros.
fn zero_vec(n: usize) -> (r: Vec<i64>)
    ensures
        r@.len() == n,
        vals_in_unit(r@),
        forall|i: int| 0 <= i < n ==> #[trigger] r@[i] == 0i64,
{
    let mut v: Vec<i64> = Vec::new();
    let mut i: usize = 0;
    while i < n
        invariant
            0 <= i <= n,
            v@.len() == i,
            forall|k: int| 0 <= k < i ==> #[trigger] v@[k] == 0i64,
        decreases n - i,
    {
        v.push(0);
        i += 1;
    }
    v
}

/// A vector of `n` independent uniform samples from the unit interval.
fn random_unit_vec(n: usize) -> (r: Vec<i64>)
    ensures
        r@.len() == n,
        vals_in_unit(r@),
{
    let mut v: Vec<i64> = Vec::new();
    let mut i: usize = 0;
    while i < n
        invariant
            0 <= i <= n,
            v@.len() == i,
            vals_in_unit(v@),
        decreases n - i,
    {
        v.push(rand_in_range(-SCALE, SCALE));
        i += 1;
    }
    v
}

} // verus!
