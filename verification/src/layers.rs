//! Quantized fully connected layers with squared clipped ReLU.
//! Architecture: 512 (256x2) -> 32 -> 32 -> 1, integer arithmetic only.
use vstd::prelude::*;
use crate::arith::{clamp_spec, tdiv, fits_i32, clamp_i16, clamp_i32};
use crate::chess::Color;
use crate::accumulator::{L1_SIZE, QA, QB, QAB, SCALE};

verus! {

pub const L1_OUT: usize = 512;
pub const L2_SIZE: usize = 32;
pub const L3_SIZE: usize = 32;

/// Clipped ReLU: `x` limited to `0..=QA`.
pub open spec fn crelu_spec(x: int) -> int {
    clamp_spec(x, 0, 255)
}

/// Squared clipped ReLU.
pub open spec fn screlu_spec(x: int) -> int {
    crelu_spec(x) * crelu_spec(x)
}

/// Clipped ReLU: max(0, min(QA, x)).
pub fn crelu(x: i16) -> (r: i16)
    ensures
        r == crelu_spec(x as int),
{
    clamp_i16(x, 0, QA as i16)
}

/// Squared clipped ReLU.
pub fn screlu(x: i16) -> (r: i32)
    ensures
        r == screlu_spec(x as int),
        0 <= r <= 65025,
{
    let v = clamp_i16(x, 0, QA as i16) as i32;
    assert(0 <= v * v <= 255 * 255) by (nonlinear_arith)
        requires
            0 <= v <= 255,
    ;
    v * v
}

proof fn lemma_screlu_bounds(x: int)
    ensures
        0 <= screlu_spec(x) <= 65025,
{
    let c = crelu_spec(x);
    assert(0 <= c * c <= 255 * 255) by (nonlinear_arith)
        requires
            0 <= c <= 255,
    ;
}

// ---------------------------------------------------------------------------
// Hidden layer 1: 512 -> 32
// ---------------------------------------------------------------------------

/// First hidden layer. `weights[i * L2_SIZE + j]` links input `i` to neuron `j`.
pub struct Layer2 {
    pub weights: Vec<i8>,
    pub biases: Vec<i32>,
}

/// Partial dot product `sum_{i < k} w[i * 32 + neuron] * input[i]`.
pub open spec fn dot_prefix(w: Seq<i8>, input: Seq<i32>, neuron: int, k: int) -> int
    decreases k,
{
    if k <= 0 {
        0
    } else {
        dot_prefix(w, input, neuron, k - 1) + w[(k - 1) * 32 + neuron] * input[k - 1]
    }
}

/// Every product and every running sum of the dot product for `neuron` is an `i32`.
pub open spec fn dot_fits(w: Seq<i8>, input: Seq<i32>, neuron: int) -> bool {
    &&& forall|i: int| 0 <= i < 512 ==> #[trigger] fits_i32(w[i * 32 + neuron] * input[i])
    &&& forall|k: int| 0 < k <= 512 ==> #[trigger] fits_i32(dot_prefix(w, input, neuron, k))
}

/// What `Layer2::dot_scalar` computes: the dot product divided by `QA`.
pub open spec fn dot_spec(w: Seq<i8>, input: Seq<i32>, neuron: int) -> int {
    tdiv(dot_prefix(w, input, neuron, 512), 255)
}

/// The activated input of the first hidden layer: the squared clipped
/// perspective accumulators, side to move first.
pub open spec fn activate(us: Seq<i16>, them: Seq<i16>) -> Seq<i32> {
    Seq::new(512, |i: int| if i < 256 { screlu_spec(us[i] as int) as i32 } else { screlu_spec(them[i - 256] as int) as i32 })
}

/// Pre-activation of neuron `j`: bias plus the scaled dot product.
pub open spec fn l2_pre(l: Layer2, act: Seq<i32>, j: int) -> int {
    l.biases@[j] + dot_spec(l.weights@, act, j)
}

/// Output of neuron `j` of the first hidden layer.
pub open spec fn l2_neuron(l: Layer2, act: Seq<i32>, j: int) -> int {
    clamp_spec(l2_pre(l, act, j), 0, 8128) / 255
}

/// All outputs of the first hidden layer.
pub open spec fn l2_outputs(l: Layer2, act: Seq<i32>) -> Seq<i32> {
    Seq::new(32, |j: int| l2_neuron(l, act, j) as i32)
}

/// No arithmetic of the first hidden layer leaves `i32` on `act`.
pub open spec fn l2_fits(l: Layer2, act: Seq<i32>) -> bool {
    forall|j: int| 0 <= j < 32 ==> {
        &&& #[trigger] dot_fits(l.weights@, act, j)
        &&& fits_i32(l2_pre(l, act, j))
    }
}

impl Layer2 {
    /// The layer has the architecture's shape.
    pub open spec fn wf(&self) -> bool {
        &&& self.weights@.len() == 512 * 32
        &&& self.biases@.len() == 32
    }

    /// Dot product of `input` with the weights of `neuron`, divided by `QA`.
    pub fn dot_scalar(&self, input: &[i32; L1_OUT], neuron: usize) -> (r: i32)
        requires
            511 * 32 + neuron < self.weights@.len(),
            dot_fits(self.weights@, input@, neuron as int),
        ensures
            r == dot_spec(self.weights@, input@, neuron as int),
    {
        let mut s: i32 = 0;
        let mut i: usize = 0;
        while i < L1_OUT
            invariant
                i <= 512,
                511 * 32 + neuron < self.weights@.len(),
                dot_fits(self.weights@, input@, neuron as int),
                s == dot_prefix(self.weights@, input@, neuron as int, i as int),
            decreases 512 - i,
        {
            assert(i * 32 + neuron < self.weights.len());
            let w = self.weights[i * L2_SIZE + neuron] as i32;
            assert(fits_i32(self.weights@[i * 32 + neuron] * input@[i as int]));
            assert(fits_i32(dot_prefix(self.weights@, input@, neuron as int, i + 1)));
            s = s + w * input[i];
            i = i + 1;
        }
        s / QA
    }

    /// Forward pass: squared clipped perspectives in, 32 neurons out.
    pub fn forward(&self, input_w: &[i16; L1_SIZE], input_b: &[i16; L1_SIZE], output: &mut [i32; L2_SIZE])
        requires
            self.wf(),
            l2_fits(*self, activate(input_w@, input_b@)),
        ensures
            final(output)@ == l2_outputs(*self, activate(input_w@, input_b@)),
            forall|j: int| 0 <= j < 32 ==> 0 <= #[trigger] final(output)@[j] <= 31,
    {
        proof {
            lemma_l2_outputs_clipped(*self, activate(input_w@, input_b@));
        }
        let ghost act = activate(input_w@, input_b@);
        let mut activated = [0i32; 512];
        let mut i: usize = 0;
        while i < L1_SIZE
            invariant
                i <= 256,
                act == activate(input_w@, input_b@),
                activated@.len() == 512,
                forall|k: int| 0 <= k < i ==> activated@[k] == act[k],
                forall|k: int| 256 <= k < 256 + i ==> activated@[k] == act[k],
            decreases 256 - i,
        {
            activated[i] = screlu(input_w[i]);
            activated[L1_SIZE + i] = screlu(input_b[i]);
            i = i + 1;
        }
        assert(activated@ =~= act);
        let mut j: usize = 0;
        while j < L2_SIZE
            invariant
                j <= 32,
                self.wf(),
                activated@ == act,
                l2_fits(*self, act),
                output@.len() == 32,
                forall|k: int| 0 <= k < j ==> output@[k] == l2_outputs(*self, act)[k],
            decreases 32 - j,
        {
            assert(dot_fits(self.weights@, act, j as int));
            let d = self.dot_scalar(&activated, j);
            let sum: i32 = self.biases[j] + d;
            let c = clamp_i32(sum, 0, QB * 127);
            output[j] = c / QA;
            j = j + 1;
        }
        assert(output@ =~= l2_outputs(*self, act));
    }
}

// ---------------------------------------------------------------------------
// Hidden layer 2: 32 -> 32
// ---------------------------------------------------------------------------

/// Second hidden layer. `weights[i * L3_SIZE + j]` links input `i` to neuron `j`.
pub struct Layer3 {
    pub weights: Vec<i8>,
    pub biases: Vec<i32>,
}

/// An input of the second hidden layer or the output layer after clipping
/// to `0..=QA*QB` and rescaling by `QB`.
pub open spec fn rescale(x: int) -> int {
    clamp_spec(x, 0, 16320) / 64
}

/// Running sum of neuron `j` after `k` inputs.
pub open spec fn l3_prefix(l: Layer3, input: Seq<i32>, j: int, k: int) -> int
    decreases k,
{
    if k <= 0 {
        l.biases@[j] as int
    } else {
        let v = rescale(input[k - 1] as int);
        l3_prefix(l, input, j, k - 1) + tdiv(l.weights@[(k - 1) * 32 + j] * v * v, 64)
    }
}

/// Output of neuron `j` of the second hidden layer.
pub open spec fn l3_neuron(l: Layer3, input: Seq<i32>, j: int) -> int {
    rescale(l3_prefix(l, input, j, 32))
}

/// All outputs of the second hidden layer.
pub open spec fn l3_outputs(l: Layer3, input: Seq<i32>) -> Seq<i32> {
    Seq::new(32, |j: int| l3_neuron(l, input, j) as i32)
}

/// No running sum of the second hidden layer leaves `i32` on `input`.
pub open spec fn l3_fits(l: Layer3, input: Seq<i32>) -> bool {
    forall|j: int, k: int| 0 <= j < 32 && 0 < k <= 32 ==> #[trigger] fits_i32(l3_prefix(l, input, j, k))
}

proof fn lemma_rescale_bounds(x: int)
    ensures
        0 <= rescale(x) <= 255,
{
}

proof fn lemma_term_bounds(w: int, v: int)
    requires
        -128 <= w <= 127,
        0 <= v <= 255,
    ensures
        -128 * 65025 <= w * v * v <= 127 * 65025,
        -128 * 255 <= w * v <= 127 * 255,
{
    assert(0 <= v * v <= 65025) by (nonlinear_arith)
        requires
            0 <= v <= 255,
    ;
    assert(-128 * 65025 <= w * (v * v) <= 127 * 65025) by (nonlinear_arith)
        requires
            -128 <= w <= 127,
            0 <= v * v <= 65025,
    ;
    assert(w * v * v == w * (v * v)) by (nonlinear_arith);
    assert(-128 * 255 <= w * v <= 127 * 255) by (nonlinear_arith)
        requires
            -128 <= w <= 127,
            0 <= v <= 255,
    ;
}

impl Layer3 {
    /// The layer has the architecture's shape.
    pub open spec fn wf(&self) -> bool {
        &&& self.weights@.len() == 32 * 32
        &&& self.biases@.len() == 32
    }

    /// Forward pass: 32 inputs, 32 neurons out.
    pub fn forward(&self, input: &[i32; L2_SIZE], output: &mut [i32; L3_SIZE])
        requires
            self.wf(),
            l3_fits(*self, input@),
        ensures
            final(output)@ == l3_outputs(*self, input@),
            forall|j: int| 0 <= j < 32 ==> 0 <= #[trigger] final(output)@[j] <= 255,
    {
        proof {
            lemma_l3_outputs_clipped(*self, input@);
        }
        let mut j: usize = 0;
        while j < L3_SIZE
            invariant
                j <= 32,
                self.wf(),
                l3_fits(*self, input@),
                output@.len() == 32,
                forall|k: int| 0 <= k < j ==> output@[k] == l3_outputs(*self, input@)[k],
            decreases 32 - j,
        {
            let mut sum = self.biases[j];
            let mut i: usize = 0;
            while i < L2_SIZE
                invariant
                    i <= 32,
                    j < 32,
                    self.wf(),
                    l3_fits(*self, input@),
                    sum == l3_prefix(*self, input@, j as int, i as int),
                decreases 32 - i,
            {
                let w = self.weights[i * L3_SIZE + j] as i32;
                let v = clamp_i32(input[i], 0, QB * QA) / QB;
                proof {
                    lemma_term_bounds(w as int, v as int);
                }
                assert(fits_i32(l3_prefix(*self, input@, j as int, i + 1)));
                sum = sum + w * v * v / QB;
                i = i + 1;
            }
            output[j] = clamp_i32(sum, 0, QB * QA) / QB;
            j = j + 1;
        }
        assert(output@ =~= l3_outputs(*self, input@));
    }
}

// ---------------------------------------------------------------------------
// Output layer: 32 -> 1
// ---------------------------------------------------------------------------

/// Output neuron.
pub struct OutputLayer {
    pub weights: Vec<i8>,
    pub bias: i32,
}

/// Running sum of the output neuron after `k` inputs.
pub open spec fn out_prefix(l: OutputLayer, input: Seq<i32>, k: int) -> int
    decreases k,
{
    if k <= 0 {
        l.bias as int
    } else {
        out_prefix(l, input, k - 1) + l.weights@[k - 1] * rescale(input[k - 1] as int)
    }
}

/// No running sum of the output neuron leaves `i32` on `input`.
pub open spec fn out_fits(l: OutputLayer, input: Seq<i32>) -> bool {
    forall|k: int| 0 < k <= 32 ==> #[trigger] fits_i32(out_prefix(l, input, k))
}

impl OutputLayer {
    /// The layer has the architecture's shape.
    pub open spec fn wf(&self) -> bool {
        self.weights@.len() == 32
    }

    /// Forward pass: the raw, still quantized evaluation.
    pub fn forward(&self, input: &[i32; L3_SIZE]) -> (r: i32)
        requires
            self.wf(),
            out_fits(*self, input@),
        ensures
            r == out_prefix(*self, input@, 32),
    {
        let mut sum = self.bias;
        let mut i: usize = 0;
        while i < L3_SIZE
            invariant
                i <= 32,
                self.wf(),
                out_fits(*self, input@),
                sum == out_prefix(*self, input@, i as int),
            decreases 32 - i,
        {
            let v = clamp_i32(input[i], 0, QB * QA) / QB;
            proof {
                lemma_term_bounds(self.weights@[i as int] as int, v as int);
            }
            assert(fits_i32(out_prefix(*self, input@, i + 1)));
            sum = sum + self.weights[i] as i32 * v;
            i = i + 1;
        }
        sum
    }
}

// ---------------------------------------------------------------------------
// Whole network
// ---------------------------------------------------------------------------

/// The accumulators seen from the side to move: its own first.
pub open spec fn perspective(acc_white: Seq<i16>, acc_black: Seq<i16>, stm: Color) -> (Seq<i16>, Seq<i16>) {
    match stm {
        Color::White => (acc_white, acc_black),
        Color::Black => (acc_black, acc_white),
    }
}

/// The activated input of the network for the side to move.
pub open spec fn network_input(acc_white: Seq<i16>, acc_black: Seq<i16>, stm: Color) -> Seq<i32> {
    let (us, them) = perspective(acc_white, acc_black, stm);
    activate(us, them)
}

/// Raw output of the layers, before conversion to centipawns.
pub open spec fn network_raw(acc_white: Seq<i16>, acc_black: Seq<i16>, l2: Layer2, l3: Layer3, out: OutputLayer, stm: Color) -> int {
    let a2 = l2_outputs(l2, network_input(acc_white, acc_black, stm));
    let a3 = l3_outputs(l3, a2);
    out_prefix(out, a3, 32)
}

/// No arithmetic of the forward pass leaves `i32`.
pub open spec fn network_fits(acc_white: Seq<i16>, acc_black: Seq<i16>, l2: Layer2, l3: Layer3, out: OutputLayer, stm: Color) -> bool {
    let a1 = network_input(acc_white, acc_black, stm);
    let a2 = l2_outputs(l2, a1);
    let a3 = l3_outputs(l3, a2);
    &&& l2_fits(l2, a1)
    &&& l3_fits(l3, a2)
    &&& out_fits(out, a3)
    &&& fits_i32(out_prefix(out, a3, 32) * 400)
}

/// The evaluation in centipawns from the side to move's point of view.
pub open spec fn network_eval(acc_white: Seq<i16>, acc_black: Seq<i16>, l2: Layer2, l3: Layer3, out: OutputLayer, stm: Color) -> int {
    tdiv(network_raw(acc_white, acc_black, l2, l3, out, stm) * 400, 16320)
}

/// Full network forward: returns the evaluation in centipawns from the side
/// to move's point of view.
pub fn forward_network(
    acc_white: &[i16; L1_SIZE],
    acc_black: &[i16; L1_SIZE],
    l2: &Layer2,
    l3: &Layer3,
    out: &OutputLayer,
    stm: Color,
) -> (r: i32)
    requires
        l2.wf(),
        l3.wf(),
        out.wf(),
        network_fits(acc_white@, acc_black@, *l2, *l3, *out, stm),
    ensures
        r == network_eval(acc_white@, acc_black@, *l2, *l3, *out, stm),
{
    let mut buf2 = [0i32; 32];
    let mut buf3 = [0i32; 32];
    let (w, b) = match stm {
        Color::White => (acc_white, acc_black),
        Color::Black => (acc_black, acc_white),
    };
    l2.forward(w, b, &mut buf2);
    l3.forward(&buf2, &mut buf3);
    let raw = out.forward(&buf3);
    raw * SCALE / QAB
}


// ---------------------------------------------------------------------------
// A sufficient check that no input can make the arithmetic overflow
// ---------------------------------------------------------------------------

/// `|x|`.
pub open spec fn abs(x: int) -> int {
    if x < 0 {
        -x
    } else {
        x
    }
}

/// Sum of `|w[i * 32 + j]|` over `i < k`.
pub open spec fn abs_col(w: Seq<i8>, j: int, k: int) -> int
    decreases k,
{
    if k <= 0 {
        0
    } else {
        abs_col(w, j, k - 1) + abs(w[(k - 1) * 32 + j] as int)
    }
}

/// Sum of `|w[i]|` over `i < k`.
pub open spec fn abs_sum(w: Seq<i8>, k: int) -> int
    decreases k,
{
    if k <= 0 {
        0
    } else {
        abs_sum(w, k - 1) + abs(w[k - 1] as int)
    }
}

/// Every activation lies in the range squared clipped ReLU produces.
pub open spec fn activations_in_range(act: Seq<i32>) -> bool {
    forall|i: int| 0 <= i < 512 ==> 0 <= #[trigger] act[i] <= 65025
}

/// The first hidden layer cannot overflow on any activation.
pub open spec fn l2_safe(l: Layer2) -> bool {
    forall|act: Seq<i32>| act.len() == 512 && activations_in_range(act) ==> #[trigger] l2_fits(l, act)
}

/// The second hidden layer cannot overflow on any input.
pub open spec fn l3_safe(l: Layer3) -> bool {
    forall|input: Seq<i32>| input.len() == 32 ==> #[trigger] l3_fits(l, input)
}

/// The output layer, and the conversion to centipawns, cannot overflow on any input.
pub open spec fn out_safe(l: OutputLayer) -> bool {
    forall|input: Seq<i32>| input.len() == 32 ==> {
        &&& #[trigger] out_fits(l, input)
        &&& fits_i32(out_prefix(l, input, 32) * 400)
    }
}

proof fn lemma_mul_abs_bound(w: int, a: int, m: int)
    requires
        0 <= a <= m,
    ensures
        abs(w * a) <= abs(w) * m,
{
    assert(abs(w * a) <= abs(w) * m) by (nonlinear_arith)
        requires
            0 <= a <= m,
    ;
}

proof fn lemma_dot_bound(w: Seq<i8>, act: Seq<i32>, j: int, k: int)
    requires
        0 <= k <= 512,
        0 <= j < 32,
        w.len() == 512 * 32,
        act.len() == 512,
        activations_in_range(act),
    ensures
        abs(dot_prefix(w, act, j, k)) <= 65025 * abs_col(w, j, k),
        0 <= abs_col(w, j, k) <= 128 * k,
    decreases k,
{
    if k > 0 {
        lemma_dot_bound(w, act, j, k - 1);
        lemma_mul_abs_bound(w[(k - 1) * 32 + j] as int, act[k - 1] as int, 65025);
    }
}

proof fn lemma_abs_col_mono(w: Seq<i8>, j: int, k: int, n: int)
    requires
        0 <= k <= n,
    ensures
        abs_col(w, j, k) <= abs_col(w, j, n),
    decreases n - k,
{
    if k < n {
        lemma_abs_col_mono(w, j, k, n - 1);
    }
}

proof fn lemma_abs_sum_mono(w: Seq<i8>, k: int, n: int)
    requires
        0 <= k <= n,
    ensures
        0 <= abs_sum(w, k) <= abs_sum(w, n),
    decreases n - k,
{
    if k < n {
        lemma_abs_sum_mono(w, k, n - 1);
    } else {
        lemma_abs_sum_nonneg(w, k);
    }
}

proof fn lemma_abs_sum_nonneg(w: Seq<i8>, k: int)
    ensures
        0 <= abs_sum(w, k),
    decreases k,
{
    if k > 0 {
        lemma_abs_sum_nonneg(w, k - 1);
    }
}

proof fn lemma_l3_bound(l: Layer3, input: Seq<i32>, j: int, k: int)
    requires
        0 <= k <= 32,
        0 <= j < 32,
        l.wf(),
    ensures
        abs(l3_prefix(l, input, j, k) - l.biases@[j]) <= 1017 * abs_col(l.weights@, j, k),
    decreases k,
{
    if k > 0 {
        lemma_l3_bound(l, input, j, k - 1);
        let v = rescale(input[k - 1] as int);
        let w = l.weights@[(k - 1) * 32 + j] as int;
        lemma_rescale_bounds(input[k - 1] as int);
        assert(0 <= v * v <= 65025) by (nonlinear_arith)
            requires
                0 <= v <= 255,
        ;
        assert(w * v * v == w * (v * v)) by (nonlinear_arith);
        lemma_mul_abs_bound(w, v * v, 65025);
        assert(abs(tdiv(w * (v * v), 64)) <= abs(w) * 1017) by (nonlinear_arith)
            requires
                abs(w * (v * v)) <= abs(w) * 65025,
        ;
    }
}

proof fn lemma_out_bound(l: OutputLayer, input: Seq<i32>, k: int)
    requires
        0 <= k <= 32,
        l.wf(),
    ensures
        abs(out_prefix(l, input, k) - l.bias) <= 255 * abs_sum(l.weights@, k),
    decreases k,
{
    if k > 0 {
        lemma_out_bound(l, input, k - 1);
        lemma_rescale_bounds(input[k - 1] as int);
        lemma_mul_abs_bound(l.weights@[k - 1] as int, rescale(input[k - 1] as int), 255);
    }
}

/// The bounds `Layer2::bounded` checks: for every neuron, the absolute
/// weights times the largest activation, and the bias plus or minus their
/// rescaled value, stay within `i32`.
pub open spec fn l2_within(l: Layer2) -> bool {
    forall|j: int| 0 <= j < 32 ==> {
        &&& 65025 * #[trigger] abs_col(l.weights@, j, 512) <= 2147483647
        &&& -2147483647 <= l.biases@[j] - 255 * abs_col(l.weights@, j, 512)
        &&& l.biases@[j] + 255 * abs_col(l.weights@, j, 512) <= 2147483647
    }
}

/// The bounds `Layer3::bounded` checks: for every neuron, the bias plus or
/// minus the absolute weights times the largest rescaled term stays within
/// `i32`.
pub open spec fn l3_within(l: Layer3) -> bool {
    forall|j: int| 0 <= j < 32 ==> {
        &&& -2147483648 <= l.biases@[j] - 1017 * #[trigger] abs_col(l.weights@, j, 32)
        &&& l.biases@[j] + 1017 * abs_col(l.weights@, j, 32) <= 2147483647
    }
}

/// The bounds `OutputLayer::bounded` checks: the bias plus or minus the
/// absolute weights times the largest input stays within `i32 / 400`.
pub open spec fn out_within(l: OutputLayer) -> bool {
    &&& -5368709 <= l.bias - 255 * abs_sum(l.weights@, 32)
    &&& l.bias + 255 * abs_sum(l.weights@, 32) <= 5368709
}

/// `|x|` as an `i64`.
fn abs64(x: i8) -> (r: i64)
    ensures
        r == abs(x as int),
{
    if x < 0 {
        -(x as i64)
    } else {
        x as i64
    }
}

impl Layer2 {
    /// A sufficient check that no activation can overflow this layer: for
    /// every neuron, the absolute weights times the largest activation, and
    /// the bias plus their rescaled value, stay within `i32`.
    pub fn bounded(&self) -> (r: bool)
        requires
            self.wf(),
        ensures
            r == l2_within(*self),
            r ==> l2_safe(*self),
    {
        let mut j: usize = 0;
        while j < L2_SIZE
            invariant
                j <= 32,
                self.wf(),
                forall|jj: int| 0 <= jj < j ==> {
                    &&& 65025 * #[trigger] abs_col(self.weights@, jj, 512) <= 2147483647
                    &&& -2147483647 <= self.biases@[jj] - 255 * abs_col(self.weights@, jj, 512)
                    &&& self.biases@[jj] + 255 * abs_col(self.weights@, jj, 512) <= 2147483647
                },
            decreases 32 - j,
        {
            let mut s: i64 = 0;
            let mut i: usize = 0;
            while i < L1_OUT
                invariant
                    i <= 512,
                    j < 32,
                    self.wf(),
                    s == abs_col(self.weights@, j as int, i as int),
                    0 <= s <= 128 * i,
                decreases 512 - i,
            {
                s = s + abs64(self.weights[i * L2_SIZE + j]);
                i = i + 1;
            }
            let b = self.biases[j] as i64;
            if 65025 * s > 2147483647 || b - 255 * s < -2147483647 || b + 255 * s > 2147483647 {
                assert(!l2_within(*self)) by {
                    assert(abs_col(self.weights@, j as int, 512) == s);
                }
                return false;
            }
            j = j + 1;
        }
        assert(l2_within(*self));
        proof {
            assert forall|act: Seq<i32>| act.len() == 512 && activations_in_range(act) implies #[trigger] l2_fits(*self, act) by {
                assert forall|jj: int| 0 <= jj < 32 implies {
                    &&& #[trigger] dot_fits(self.weights@, act, jj)
                    &&& fits_i32(l2_pre(*self, act, jj))
                } by {
                    assert forall|i: int| 0 <= i < 512 implies #[trigger] fits_i32(self.weights@[i * 32 + jj] * act[i]) by {
                        lemma_mul_abs_bound(self.weights@[i * 32 + jj] as int, act[i] as int, 65025);
                    }
                    assert forall|k: int| 0 < k <= 512 implies #[trigger] fits_i32(dot_prefix(self.weights@, act, jj, k)) by {
                        lemma_dot_bound(self.weights@, act, jj, k);
                        lemma_abs_col_mono(self.weights@, jj, k, 512);
                    }
                    lemma_dot_bound(self.weights@, act, jj, 512);
                    let d = dot_prefix(self.weights@, act, jj, 512);
                    let a = abs_col(self.weights@, jj, 512);
                    assert(abs(tdiv(d, 255)) <= 255 * a) by (nonlinear_arith)
                        requires
                            abs(d) <= 65025 * a,
                    ;
                }
            }
        }
        true
    }
}

impl Layer3 {
    /// A sufficient check that no input can overflow this layer: for every
    /// neuron, the bias plus the absolute weights times the largest rescaled
    /// term stays within `i32`.
    pub fn bounded(&self) -> (r: bool)
        requires
            self.wf(),
        ensures
            r == l3_within(*self),
            r ==> l3_safe(*self),
    {
        let mut j: usize = 0;
        while j < L3_SIZE
            invariant
                j <= 32,
                self.wf(),
                forall|jj: int| 0 <= jj < j ==> {
                    &&& -2147483648 <= self.biases@[jj] - 1017 * #[trigger] abs_col(self.weights@, jj, 32)
                    &&& self.biases@[jj] + 1017 * abs_col(self.weights@, jj, 32) <= 2147483647
                },
            decreases 32 - j,
        {
            let mut s: i64 = 0;
            let mut i: usize = 0;
            while i < L2_SIZE
                invariant
                    i <= 32,
                    j < 32,
                    self.wf(),
                    s == abs_col(self.weights@, j as int, i as int),
                    0 <= s <= 128 * i,
                decreases 32 - i,
            {
                s = s + abs64(self.weights[i * L3_SIZE + j]);
                i = i + 1;
            }
            let b = self.biases[j] as i64;
            if b - 1017 * s < -2147483648 || b + 1017 * s > 2147483647 {
                assert(!l3_within(*self)) by {
                    assert(abs_col(self.weights@, j as int, 32) == s);
                }
                return false;
            }
            j = j + 1;
        }
        assert(l3_within(*self));
        proof {
            assert forall|input: Seq<i32>| input.len() == 32 implies #[trigger] l3_fits(*self, input) by {
                assert forall|jj: int, k: int| 0 <= jj < 32 && 0 < k <= 32 implies #[trigger] fits_i32(l3_prefix(*self, input, jj, k)) by {
                    lemma_l3_bound(*self, input, jj, k);
                    lemma_abs_col_mono(self.weights@, jj, k, 32);
                }
            }
        }
        true
    }
}

impl OutputLayer {
    /// A sufficient check that no input can overflow this layer or the
    /// conversion to centipawns.
    pub fn bounded(&self) -> (r: bool)
        requires
            self.wf(),
        ensures
            r == out_within(*self),
            r ==> out_safe(*self),
    {
        let mut s: i64 = 0;
        let mut i: usize = 0;
        while i < L3_SIZE
            invariant
                i <= 32,
                self.wf(),
                s == abs_sum(self.weights@, i as int),
                0 <= s <= 128 * i,
            decreases 32 - i,
        {
            s = s + abs64(self.weights[i]);
            i = i + 1;
        }
        let b = self.bias as i64;
        if b - 255 * s < -5368709 || b + 255 * s > 5368709 {
            return false;
        }
        proof {
            assert forall|input: Seq<i32>| input.len() == 32 implies {
                &&& #[trigger] out_fits(*self, input)
                &&& fits_i32(out_prefix(*self, input, 32) * 400)
            } by {
                assert forall|k: int| 0 < k <= 32 implies #[trigger] fits_i32(out_prefix(*self, input, k)) by {
                    lemma_out_bound(*self, input, k);
                    lemma_abs_sum_mono(self.weights@, k, 32);
                }
                lemma_out_bound(*self, input, 32);
            }
        }
        true
    }
}

/// No accumulator values, of either side to move, can make the forward
/// pass overflow.
pub open spec fn network_safe(l2: Layer2, l3: Layer3, out: OutputLayer) -> bool {
    forall|acc_white: Seq<i16>, acc_black: Seq<i16>, stm: Color|
        acc_white.len() == 256 && acc_black.len() == 256 ==> #[trigger] network_fits(acc_white, acc_black, l2, l3, out, stm)
}

/// The three layer checks together rule out overflow for every input.
pub proof fn lemma_safe_layers(l2: Layer2, l3: Layer3, out: OutputLayer)
    requires
        l2.wf(),
        l2_safe(l2),
        l3_safe(l3),
        out_safe(out),
    ensures
        network_safe(l2, l3, out),
{
    assert forall|acc_white: Seq<i16>, acc_black: Seq<i16>, stm: Color|
        acc_white.len() == 256 && acc_black.len() == 256 implies #[trigger] network_fits(acc_white, acc_black, l2, l3, out, stm) by {
        let a1 = network_input(acc_white, acc_black, stm);
        assert forall|i: int| 0 <= i < 512 implies 0 <= #[trigger] a1[i] <= 65025 by {
            let (us, them) = perspective(acc_white, acc_black, stm);
            if i < 256 {
                lemma_screlu_bounds(us[i] as int);
            } else {
                lemma_screlu_bounds(them[i - 256] as int);
            }
        }
        assert(l2_fits(l2, a1));
        let a2 = l2_outputs(l2, a1);
        assert(l3_fits(l3, a2));
        let a3 = l3_outputs(l3, a2);
        assert(out_fits(out, a3));
    }
}

/// The evaluation of a forward pass that does not overflow stays below
/// 131589 centipawns in magnitude.
pub proof fn lemma_eval_bound(acc_white: Seq<i16>, acc_black: Seq<i16>, l2: Layer2, l3: Layer3, out: OutputLayer, stm: Color)
    requires
        network_fits(acc_white, acc_black, l2, l3, out, stm),
    ensures
        -131589 <= network_eval(acc_white, acc_black, l2, l3, out, stm) <= 131589,
{
    let x = network_raw(acc_white, acc_black, l2, l3, out, stm) * 400;
    assert(-131589 <= tdiv(x, 16320) <= 131589) by (nonlinear_arith)
        requires
            fits_i32(x),
    ;
}


/// The activation of the first hidden layer squares each accumulator value
/// clipped to `0..=255`, side to move first: every input lies in `0..=65025`.
pub proof fn lemma_activation_clipped(us: Seq<i16>, them: Seq<i16>)
    ensures
        forall|i: int| 0 <= i < 512 ==> {
            let x: int = if i < 256 { us[i] as int } else { them[i - 256] as int };
            let c: int = if x < 0 { 0 } else if x > 255 { 255 } else { x };
            &&& #[trigger] activate(us, them)[i] == c * c
            &&& 0 <= activate(us, them)[i] <= 65025
        },
{
    assert forall|i: int| 0 <= i < 512 implies {
        let x: int = if i < 256 { us[i] as int } else { them[i - 256] as int };
        let c: int = if x < 0 { 0 } else if x > 255 { 255 } else { x };
        &&& #[trigger] activate(us, them)[i] == c * c
        &&& 0 <= activate(us, them)[i] <= 65025
    } by {
        let x: int = if i < 256 { us[i] as int } else { them[i - 256] as int };
        let c: int = if x < 0 { 0 } else if x > 255 { 255 } else { x };
        assert(0 <= c * c <= 65025) by (nonlinear_arith)
            requires
                0 <= c <= 255,
        ;
    }
}

/// Each neuron of the first hidden layer adds its bias to the dot product of
/// its weights with the activation, divided by 255 (rounding toward zero),
/// clips the sum to `0..=8128` and divides it by 255: every output lies in
/// `0..=31`.
pub proof fn lemma_l2_outputs_clipped(l: Layer2, act: Seq<i32>)
    ensures
        forall|j: int| 0 <= j < 32 ==> {
            let d = dot_prefix(l.weights@, act, j, 512);
            let q: int = if d >= 0 { d / 255 } else { -((-d) / 255) };
            let s: int = l.biases@[j] + q;
            let c: int = if s < 0 { 0 } else if s > 8128 { 8128 } else { s };
            &&& #[trigger] l2_outputs(l, act)[j] == c / 255
            &&& 0 <= l2_outputs(l, act)[j] <= 31
        },
{
}

/// Each neuron of the second hidden layer adds to its bias, for every input
/// `x`, `w * v * v / 64` (rounding toward zero) with `v` the input clipped to
/// `0..=16320` and divided by 64; it then clips the sum to `0..=16320` and
/// divides it by 64: every output lies in `0..=255`.
pub proof fn lemma_l3_outputs_clipped(l: Layer3, input: Seq<i32>)
    ensures
        forall|j: int, k: int| 0 <= j < 32 && 0 <= k < 32 ==> {
            let x = input[k] as int;
            let v: int = (if x < 0 { 0 } else if x > 16320 { 16320 } else { x }) / 64;
            let t = l.weights@[k * 32 + j] * v * v;
            #[trigger] l3_prefix(l, input, j, k + 1) == l3_prefix(l, input, j, k) + (if t >= 0 { t / 64 } else { -((-t) / 64) })
        },
        forall|j: int| 0 <= j < 32 ==> l3_prefix(l, input, j, 0) == l.biases@[j],
        forall|j: int| 0 <= j < 32 ==> {
            let s = l3_prefix(l, input, j, 32);
            let c: int = if s < 0 { 0 } else if s > 16320 { 16320 } else { s };
            &&& #[trigger] l3_outputs(l, input)[j] == c / 64
            &&& 0 <= l3_outputs(l, input)[j] <= 255
        },
{
}

/// The output neuron adds to its bias, for every input `x`, its weight times
/// `x` clipped to `0..=16320` and divided by 64.
pub proof fn lemma_output_sum(l: OutputLayer, input: Seq<i32>)
    ensures
        out_prefix(l, input, 0) == l.bias,
        forall|k: int| 0 <= k < 32 ==> {
            let x = input[k] as int;
            let v: int = (if x < 0 { 0 } else if x > 16320 { 16320 } else { x }) / 64;
            #[trigger] out_prefix(l, input, k + 1) == out_prefix(l, input, k) + l.weights@[k] * v
        },
{
}

} // verus!
