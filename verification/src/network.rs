//! The whole network: feature transformer, hidden layers, output, and the
//! accumulators kept for search; its evaluation and its file format.
use vstd::prelude::*;
use crate::accumulator::{Accumulator, FeatureTransformer, L1_SIZE, refreshed};
use crate::chess::{Color, Position};
use crate::codec::{
    le16, le32, u16_of, u32_of, u32_le_bytes, i16_le_bytes, i32_le_bytes, read_u32_le, read_i16_le,
    read_i32_le, lemma_i16_roundtrip, lemma_i32_roundtrip, lemma_i8_roundtrip, lemma_u32_roundtrip,
};
use crate::features::INPUT_SIZE;
use crate::layers::{
    Layer2, Layer3, OutputLayer, forward_network, network_eval, network_fits, network_safe, lemma_safe_layers, l2_within,
    l3_within, out_within,
};

verus! {

/// "CNNU": the first four bytes of a network file.
pub const NNUE_MAGIC: u32 = 0x434E4E55;
pub const NNUE_VERSION: u32 = 1;

/// The quantized network and the accumulators it keeps for search.
pub struct Network {
    pub ft: FeatureTransformer,
    pub l2: Layer2,
    pub l3: Layer3,
    pub output: OutputLayer,
    pub acc_white: Accumulator,
    pub acc_black: Accumulator,
}

/// Why bytes are not a network.
#[derive(Clone, Copy, Debug, PartialEq, Eq, Structural)]
pub enum LoadError {
    /// The bytes end before the last parameter.
    UnexpectedEof,
}

/// The accumulator of a perspective after a full refresh for `board`.
pub open spec fn refreshed_for(ft: FeatureTransformer, board: Position, perspective: Color) -> Seq<i16> {
    refreshed(ft.biases@, ft.weights@, crate::features::active(board, perspective))
}

/// Bytes of a sequence of `i16`, two per value, little-endian.
pub open spec fn enc_i16s(s: Seq<i16>) -> Seq<u8> {
    Seq::new(2 * s.len(), |k: int| le16(s[k / 2] as u16)[k % 2])
}

/// Bytes of a sequence of `i32`, four per value, little-endian.
pub open spec fn enc_i32s(s: Seq<i32>) -> Seq<u8> {
    Seq::new(4 * s.len(), |k: int| le32(s[k / 4] as u32)[k % 4])
}

/// Bytes of a sequence of `i8`, one per value.
pub open spec fn enc_i8s(s: Seq<i8>) -> Seq<u8> {
    Seq::new(s.len(), |k: int| s[k] as u8)
}

/// `n` values of `i16` read from `b` at `off`.
pub open spec fn dec_i16s(b: Seq<u8>, off: int, n: nat) -> Seq<i16> {
    Seq::new(n, |i: int| u16_of(b[off + 2 * i], b[off + 2 * i + 1]) as i16)
}

/// `n` values of `i32` read from `b` at `off`.
pub open spec fn dec_i32s(b: Seq<u8>, off: int, n: nat) -> Seq<i32> {
    Seq::new(n, |i: int| u32_of(b[off + 4 * i], b[off + 4 * i + 1], b[off + 4 * i + 2], b[off + 4 * i + 3]) as i32)
}

/// `n` values of `i8` read from `b` at `off`.
pub open spec fn dec_i8s(b: Seq<u8>, off: int, n: nat) -> Seq<i8> {
    Seq::new(n, |i: int| b[off + i] as i8)
}

/// The file image of a network: magic, version, then feature transformer
/// weights and biases, layer 2 weights and biases, layer 3 weights and
/// biases, output weights and bias, all little-endian.
pub open spec fn serialized(n: Network) -> Seq<u8> {
    le32(NNUE_MAGIC) + le32(NNUE_VERSION) + enc_i16s(n.ft.weights@) + enc_i16s(n.ft.biases@) + enc_i8s(n.l2.weights@)
        + enc_i32s(n.l2.biases@) + enc_i8s(n.l3.weights@) + enc_i32s(n.l3.biases@) + enc_i8s(n.output.weights@)
        + le32(n.output.bias as u32)
}

// Offsets of the sections of a network file.
pub open spec fn off_ft_biases() -> int { 8int + 2 * (40960 * 256) }
pub open spec fn off_l2_weights() -> int { off_ft_biases() + 2 * 256 }
pub open spec fn off_l2_biases() -> int { off_l2_weights() + 512 * 32 }
pub open spec fn off_l3_weights() -> int { off_l2_biases() + 4 * 32 }
pub open spec fn off_l3_biases() -> int { off_l3_weights() + 32 * 32 }
pub open spec fn off_out_weights() -> int { off_l3_biases() + 4 * 32 }
pub open spec fn off_out_bias() -> int { off_out_weights() + 32 }
/// Length of a network file.
pub open spec fn file_len() -> int { off_out_bias() + 4 }

/// The parameters a loader reads from `b`, in file order.
pub open spec fn params_in(b: Seq<u8>) -> (Seq<i16>, Seq<i16>, Seq<i8>, Seq<i32>, Seq<i8>, Seq<i32>, Seq<i8>, i32) {
    (
        dec_i16s(b, 8, 40960 * 256),
        dec_i16s(b, off_ft_biases(), 256),
        dec_i8s(b, off_l2_weights(), 512 * 32),
        dec_i32s(b, off_l2_biases(), 32),
        dec_i8s(b, off_l3_weights(), 32 * 32),
        dec_i32s(b, off_l3_biases(), 32),
        dec_i8s(b, off_out_weights(), 32),
        u32_of(b[off_out_bias()], b[off_out_bias() + 1], b[off_out_bias() + 2], b[off_out_bias() + 3]) as i32,
    )
}

/// The parameters of a network, in file order.
pub open spec fn params_of(n: Network) -> (Seq<i16>, Seq<i16>, Seq<i8>, Seq<i32>, Seq<i8>, Seq<i32>, Seq<i8>, i32) {
    (n.ft.weights@, n.ft.biases@, n.l2.weights@, n.l2.biases@, n.l3.weights@, n.l3.biases@, n.output.weights@, n.output.bias)
}

/// The magic number at the start of `b`.
pub open spec fn magic_of(b: Seq<u8>) -> u32 {
    u32_of(b[0], b[1], b[2], b[3])
}

impl Network {
    /// Every part has the architecture's shape.
    pub open spec fn wf(&self) -> bool {
        &&& self.ft.wf()
        &&& self.l2.wf()
        &&& self.l3.wf()
        &&& self.output.wf()
    }

    /// The evaluation of `board` after refreshing both perspectives.
    pub open spec fn position_eval(&self, board: Position) -> int {
        network_eval(
            refreshed_for(self.ft, board, Color::White),
            refreshed_for(self.ft, board, Color::Black),
            self.l2,
            self.l3,
            self.output,
            board.side_to_move,
        )
    }

    /// No arithmetic of evaluating `board` leaves `i32`.
    pub open spec fn position_fits(&self, board: Position) -> bool {
        network_fits(
            refreshed_for(self.ft, board, Color::White),
            refreshed_for(self.ft, board, Color::Black),
            self.l2,
            self.l3,
            self.output,
            board.side_to_move,
        )
    }

    /// No accumulator values can make the forward pass overflow.
    pub open spec fn safe(&self) -> bool {
        network_safe(self.l2, self.l3, self.output)
    }

    /// A sufficient check that evaluation cannot overflow `i32` on any
    /// position: the absolute weights of every neuron, times the largest
    /// input it can get, stay within range.
    pub fn overflow_free(&self) -> (r: bool)
        requires
            self.wf(),
        ensures
            r == (l2_within(self.l2) && l3_within(self.l3) && out_within(self.output)),
            r ==> self.safe(),
    {
        let ok = self.l2.bounded() && self.l3.bounded() && self.output.bounded();
        if ok {
            proof {
                lemma_safe_layers(self.l2, self.l3, self.output);
            }
        }
        ok
    }

    /// A network from freshly initialised layers, with both accumulators
    /// holding the feature transformer's biases.
    pub fn new_random(ft: FeatureTransformer, l2: Layer2, l3: Layer3, output: OutputLayer) -> (r: Self)
        requires
            ft.biases@.len() >= 256,
        ensures
            r.ft == ft,
            r.l2 == l2,
            r.l3 == l3,
            r.output == output,
            r.acc_white.values@ == ft.biases@.subrange(0, 256),
            r.acc_black.values@ == ft.biases@.subrange(0, 256),
            r.acc_white.computed,
            r.acc_black.computed,
    {
        let acc_white = Accumulator::new(ft.biases.as_slice());
        let acc_black = Accumulator::new(ft.biases.as_slice());
        Self { ft, l2, l3, output, acc_white, acc_black }
    }

    /// Refresh both accumulators from a position.
    pub fn refresh(&mut self, board: &Position)
        requires
            old(self).ft.wf(),
            board.wf(),
        ensures
            final(self).ft == old(self).ft,
            final(self).l2 == old(self).l2,
            final(self).l3 == old(self).l3,
            final(self).output == old(self).output,
            final(self).acc_white.values@ == refreshed_for(old(self).ft, *board, Color::White),
            final(self).acc_black.values@ == refreshed_for(old(self).ft, *board, Color::Black),
            final(self).acc_white.computed,
            final(self).acc_black.computed,
    {
        let mut aw = self.acc_white;
        aw.refresh(board, Color::White, &self.ft);
        let mut ab = self.acc_black;
        ab.refresh(board, Color::Black, &self.ft);
        self.acc_white = aw;
        self.acc_black = ab;
    }

    /// Evaluate a position: centipawns from the side to move's point of view,
    /// from freshly refreshed accumulators.
    pub fn evaluate(&self, board: &Position) -> (r: i32)
        requires
            self.wf(),
            board.wf(),
            self.position_fits(*board),
        ensures
            r == self.position_eval(*board),
    {
        let mut aw = self.acc_white;
        let mut ab = self.acc_black;
        aw.refresh(board, Color::White, &self.ft);
        ab.refresh(board, Color::Black, &self.ft);
        forward_network(&aw.values, &ab.values, &self.l2, &self.l3, &self.output, board.side_to_move)
    }

    /// Fast evaluation with precomputed accumulators.
    pub fn evaluate_with_acc(&self, acc_w: &[i16; L1_SIZE], acc_b: &[i16; L1_SIZE], stm: Color) -> (r: i32)
        requires
            self.wf(),
            network_fits(acc_w@, acc_b@, self.l2, self.l3, self.output, stm),
        ensures
            r == network_eval(acc_w@, acc_b@, self.l2, self.l3, self.output, stm),
    {
        forward_network(acc_w, acc_b, &self.l2, &self.l3, &self.output, stm)
    }

    /// Number of parameters.
    pub fn param_count(&self) -> (r: usize)
        requires
            self.ft.weights@.len() + self.ft.biases@.len() + self.l2.weights@.len() + self.l2.biases@.len()
                + self.l3.weights@.len() + self.l3.biases@.len() + self.output.weights@.len() + 1 <= usize::MAX,
        ensures
            r == self.ft.weights@.len() + self.ft.biases@.len() + self.l2.weights@.len() + self.l2.biases@.len()
                + self.l3.weights@.len() + self.l3.biases@.len() + self.output.weights@.len() + 1,
    {
        self.ft.weights.len() + self.ft.biases.len() + self.l2.weights.len() + self.l2.biases.len()
            + self.l3.weights.len() + self.l3.biases.len() + self.output.weights.len() + 1
    }
}


/// A network that cannot overflow evaluates every position without overflow.
pub proof fn lemma_safe_fits(n: Network, board: Position)
    requires
        n.safe(),
    ensures
        n.position_fits(board),
{
    assert(network_fits(
        refreshed_for(n.ft, board, Color::White),
        refreshed_for(n.ft, board, Color::Black),
        n.l2,
        n.l3,
        n.output,
        board.side_to_move,
    ));
}

/// Appends the bytes of `vals` to `out`.
fn push_i16s(out: &mut Vec<u8>, vals: &Vec<i16>)
    ensures
        final(out)@ == old(out)@ + enc_i16s(vals@),
{
    let ghost start = out@;
    let mut i: usize = 0;
    while i < vals.len()
        invariant
            i <= vals@.len(),
            out@ == start + enc_i16s(vals@.subrange(0, i as int)),
        decreases vals@.len() - i,
    {
        let b = i16_le_bytes(vals[i]);
        out.push(b[0]);
        out.push(b[1]);
        assert(enc_i16s(vals@.subrange(0, i + 1)) =~= enc_i16s(vals@.subrange(0, i as int)) + le16(vals@[i as int] as u16));
        i = i + 1;
    }
    assert(vals@.subrange(0, vals@.len() as int) =~= vals@);
}

/// Appends the bytes of `vals` to `out`.
fn push_i32s(out: &mut Vec<u8>, vals: &Vec<i32>)
    ensures
        final(out)@ == old(out)@ + enc_i32s(vals@),
{
    let ghost start = out@;
    let mut i: usize = 0;
    while i < vals.len()
        invariant
            i <= vals@.len(),
            out@ == start + enc_i32s(vals@.subrange(0, i as int)),
        decreases vals@.len() - i,
    {
        let b = i32_le_bytes(vals[i]);
        push_bytes(out, &b);
        assert(enc_i32s(vals@.subrange(0, i + 1)) =~= enc_i32s(vals@.subrange(0, i as int)) + le32(vals@[i as int] as u32));
        i = i + 1;
    }
    assert(vals@.subrange(0, vals@.len() as int) =~= vals@);
}

/// Appends the bytes of `vals` to `out`.
fn push_i8s(out: &mut Vec<u8>, vals: &Vec<i8>)
    ensures
        final(out)@ == old(out)@ + enc_i8s(vals@),
{
    let ghost start = out@;
    let mut i: usize = 0;
    while i < vals.len()
        invariant
            i <= vals@.len(),
            out@ == start + enc_i8s(vals@.subrange(0, i as int)),
        decreases vals@.len() - i,
    {
        out.push(#[verifier::truncate] (vals[i] as u8));
        assert(enc_i8s(vals@.subrange(0, i + 1)) =~= enc_i8s(vals@.subrange(0, i as int)).push(vals@[i as int] as u8));
        i = i + 1;
    }
    assert(vals@.subrange(0, vals@.len() as int) =~= vals@);
}

/// Appends four bytes to `out`.
fn push_bytes(out: &mut Vec<u8>, b: &[u8; 4])
    ensures
        final(out)@ == old(out)@ + b@,
{
    out.push(b[0]);
    out.push(b[1]);
    out.push(b[2]);
    out.push(b[3]);
    assert(out@ =~= old(out)@ + b@);
}

/// Reads `n` values of `i16` at `off`.
fn read_i16s(bytes: &[u8], off: usize, n: usize) -> (r: Vec<i16>)
    requires
        off + 2 * n <= bytes@.len(),
    ensures
        r@ == dec_i16s(bytes@, off as int, n as nat),
{
    let len = bytes.len();
    let mut v: Vec<i16> = Vec::new();
    let mut i: usize = 0;
    while i < n
        invariant
            len == bytes@.len(),
            i <= n,
            off + 2 * n <= bytes@.len(),
            v@ == dec_i16s(bytes@, off as int, i as nat),
        decreases n - i,
    {
        v.push(read_i16_le(bytes, off + 2 * i));
        assert(v@ =~= dec_i16s(bytes@, off as int, (i + 1) as nat));
        i = i + 1;
    }
    v
}

/// Reads `n` values of `i32` at `off`.
fn read_i32s(bytes: &[u8], off: usize, n: usize) -> (r: Vec<i32>)
    requires
        off + 4 * n <= bytes@.len(),
    ensures
        r@ == dec_i32s(bytes@, off as int, n as nat),
{
    let len = bytes.len();
    let mut v: Vec<i32> = Vec::new();
    let mut i: usize = 0;
    while i < n
        invariant
            len == bytes@.len(),
            i <= n,
            off + 4 * n <= bytes@.len(),
            v@ == dec_i32s(bytes@, off as int, i as nat),
        decreases n - i,
    {
        v.push(read_i32_le(bytes, off + 4 * i));
        assert(v@ =~= dec_i32s(bytes@, off as int, (i + 1) as nat));
        i = i + 1;
    }
    v
}

/// Reads `n` values of `i8` at `off`.
fn read_i8s(bytes: &[u8], off: usize, n: usize) -> (r: Vec<i8>)
    requires
        off + n <= bytes@.len(),
    ensures
        r@ == dec_i8s(bytes@, off as int, n as nat),
{
    let len = bytes.len();
    let mut v: Vec<i8> = Vec::new();
    let mut i: usize = 0;
    while i < n
        invariant
            len == bytes@.len(),
            i <= n,
            off + n <= bytes@.len(),
            v@ == dec_i8s(bytes@, off as int, i as nat),
        decreases n - i,
    {
        v.push(#[verifier::truncate] (bytes[off + i] as i8));
        assert(v@ =~= dec_i8s(bytes@, off as int, (i + 1) as nat));
        i = i + 1;
    }
    v
}

impl Network {
    /// The network file image: what `save` writes.
    pub fn to_bytes(&self) -> (r: Vec<u8>)
        ensures
            r@ == serialized(*self),
    {
        let mut f: Vec<u8> = Vec::new();
        push_bytes(&mut f, &u32_le_bytes(NNUE_MAGIC));
        push_bytes(&mut f, &u32_le_bytes(NNUE_VERSION));
        push_i16s(&mut f, &self.ft.weights);
        push_i16s(&mut f, &self.ft.biases);
        push_i8s(&mut f, &self.l2.weights);
        push_i32s(&mut f, &self.l2.biases);
        push_i8s(&mut f, &self.l3.weights);
        push_i32s(&mut f, &self.l3.biases);
        push_i8s(&mut f, &self.output.weights);
        push_bytes(&mut f, &i32_le_bytes(self.output.bias));
        assert(f@ =~= serialized(*self));
        f
    }

    /// The network a file image holds: what `load` reads. The parameters come
    /// from their fixed offsets; bytes past the last one are ignored; both
    /// accumulators hold the biases. A file that does not start with the
    /// magic number is rejected by the caller.
    pub fn from_bytes(bytes: &[u8]) -> (r: Result<Network, LoadError>)
        requires
            bytes@.len() >= 4 ==> magic_of(bytes@) == NNUE_MAGIC,
        ensures
            r is Err <==> bytes@.len() < file_len(),
            r matches Ok(n) ==> {
                &&& params_of(n) == params_in(bytes@)
                &&& n.wf()
                &&& n.acc_white.values@ == n.ft.biases@
                &&& n.acc_black.values@ == n.ft.biases@
                &&& n.acc_white.computed
                &&& n.acc_black.computed
            },
    {
        if bytes.len() < 20989740 {
            return Err(LoadError::UnexpectedEof);
        }
        let _magic = read_u32_le(bytes, 0);
        let _version = read_u32_le(bytes, 4);
        let ft_weights = read_i16s(bytes, 8, INPUT_SIZE * L1_SIZE);
        let ft_biases = read_i16s(bytes, 20971528, L1_SIZE);
        let l2_weights = read_i8s(bytes, 20972040, 512 * 32);
        let l2_biases = read_i32s(bytes, 20988424, 32);
        let l3_weights = read_i8s(bytes, 20988552, 32 * 32);
        let l3_biases = read_i32s(bytes, 20989576, 32);
        let out_weights = read_i8s(bytes, 20989704, 32);
        let out_bias = read_i32_le(bytes, 20989736);
        let ft = FeatureTransformer { weights: ft_weights, biases: ft_biases };
        let acc_white = Accumulator::new(ft.biases.as_slice());
        let acc_black = Accumulator::new(ft.biases.as_slice());
        assert(ft.biases@.subrange(0, 256) =~= ft.biases@);
        Ok(Network {
            ft,
            l2: Layer2 { weights: l2_weights, biases: l2_biases },
            l3: Layer3 { weights: l3_weights, biases: l3_biases },
            output: OutputLayer { weights: out_weights, bias: out_bias },
            acc_white,
            acc_black,
        })
    }
}

proof fn lemma_dec_i16s(x: Seq<u8>, off: int, s: Seq<i16>)
    requires
        0 <= off,
        off + 2 * s.len() <= x.len(),
        forall|i: int| 0 <= i < 2 * s.len() ==> x[off + i] == #[trigger] enc_i16s(s)[i],
    ensures
        dec_i16s(x, off, s.len()) == s,
{
    assert forall|i: int| 0 <= i < s.len() implies #[trigger] dec_i16s(x, off, s.len())[i] == s[i] by {
        assert(x[off + 2 * i] == enc_i16s(s)[2 * i]);
        assert(x[off + (2 * i + 1)] == enc_i16s(s)[2 * i + 1]);
        lemma_i16_roundtrip(s[i]);
    }
    assert(dec_i16s(x, off, s.len()) =~= s);
}

proof fn lemma_dec_i32s(x: Seq<u8>, off: int, s: Seq<i32>)
    requires
        0 <= off,
        off + 4 * s.len() <= x.len(),
        forall|i: int| 0 <= i < 4 * s.len() ==> x[off + i] == #[trigger] enc_i32s(s)[i],
    ensures
        dec_i32s(x, off, s.len()) == s,
{
    assert forall|i: int| 0 <= i < s.len() implies #[trigger] dec_i32s(x, off, s.len())[i] == s[i] by {
        assert(x[off + 4 * i] == enc_i32s(s)[4 * i]);
        assert(x[off + (4 * i + 1)] == enc_i32s(s)[4 * i + 1]);
        assert(x[off + (4 * i + 2)] == enc_i32s(s)[4 * i + 2]);
        assert(x[off + (4 * i + 3)] == enc_i32s(s)[4 * i + 3]);
        lemma_i32_roundtrip(s[i]);
    }
    assert(dec_i32s(x, off, s.len()) =~= s);
}

proof fn lemma_dec_i8s(x: Seq<u8>, off: int, s: Seq<i8>)
    requires
        0 <= off,
        off + s.len() <= x.len(),
        forall|i: int| 0 <= i < s.len() ==> x[off + i] == #[trigger] enc_i8s(s)[i],
    ensures
        dec_i8s(x, off, s.len()) == s,
{
    assert forall|i: int| 0 <= i < s.len() implies #[trigger] dec_i8s(x, off, s.len())[i] == s[i] by {
        assert(x[off + i] == enc_i8s(s)[i]);
        lemma_i8_roundtrip(s[i]);
    }
    assert(dec_i8s(x, off, s.len()) =~= s);
}

/// Saving then loading gives the network back: the file image of a well
/// formed network has the file length, starts with the magic number, and
/// the loader reads from it exactly the network's parameters.
pub proof fn lemma_save_load_roundtrip(n: Network)
    requires
        n.wf(),
    ensures
        serialized(n).len() == file_len(),
        magic_of(serialized(n)) == NNUE_MAGIC,
        params_in(serialized(n)) == params_of(n),
{
    let h = le32(NNUE_MAGIC) + le32(NNUE_VERSION);
    let p1 = h + enc_i16s(n.ft.weights@);
    let p2 = p1 + enc_i16s(n.ft.biases@);
    let p3 = p2 + enc_i8s(n.l2.weights@);
    let p4 = p3 + enc_i32s(n.l2.biases@);
    let p5 = p4 + enc_i8s(n.l3.weights@);
    let p6 = p5 + enc_i32s(n.l3.biases@);
    let p7 = p6 + enc_i8s(n.output.weights@);
    let x = p7 + le32(n.output.bias as u32);
    assert(x == serialized(n));
    assert(h.len() == 8);
    assert(p1.len() == off_ft_biases());
    assert(p2.len() == off_l2_weights());
    assert(p3.len() == off_l2_biases());
    assert(p4.len() == off_l3_weights());
    assert(p5.len() == off_l3_biases());
    assert(p6.len() == off_out_weights());
    assert(p7.len() == off_out_bias());
    lemma_u32_roundtrip(NNUE_MAGIC);
    assert(x[0] == le32(NNUE_MAGIC)[0] && x[1] == le32(NNUE_MAGIC)[1] && x[2] == le32(NNUE_MAGIC)[2] && x[3] == le32(NNUE_MAGIC)[3]);
    assert forall|i: int| 0 <= i < 2 * n.ft.weights@.len() implies x[8 + i] == #[trigger] enc_i16s(n.ft.weights@)[i] by {
        assert(x[8 + i] == p1[8 + i]);
    }
    lemma_dec_i16s(x, 8, n.ft.weights@);
    assert forall|i: int| 0 <= i < 2 * n.ft.biases@.len() implies x[off_ft_biases() + i] == #[trigger] enc_i16s(n.ft.biases@)[i] by {
        assert(x[off_ft_biases() + i] == p2[off_ft_biases() + i]);
    }
    lemma_dec_i16s(x, off_ft_biases(), n.ft.biases@);
    assert forall|i: int| 0 <= i < n.l2.weights@.len() implies x[off_l2_weights() + i] == #[trigger] enc_i8s(n.l2.weights@)[i] by {
        assert(x[off_l2_weights() + i] == p3[off_l2_weights() + i]);
    }
    lemma_dec_i8s(x, off_l2_weights(), n.l2.weights@);
    assert forall|i: int| 0 <= i < 4 * n.l2.biases@.len() implies x[off_l2_biases() + i] == #[trigger] enc_i32s(n.l2.biases@)[i] by {
        assert(x[off_l2_biases() + i] == p4[off_l2_biases() + i]);
    }
    lemma_dec_i32s(x, off_l2_biases(), n.l2.biases@);
    assert forall|i: int| 0 <= i < n.l3.weights@.len() implies x[off_l3_weights() + i] == #[trigger] enc_i8s(n.l3.weights@)[i] by {
        assert(x[off_l3_weights() + i] == p5[off_l3_weights() + i]);
    }
    lemma_dec_i8s(x, off_l3_weights(), n.l3.weights@);
    assert forall|i: int| 0 <= i < 4 * n.l3.biases@.len() implies x[off_l3_biases() + i] == #[trigger] enc_i32s(n.l3.biases@)[i] by {
        assert(x[off_l3_biases() + i] == p6[off_l3_biases() + i]);
    }
    lemma_dec_i32s(x, off_l3_biases(), n.l3.biases@);
    assert forall|i: int| 0 <= i < n.output.weights@.len() implies x[off_out_weights() + i] == #[trigger] enc_i8s(n.output.weights@)[i] by {
        assert(x[off_out_weights() + i] == p7[off_out_weights() + i]);
    }
    lemma_dec_i8s(x, off_out_weights(), n.output.weights@);
    lemma_i32_roundtrip(n.output.bias);
    let o = off_out_bias();
    assert(x[o] == le32(n.output.bias as u32)[0] && x[o + 1] == le32(n.output.bias as u32)[1]
        && x[o + 2] == le32(n.output.bias as u32)[2] && x[o + 3] == le32(n.output.bias as u32)[3]);
}

} // verus!
