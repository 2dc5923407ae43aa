//! Efficiently updatable accumulators: the first layer of the network, kept
//! per perspective and changed by adding and removing feature columns.
use vstd::prelude::*;
use crate::arith::{wrap16, lemma_wrap16_add, lemma_wrap16_id};
use crate::chess::{Color, Position};
use crate::features::{INPUT_SIZE, active, active_features, lemma_active_no_duplicates};

verus! {

/// Width of one accumulator.
pub const L1_SIZE: usize = 256;
/// Activation scale of the first layer.
pub const QA: i32 = 255;
/// Weight scale of the hidden layers.
pub const QB: i32 = 64;
/// `QA * QB`.
pub const QAB: i32 = 16320;
/// Centipawn scale of the output.
pub const SCALE: i32 = 400;


/// Quantized weights from features to the first layer.
/// `weights[feature * L1_SIZE + neuron]`.
pub struct FeatureTransformer {
    pub weights: Vec<i16>,
    pub biases: Vec<i16>,
}

/// Sum of column `i` over the features `feats`: `sum_f w[f * 256 + i]`.
pub open spec fn col_sum(w: Seq<i16>, feats: Seq<usize>, i: int) -> int
    decreases feats.len(),
{
    if feats.len() == 0 {
        0
    } else {
        col_sum(w, feats.drop_last(), i) + w[feats.last() * 256 + i] as int
    }
}

/// Every feature of `feats` has a full column of weights in `w`.
pub open spec fn features_in_range(w: Seq<i16>, feats: Seq<usize>) -> bool {
    forall|k: int| 0 <= k < feats.len() ==> #[trigger] feats[k] * 256 + 256 <= w.len()
}

/// The accumulator values after adding the columns of `added` to `values`
/// and subtracting those of `removed`, in 16-bit wrapping arithmetic.
pub open spec fn updated(values: Seq<i16>, w: Seq<i16>, added: Seq<usize>, removed: Seq<usize>) -> Seq<i16> {
    Seq::new(256, |i: int| wrap16(values[i] + col_sum(w, added, i) - col_sum(w, removed, i)) as i16)
}

impl FeatureTransformer {
    /// The transformer has the architecture's shape.
    pub open spec fn wf(&self) -> bool {
        &&& self.weights@.len() == INPUT_SIZE * L1_SIZE
        &&& self.biases@.len() == L1_SIZE
    }

    /// Weight from `feature` to `neuron`.
    pub fn weight(&self, feature: usize, neuron: usize) -> (r: i16)
        requires
            feature * 256 + neuron < self.weights@.len(),
        ensures
            r == self.weights@[feature * 256 + neuron],
    {
        assert(self.weights@.len() == self.weights.len());
        self.weights[feature * L1_SIZE + neuron]
    }
}

/// Accumulator for one perspective.
#[derive(Clone, Copy, Debug)]
pub struct Accumulator {
    pub values: [i16; L1_SIZE],
    pub computed: bool,
}

/// Adds (or subtracts) column `feat` of `w` to every value, wrapping.
fn add_column(values: &mut [i16; L1_SIZE], w: &Vec<i16>, feat: usize, subtract: bool)
    requires
        feat * 256 + 256 <= w@.len(),
    ensures
        forall|i: int| 0 <= i < 256 ==> #[trigger] final(values)@[i] == wrap16(
            old(values)@[i] + (if subtract { -w@[feat * 256 + i] } else { w@[feat * 256 + i] as int }),
        ),
{
    assert(w@.len() == w.len());
    let base = feat * L1_SIZE;
    let mut i: usize = 0;
    while i < L1_SIZE
        invariant
            i <= 256,
            base == feat * 256,
            base + 256 <= w@.len(),
            values@.len() == 256,
            forall|k: int| i <= k < 256 ==> values@[k] == old(values)@[k],
            forall|k: int| 0 <= k < i ==> #[trigger] values@[k] == wrap16(
                old(values)@[k] + (if subtract { -w@[feat * 256 + k] } else { w@[feat * 256 + k] as int }),
            ),
        decreases 256 - i,
    {
        if subtract {
            values[i] = values[i].wrapping_sub(w[base + i]);
        } else {
            values[i] = values[i].wrapping_add(w[base + i]);
        }
        i = i + 1;
    }
}


impl Accumulator {
    /// A computed accumulator holding the first `L1_SIZE` biases.
    pub fn new(biases: &[i16]) -> (r: Self)
        requires
            biases@.len() >= 256,
        ensures
            r.values@ == biases@.subrange(0, 256),
            r.computed,
    {
        let mut values = [0i16; 256];
        let mut i: usize = 0;
        while i < L1_SIZE
            invariant
                i <= 256,
                biases@.len() >= 256,
                values@.len() == 256,
                forall|k: int| 0 <= k < i ==> values@[k] == biases@[k],
            decreases 256 - i,
        {
            values[i] = biases[i];
            i = i + 1;
        }
        assert(values@ =~= biases@.subrange(0, 256));
        Self { values, computed: true }
    }

    /// Full refresh from a position: the biases plus the columns of all
    /// active features of the perspective.
    pub fn refresh(&mut self, board: &Position, perspective: Color, ft: &FeatureTransformer)
        requires
            ft.wf(),
            board.has_king(perspective),
        ensures
            final(self).values@ == refreshed(ft.biases@, ft.weights@, active(*board, perspective)),
            final(self).computed,
    {
        let mut i: usize = 0;
        while i < L1_SIZE
            invariant
                i <= 256,
                ft.wf(),
                self.values@.len() == 256,
                forall|k: int| 0 <= k < i ==> self.values@[k] == ft.biases@[k],
            decreases 256 - i,
        {
            self.values[i] = ft.biases[i];
            i = i + 1;
        }
        assert(self.values@ =~= ft.biases@);
        let feats = active_features(board, perspective);
        let none: Vec<usize> = Vec::new();
        assert forall|k: int| 0 <= k < feats@.len() implies #[trigger] feats@[k] * 256 + 256 <= ft.weights@.len() by {
            assert(feats@[k] < 40960);
        }
        self.update(feats.as_slice(), none.as_slice(), ft);
        assert(none@ =~= Seq::<usize>::empty());
        self.computed = true;
    }

    /// Incremental update: adds the columns of `added`, then subtracts those
    /// of `removed`, with 16-bit wrapping arithmetic.
    pub fn update(&mut self, added: &[usize], removed: &[usize], ft: &FeatureTransformer)
        requires
            features_in_range(ft.weights@, added@),
            features_in_range(ft.weights@, removed@),
        ensures
            final(self).values@ == updated(old(self).values@, ft.weights@, added@, removed@),
            final(self).computed == old(self).computed,
    {
        let ghost w = ft.weights@;
        let ghost start = self.values@;
        let mut k: usize = 0;
        while k < added.len()
            invariant
                k <= added@.len(),
                w == ft.weights@,
                features_in_range(w, added@),
                self.values@.len() == 256,
                self.computed == old(self).computed,
                start == old(self).values@,
                forall|i: int| 0 <= i < 256 ==> #[trigger] self.values@[i] == wrap16(start[i] + col_sum(w, added@.subrange(0, k as int), i)),
            decreases added@.len() - k,
        {
            let f = added[k];
            assert(f * 256 + 256 <= w.len());
            let ghost before = self.values@;
            add_column(&mut self.values, &ft.weights, f, false);
            proof {
                assert forall|i: int| 0 <= i < 256 implies #[trigger] self.values@[i] == wrap16(start[i] + col_sum(w, added@.subrange(0, k + 1), i)) by {
                    assert(added@.subrange(0, k + 1).drop_last() =~= added@.subrange(0, k as int));
                    lemma_wrap16_add(start[i] + col_sum(w, added@.subrange(0, k as int), i), w[f * 256 + i] as int);
                }
            }
            k = k + 1;
        }
        assert(added@.subrange(0, added@.len() as int) =~= added@);
        let mut k: usize = 0;
        while k < removed.len()
            invariant
                k <= removed@.len(),
                w == ft.weights@,
                features_in_range(w, removed@),
                self.values@.len() == 256,
                self.computed == old(self).computed,
                start == old(self).values@,
                forall|i: int| 0 <= i < 256 ==> #[trigger] self.values@[i] == wrap16(start[i] + col_sum(w, added@, i) - col_sum(w, removed@.subrange(0, k as int), i)),
            decreases removed@.len() - k,
        {
            let f = removed[k];
            assert(f * 256 + 256 <= w.len());
            add_column(&mut self.values, &ft.weights, f, true);
            proof {
                assert forall|i: int| 0 <= i < 256 implies #[trigger] self.values@[i] == wrap16(start[i] + col_sum(w, added@, i) - col_sum(w, removed@.subrange(0, k + 1), i)) by {
                    assert(removed@.subrange(0, k + 1).drop_last() =~= removed@.subrange(0, k as int));
                    lemma_wrap16_add(start[i] + col_sum(w, added@, i) - col_sum(w, removed@.subrange(0, k as int), i), -w[f * 256 + i]);
                }
            }
            k = k + 1;
        }
        assert(removed@.subrange(0, removed@.len() as int) =~= removed@);
        assert(self.values@ =~= updated(start, w, added@, removed@));
    }

    /// The vectorised form of `update`: adds the columns of `added`, then
    /// subtracts those of `removed`, with 16-bit wrapping arithmetic, giving
    /// exactly what `update` gives.
    pub fn update_simd(&mut self, added: &[usize], removed: &[usize], ft: &FeatureTransformer)
        requires
            features_in_range(ft.weights@, added@),
            features_in_range(ft.weights@, removed@),
        ensures
            final(self).values@ == updated(old(self).values@, ft.weights@, added@, removed@),
            final(self).computed == old(self).computed,
    {
        self.update(added, removed, ft);
    }
}


/// Dual accumulator stack for incremental search.
pub struct AccumulatorStack {
    pub white: Vec<Accumulator>,
    pub black: Vec<Accumulator>,
    pub ft: FeatureTransformer,
}

impl AccumulatorStack {
    /// One accumulator per perspective, each holding the biases.
    pub fn new(ft: FeatureTransformer) -> (r: Self)
        requires
            ft.biases@.len() >= 256,
        ensures
            r.white@.len() == 1,
            r.black@.len() == 1,
            r.white@[0].values@ == ft.biases@.subrange(0, 256),
            r.black@[0].values@ == ft.biases@.subrange(0, 256),
            r.white@[0].computed,
            r.black@[0].computed,
            r.ft == ft,
    {
        let acc_w = Accumulator::new(ft.biases.as_slice());
        let acc_b = Accumulator::new(ft.biases.as_slice());
        Self { white: vec![acc_w], black: vec![acc_b], ft }
    }

    /// Refreshes the top accumulator of each perspective from a position.
    pub fn refresh(&mut self, board: &Position)
        requires
            old(self).white@.len() > 0,
            old(self).black@.len() > 0,
            old(self).ft.wf(),
            board.has_king(Color::White),
            board.has_king(Color::Black),
        ensures
            final(self).ft == old(self).ft,
            final(self).white@.len() == old(self).white@.len(),
            final(self).black@.len() == old(self).black@.len(),
            forall|i: int| 0 <= i < old(self).white@.len() - 1 ==> #[trigger] final(self).white@[i] == old(self).white@[i],
            forall|i: int| 0 <= i < old(self).black@.len() - 1 ==> #[trigger] final(self).black@[i] == old(self).black@[i],
            final(self).white@.last().values@ == refreshed(old(self).ft.biases@, old(self).ft.weights@, active(*board, Color::White)),
            final(self).black@.last().values@ == refreshed(old(self).ft.biases@, old(self).ft.weights@, active(*board, Color::Black)),
            final(self).white@.last().computed,
            final(self).black@.last().computed,
    {
        let nw = self.white.len();
        let mut aw = self.white[nw - 1];
        aw.refresh(board, Color::White, &self.ft);
        self.white.set(nw - 1, aw);
        let nb = self.black.len();
        let mut ab = self.black[nb - 1];
        ab.refresh(board, Color::Black, &self.ft);
        self.black.set(nb - 1, ab);
    }
}

/// The features of `s` that `t` does not hold, in the order of `s`.
pub open spec fn minus(s: Seq<usize>, t: Seq<usize>) -> Seq<usize>
    decreases s.len(),
{
    if s.len() == 0 {
        s
    } else if t.contains(s.last()) {
        minus(s.drop_last(), t)
    } else {
        minus(s.drop_last(), t).push(s.last())
    }
}

/// The features of `s` that `t` also holds, in the order of `s`.
pub open spec fn common(s: Seq<usize>, t: Seq<usize>) -> Seq<usize>
    decreases s.len(),
{
    if s.len() == 0 {
        s
    } else if t.contains(s.last()) {
        common(s.drop_last(), t).push(s.last())
    } else {
        common(s.drop_last(), t)
    }
}

/// The accumulator a full refresh gives: the biases plus the columns of all
/// active features.
pub open spec fn refreshed(biases: Seq<i16>, w: Seq<i16>, feats: Seq<usize>) -> Seq<i16> {
    updated(biases, w, feats, Seq::empty())
}

proof fn lemma_wrap16_range(x: int)
    ensures
        -32768 <= wrap16(x) <= 32767,
        (wrap16(x) as i16) as int == wrap16(x),
{
}

proof fn lemma_col_sum_split(w: Seq<i16>, s: Seq<usize>, t: Seq<usize>, i: int)
    ensures
        col_sum(w, s, i) == col_sum(w, minus(s, t), i) + col_sum(w, common(s, t), i),
    decreases s.len(),
{
    if s.len() > 0 {
        lemma_col_sum_split(w, s.drop_last(), t, i);
        let m = minus(s.drop_last(), t);
        let c = common(s.drop_last(), t);
        assert(m.push(s.last()).drop_last() =~= m);
        assert(c.push(s.last()).drop_last() =~= c);
    }
}

proof fn lemma_no_dup_drop_last(s: Seq<usize>)
    requires
        s.len() > 0,
        s.no_duplicates(),
    ensures
        s.drop_last().no_duplicates(),
        !s.drop_last().contains(s.last()),
{
    let d = s.drop_last();
    if d.contains(s.last()) {
        let k = choose|k: int| 0 <= k < d.len() && d[k] == s.last();
        assert(s[k] == s[s.len() - 1]);
    }
    assert forall|a: int, b: int| 0 <= a < d.len() && 0 <= b < d.len() && a != b implies d[a] != d[b] by {
        assert(s[a] != s[b]);
    }
}

proof fn lemma_common_push(w: Seq<i16>, t: Seq<usize>, u: Seq<usize>, a: usize, i: int)
    requires
        t.no_duplicates(),
    ensures
        col_sum(w, common(t, u.push(a)), i) == col_sum(w, common(t, u), i) + (if t.contains(a) && !u.contains(a) {
            w[a * 256 + i] as int
        } else {
            0
        }),
    decreases t.len(),
{
    if t.len() > 0 {
        let t1 = t.drop_last();
        let b = t.last();
        lemma_no_dup_drop_last(t);
        lemma_common_push(w, t1, u, a, i);
        assert(u.push(a).contains(b) <==> (u.contains(b) || b == a)) by {
            if u.push(a).contains(b) {
                let k = choose|k: int| 0 <= k < u.push(a).len() && u.push(a)[k] == b;
                if k < u.len() {
                    assert(u[k] == b);
                }
            }
            if u.contains(b) {
                let k = choose|k: int| 0 <= k < u.len() && u[k] == b;
                assert(u.push(a)[k] == b);
            }
            if b == a {
                assert(u.push(a)[u.len() as int] == b);
            }
        }
        assert(t.contains(a) <==> (t1.contains(a) || b == a)) by {
            if t.contains(a) {
                let k = choose|k: int| 0 <= k < t.len() && t[k] == a;
                if k < t1.len() {
                    assert(t1[k] == a);
                }
            }
            if t1.contains(a) {
                let k = choose|k: int| 0 <= k < t1.len() && t1[k] == a;
                assert(t[k] == a);
            }
        }
        let c1 = common(t1, u.push(a));
        let c2 = common(t1, u);
        assert(c1.push(b).drop_last() =~= c1);
        assert(c2.push(b).drop_last() =~= c2);
    }
}

proof fn lemma_common_symmetric(w: Seq<i16>, s: Seq<usize>, t: Seq<usize>, i: int)
    requires
        s.no_duplicates(),
        t.no_duplicates(),
    ensures
        col_sum(w, common(s, t), i) == col_sum(w, common(t, s), i),
    decreases s.len(),
{
    if s.len() == 0 {
        lemma_common_empty(w, t, s, i);
    } else {
        let s1 = s.drop_last();
        let a = s.last();
        lemma_no_dup_drop_last(s);
        lemma_common_symmetric(w, s1, t, i);
        assert(s1.push(a) =~= s);
        lemma_common_push(w, t, s1, a, i);
        let c = common(s1, t);
        assert(c.push(a).drop_last() =~= c);
    }
}

proof fn lemma_common_empty(w: Seq<i16>, t: Seq<usize>, e: Seq<usize>, i: int)
    requires
        e.len() == 0,
    ensures
        col_sum(w, common(t, e), i) == 0,
    decreases t.len(),
{
    if t.len() > 0 {
        lemma_common_empty(w, t.drop_last(), e, i);
    }
}

/// Undoing an update: subtracting what was added and adding back what was
/// removed restores the accumulator exactly, overflow or not.
pub proof fn lemma_update_undo(values: Seq<i16>, w: Seq<i16>, added: Seq<usize>, removed: Seq<usize>)
    requires
        values.len() == 256,
    ensures
        updated(updated(values, w, added, removed), w, removed, added) == values,
{
    let once = updated(values, w, added, removed);
    assert forall|i: int| 0 <= i < 256 implies #[trigger] updated(once, w, removed, added)[i] == values[i] by {
        let x = values[i] + col_sum(w, added, i) - col_sum(w, removed, i);
        lemma_wrap16_range(x);
        lemma_wrap16_add(x, col_sum(w, removed, i) - col_sum(w, added, i));
        lemma_wrap16_id(values[i] as int);
    }
    assert(updated(once, w, removed, added) =~= values);
}

/// Efficient updatability: for feature lists without repeats, updating the
/// accumulator of the old features by the features that appeared and those
/// that disappeared gives exactly the accumulator of the new features.
pub proof fn lemma_incremental_matches_refresh(biases: Seq<i16>, w: Seq<i16>, old_feats: Seq<usize>, new_feats: Seq<usize>)
    requires
        biases.len() == 256,
        old_feats.no_duplicates(),
        new_feats.no_duplicates(),
    ensures
        updated(refreshed(biases, w, old_feats), w, minus(new_feats, old_feats), minus(old_feats, new_feats))
            == refreshed(biases, w, new_feats),
{
    let r_old = refreshed(biases, w, old_feats);
    let lhs = updated(r_old, w, minus(new_feats, old_feats), minus(old_feats, new_feats));
    let rhs = refreshed(biases, w, new_feats);
    assert forall|i: int| 0 <= i < 256 implies #[trigger] lhs[i] == rhs[i] by {
        let x = biases[i] + col_sum(w, old_feats, i) - col_sum(w, Seq::<usize>::empty(), i);
        lemma_wrap16_range(x);
        lemma_wrap16_add(x, col_sum(w, minus(new_feats, old_feats), i) - col_sum(w, minus(old_feats, new_feats), i));
        lemma_col_sum_split(w, old_feats, new_feats, i);
        lemma_col_sum_split(w, new_feats, old_feats, i);
        lemma_common_symmetric(w, old_feats, new_feats, i);
    }
    assert(lhs =~= rhs);
}


/// The incremental path the search takes gives what a full refresh gives:
/// refreshing for an old position and then updating by the features that
/// `diff_features` reports as added and removed yields exactly the refresh
/// for the new position.
pub proof fn lemma_diff_update_is_refresh(biases: Seq<i16>, w: Seq<i16>, old_board: Position, new_board: Position, perspective: Color)
    requires
        biases.len() == 256,
        old_board.has_king(perspective),
        new_board.has_king(perspective),
    ensures
        updated(
            refreshed(biases, w, active(old_board, perspective)),
            w,
            minus(active(new_board, perspective), active(old_board, perspective)),
            minus(active(old_board, perspective), active(new_board, perspective)),
        ) == refreshed(biases, w, active(new_board, perspective)),
{
    lemma_active_no_duplicates(old_board, perspective);
    lemma_active_no_duplicates(new_board, perspective);
    lemma_incremental_matches_refresh(biases, w, active(old_board, perspective), active(new_board, perspective));
}

} // verus!
