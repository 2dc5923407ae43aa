use rustclaw::accumulator::{Accumulator, AccumulatorStack, FeatureTransformer, L1_SIZE};
use rustclaw::chess::{Color, Position};
use rustclaw::features::{active_features, diff_features, INPUT_SIZE};
use rustclaw::layers::{crelu, forward_network, screlu, Layer2, Layer3, OutputLayer, L1_OUT, L2_SIZE, L3_SIZE};
use rustclaw::network::{LoadError, Network, NNUE_MAGIC};

fn patterned_ft() -> FeatureTransformer {
    let mut weights = vec![0i16; INPUT_SIZE * L1_SIZE];
    for (i, w) in weights.iter_mut().enumerate() {
        *w = ((i * 7919) % 61) as i16 - 30;
    }
    let biases: Vec<i16> = (0..L1_SIZE).map(|i| (i as i16) - 128).collect();
    FeatureTransformer { weights, biases }
}

fn flat_network(bias: i32) -> Network {
    let ft = FeatureTransformer { weights: vec![0i16; INPUT_SIZE * L1_SIZE], biases: vec![0i16; L1_SIZE] };
    let l2 = Layer2 { weights: vec![0i8; L1_OUT * L2_SIZE], biases: vec![0i32; L2_SIZE] };
    let l3 = Layer3 { weights: vec![0i8; L2_SIZE * L3_SIZE], biases: vec![0i32; L3_SIZE] };
    let out = OutputLayer { weights: vec![0i8; L3_SIZE], bias };
    Network::new_random(ft, l2, l3, out)
}

#[test]
fn crelu_and_screlu_values() {
    assert_eq!(crelu(-5), 0);
    assert_eq!(crelu(100), 100);
    assert_eq!(crelu(300), 255);
    assert_eq!(screlu(-1), 0);
    assert_eq!(screlu(10), 100);
    assert_eq!(screlu(1000), 65025);
}

#[test]
fn accumulator_new_holds_the_biases() {
    let biases: Vec<i16> = (0..300).map(|i| i as i16).collect();
    let acc = Accumulator::new(&biases);
    assert!(acc.computed);
    for i in 0..L1_SIZE {
        assert_eq!(acc.values[i], i as i16);
    }
}

#[test]
fn update_adds_and_removes_columns() {
    let ft = patterned_ft();
    let mut acc = Accumulator::new(&ft.biases);
    acc.update(&[3, 17], &[5], &ft);
    for i in 0..L1_SIZE {
        let expected = ft.biases[i]
            .wrapping_add(ft.weights[3 * L1_SIZE + i])
            .wrapping_add(ft.weights[17 * L1_SIZE + i])
            .wrapping_sub(ft.weights[5 * L1_SIZE + i]);
        assert_eq!(acc.values[i], expected);
    }
}

#[test]
fn update_then_reverse_update_restores() {
    let ft = patterned_ft();
    let start = Accumulator::new(&ft.biases);
    let mut acc = start;
    acc.update(&[1, 2, 40000], &[7, 9], &ft);
    acc.update(&[7, 9], &[1, 2, 40000], &ft);
    assert_eq!(acc.values, start.values);
}

#[test]
fn update_wraps_on_overflow() {
    let mut weights = vec![0i16; INPUT_SIZE * L1_SIZE];
    weights[0] = 30000;
    let ft = FeatureTransformer { weights, biases: vec![0i16; L1_SIZE] };
    let mut acc = Accumulator::new(&ft.biases);
    acc.update(&[0, 0], &[], &ft);
    assert_eq!(acc.values[0], 30000i16.wrapping_add(30000));
    let mut simd = Accumulator::new(&ft.biases);
    simd.update_simd(&[0, 0], &[], &ft);
    assert_eq!(simd.values[0], 30000i16.wrapping_add(30000));
    simd.update_simd(&[], &[0, 0, 0], &ft);
    assert_eq!(simd.values[0], 30000i16.wrapping_add(30000).wrapping_sub(30000).wrapping_sub(30000).wrapping_sub(30000));
}

#[test]
fn update_simd_agrees_with_update_without_overflow() {
    let ft = patterned_ft();
    let mut a = Accumulator::new(&ft.biases);
    let mut b = a;
    a.update(&[11, 12, 13], &[14], &ft);
    b.update_simd(&[11, 12, 13], &[14], &ft);
    assert_eq!(a.values, b.values);
}

#[test]
fn incremental_update_matches_refresh() {
    let ft = patterned_ft();
    let old = Position::startpos();
    let new = Position::from_fen("rnbqkbnr/pppp1ppp/8/4p3/4P3/8/PPPP1PPP/RNBQKBNR w KQkq e6 0 2").unwrap();
    for perspective in [Color::White, Color::Black] {
        let mut inc = Accumulator::new(&ft.biases);
        inc.refresh(&old, perspective, &ft);
        let (added, removed) = diff_features(&old, &new, perspective);
        inc.update(&added, &removed, &ft);
        let mut full = Accumulator::new(&ft.biases);
        full.refresh(&new, perspective, &ft);
        assert_eq!(inc.values, full.values);
    }
}

#[test]
fn refresh_is_biases_plus_active_columns() {
    let ft = patterned_ft();
    let board = Position::startpos();
    let mut acc = Accumulator::new(&ft.biases);
    acc.refresh(&board, Color::White, &ft);
    let feats = active_features(&board, Color::White);
    for i in [0usize, 77, 255] {
        let mut v = ft.biases[i];
        for &f in &feats {
            v = v.wrapping_add(ft.weight(f, i));
        }
        assert_eq!(acc.values[i], v);
    }
}

#[test]
fn accumulator_stack_refresh() {
    let ft = patterned_ft();
    let mut stack = AccumulatorStack::new(ft);
    assert_eq!(stack.white.len(), 1);
    let board = Position::startpos();
    stack.refresh(&board);
    let mut w = Accumulator::new(&stack.ft.biases);
    w.refresh(&board, Color::White, &stack.ft);
    assert_eq!(stack.white[0].values, w.values);
}

#[test]
fn output_scale_formula() {
    // raw * 400 / 16320, truncating toward zero
    let net = flat_network(16320);
    assert_eq!(net.evaluate(&Position::startpos()), 400);
    let net = flat_network(-100);
    assert_eq!(net.evaluate(&Position::startpos()), -2);
    let net = flat_network(8160);
    let acc = [0i16; L1_SIZE];
    assert_eq!(net.evaluate_with_acc(&acc, &acc, Color::Black), 200);
}

#[test]
fn forward_network_through_all_layers() {
    let mut l2 = Layer2 { weights: vec![0i8; L1_OUT * L2_SIZE], biases: vec![0i32; L2_SIZE] };
    // neuron 0 sees input 0 with weight 1; screlu(255) = 65025, / 255 = 255, + bias 0
    l2.weights[0] = 1;
    let mut l3 = Layer3 { weights: vec![0i8; L2_SIZE * L3_SIZE], biases: vec![0i32; L3_SIZE] };
    l3.biases[0] = 64 * 100;
    let mut out = OutputLayer { weights: vec![0i8; L3_SIZE], bias: 0 };
    out.weights[0] = 2;
    let mut acc_w = [0i16; L1_SIZE];
    acc_w[0] = 255;
    let acc_b = [0i16; L1_SIZE];
    // layer 2: neuron 0 = clamp(65025 / 255 = 255, 0, 8128) / 255 = 1
    // layer 3: neuron 0 = rescale(6400 + 1 * (1/64)^2 ...) = clamp(6400 + 0) / 64 = 100
    // output: 2 * rescale(100) = 2 * (100 / 64) = 2; eval = 2 * 400 / 16320 = 0
    assert_eq!(forward_network(&acc_w, &acc_b, &l2, &l3, &out, Color::White), 0);
    out.weights[0] = 127;
    l3.biases[0] = 16320;
    // layer 3 neuron 0 = 16320 / 64 = 255; output = 127 * (255 / 64) = 127 * 3 = 381
    assert_eq!(forward_network(&acc_w, &acc_b, &l2, &l3, &out, Color::White), 381 * 400 / 16320);
}

#[test]
fn layer2_dot_scalar_divides_by_qa() {
    let mut l2 = Layer2 { weights: vec![0i8; L1_OUT * L2_SIZE], biases: vec![0i32; L2_SIZE] };
    l2.weights[0 * L2_SIZE + 3] = 2;
    l2.weights[1 * L2_SIZE + 3] = -1;
    let mut input = [0i32; L1_OUT];
    input[0] = 1000;
    input[1] = 300;
    // (2 * 1000 - 300) / 255 = 1700 / 255 = 6
    assert_eq!(l2.dot_scalar(&input, 3), 6);
    input[0] = 0;
    // -300 / 255 truncates toward zero
    assert_eq!(l2.dot_scalar(&input, 3), -1);
}

#[test]
fn param_count_of_the_architecture() {
    let net = flat_network(0);
    assert_eq!(net.param_count(), 10_503_521);
}

#[test]
fn save_then_load_gives_the_network_back() {
    let mut net = flat_network(-77);
    net.ft = patterned_ft();
    net.l2.weights[5] = -3;
    net.l2.biases[31] = 123456;
    net.l3.weights[1023] = 99;
    net.l3.biases[0] = -42;
    net.output.weights[7] = -128;
    let bytes = net.to_bytes();
    assert_eq!(&bytes[0..4], &NNUE_MAGIC.to_le_bytes());
    assert_eq!(&bytes[0..4], &[0x55, 0x4E, 0x4E, 0x43]);
    assert_eq!(&bytes[4..8], &[1, 0, 0, 0]);
    let back = Network::from_bytes(&bytes).unwrap();
    assert_eq!(back.ft.weights, net.ft.weights);
    assert_eq!(back.ft.biases, net.ft.biases);
    assert_eq!(back.l2.weights, net.l2.weights);
    assert_eq!(back.l2.biases, net.l2.biases);
    assert_eq!(back.l3.weights, net.l3.weights);
    assert_eq!(back.l3.biases, net.l3.biases);
    assert_eq!(back.output.weights, net.output.weights);
    assert_eq!(back.output.bias, -77);
    assert_eq!(back.acc_white.values.to_vec(), net.ft.biases);
}

#[test]
fn load_of_a_short_file_fails() {
    let net = flat_network(5);
    let bytes = net.to_bytes();
    let short = &bytes[..bytes.len() - 1];
    assert!(matches!(Network::from_bytes(short), Err(LoadError::UnexpectedEof)));
    assert!(matches!(Network::from_bytes(&[]), Err(LoadError::UnexpectedEof)));
}

#[test]
fn overflow_check_accepts_small_weights() {
    let net = flat_network(1000);
    assert!(net.overflow_free());
    let mut big = flat_network(i32::MAX - 10);
    big.output.weights[0] = 127;
    assert!(!big.overflow_free());
}

#[test]
fn network_refresh_sets_both_accumulators() {
    let mut net = flat_network(0);
    net.ft = patterned_ft();
    let board = Position::startpos();
    net.refresh(&board);
    let mut w = Accumulator::new(&net.ft.biases);
    w.refresh(&board, Color::White, &net.ft);
    let mut b = Accumulator::new(&net.ft.biases);
    b.refresh(&board, Color::Black, &net.ft);
    assert_eq!(net.acc_white.values, w.values);
    assert_eq!(net.acc_black.values, b.values);
}
