use autodrive::fixed::SCALE;
use autodrive::network::{Level, NeuralNetwork};
use autodrive::codec::{encode_network, decode_network};
use autodrive::utils::{get_rgba, get_random_color};

#[test]
fn feed_forward_outputs_are_binary() {
    let mut net = NeuralNetwork::new(vec![5, 6, 4]).expect("two or more layer sizes");
    let out = net.feed_forward(vec![0, 0, 0, 0, 0]);
    assert_eq!(out.len(), 4);
    for v in &out {
        assert!(*v == 0 || *v == SCALE);
    }
    let out2 = net.feed_forward(vec![SCALE, SCALE / 2, 0, SCALE, SCALE / 4]);
    assert_eq!(out2.len(), 4);
    for v in &out2 {
        assert!(*v == 0 || *v == SCALE);
    }
}

#[test]
fn network_construction_rejects_bad_shapes() {
    assert!(NeuralNetwork::new(vec![]).is_none());
    assert!(NeuralNetwork::new(vec![5]).is_none());
    assert!(NeuralNetwork::new(vec![5, 6, 4]).is_some());
}

#[test]
fn randomized_values_stay_in_unit_range() {
    let net = NeuralNetwork::new(vec![5, 6, 4]).unwrap();
    for level in &net.levels {
        for b in &level.biases {
            assert!(-SCALE <= *b && *b <= SCALE);
        }
        for row in &level.weights {
            for w in row {
                assert!(-SCALE <= *w && *w <= SCALE);
            }
        }
    }
}

#[test]
fn fresh_levels_have_zeroed_transients() {
    let level = Level::new(7, 3);
    assert_eq!(level.inputs, vec![0; 7]);
    assert_eq!(level.outputs, vec![0; 3]);
    let net = NeuralNetwork::new(vec![5, 6, 4]).unwrap();
    for l in &net.levels {
        assert!(l.inputs.iter().all(|v| *v == 0));
        assert!(l.outputs.iter().all(|v| *v == 0));
    }
}

#[test]
fn mutate_leaves_transient_values_alone() {
    let mut net = NeuralNetwork::new(vec![5, 6, 4]).unwrap();
    net.feed_forward(vec![SCALE, 0, SCALE / 2, 0, SCALE]);
    let before = net.clone();
    net.mutate(None);
    for (a, b) in net.levels.iter().zip(before.levels.iter()) {
        assert_eq!(a.inputs, b.inputs);
        assert_eq!(a.outputs, b.outputs);
    }
}

#[test]
fn mutate_zero_changes_nothing() {
    let mut net = NeuralNetwork::new(vec![5, 6, 4]).unwrap();
    let before = net.clone();
    net.mutate(Some(0));
    assert_eq!(net.levels.len(), before.levels.len());
    for (a, b) in net.levels.iter().zip(before.levels.iter()) {
        assert_eq!(a.biases, b.biases);
        assert_eq!(a.weights, b.weights);
        assert_eq!(a.inputs, b.inputs);
        assert_eq!(a.outputs, b.outputs);
    }
}

#[test]
fn mutate_full_keeps_values_in_range() {
    let mut net = NeuralNetwork::new(vec![5, 6, 4]).unwrap();
    net.mutate(None);
    for level in &net.levels {
        for b in &level.biases {
            assert!(-SCALE <= *b && *b <= SCALE);
        }
        for row in &level.weights {
            for w in row {
                assert!(-SCALE <= *w && *w <= SCALE);
            }
        }
    }
}

#[test]
fn fresh_controllers_draw_varied_values() {
    let net = NeuralNetwork::new(vec![50, 2]).unwrap();
    let first = net.levels[0].weights[0][0];
    let varied = net.levels[0].weights.iter().any(|row| row.iter().any(|w| *w != first));
    assert!(varied, "a uniform draw over two million values repeated 100 times");
}

#[test]
fn full_mutation_actually_moves_values() {
    let mut net = NeuralNetwork::new(vec![50, 2]).unwrap();
    let before = net.clone();
    net.mutate(Some(SCALE));
    let moved = net.levels.iter().zip(before.levels.iter()).any(|(a, b)| {
        a.weights != b.weights || a.biases != b.biases
    });
    assert!(moved, "a full blend replaces values with fresh draws");
}

#[test]
fn encode_then_decode_reproduces_the_network() {
    let net = NeuralNetwork::new(vec![5, 6, 4]).unwrap();
    let blob = encode_network(&net);
    let back = decode_network(&blob).expect("canonical text decodes");
    assert_eq!(back.levels.len(), net.levels.len());
    for (a, b) in back.levels.iter().zip(net.levels.iter()) {
        assert_eq!(a.inputs, b.inputs);
        assert_eq!(a.outputs, b.outputs);
        assert_eq!(a.biases, b.biases);
        assert_eq!(a.weights, b.weights);
    }
}

#[test]
fn encoding_is_the_expected_json_text() {
    let level = Level {
        inputs: vec![0],
        outputs: vec![0, SCALE],
        biases: vec![7, -3],
        weights: vec![vec![250_000, -1_000_000]],
    };
    let net = NeuralNetwork { levels: vec![level] };
    let blob = encode_network(&net);
    let text = String::from_utf8(blob).unwrap();
    assert_eq!(
        text,
        "[{\"inputs\":[0],\"outputs\":[0,1000000],\"biases\":[7,-3],\"weights\":[[250000,-1000000]]}]"
    );
}

#[test]
fn corrupt_blobs_decode_to_none() {
    assert!(decode_network(&Vec::new()).is_none());
    assert!(decode_network(&b"hello".to_vec()).is_none());
    assert!(decode_network(&b"[]".to_vec()).is_none());
    assert!(decode_network(&b"[{\"inputs\":[01]}]".to_vec()).is_none());
    let net = NeuralNetwork::new(vec![5, 6, 4]).unwrap();
    let mut blob = encode_network(&net);
    blob.pop();
    assert!(decode_network(&blob).is_none());
}

#[test]
fn rgba_text_is_exact() {
    assert_eq!(get_rgba(3), "rgba(255,255,0,3)");
    assert_eq!(get_rgba(-5), "rgba(0,0,255,5)");
    assert_eq!(get_rgba(0), "rgba(255,255,255,0)");
}

#[test]
fn random_color_is_a_vivid_hsl() {
    let s = get_random_color();
    assert!(s.starts_with("hsl("));
    assert!(s.ends_with(", 100%, 60%)"));
    let hue: i64 = s["hsl(".len()..s.len() - ", 100%, 60%)".len()].parse().unwrap();
    assert!(290 <= hue && hue <= 549);
}
