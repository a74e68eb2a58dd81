use nnue::parser::reader::ReadError;
use nnue::parser::{parse_network, NetworkError, LAYER_STACKS, NNUE_VERSION};
use nnue::types::network::{NetworkKind, NetworkSpec};

fn block(payload: &[u8]) -> Vec<u8> {
    let mut bytes = b"COMPRESSED_LEB128".to_vec();
    bytes.extend((payload.len() as u32).to_le_bytes());
    bytes.extend(payload);
    bytes
}

fn small_spec() -> NetworkSpec {
    NetworkSpec {
        path: String::from("small.nnue"),
        transformer_hash: 0x1111_0000,
        architecture_hash: 0x0000_2222,
        half_dims: 2,
        input_dims: 3,
        threat_input_dims: None,
    }
}

fn big_spec() -> NetworkSpec {
    NetworkSpec {
        threat_input_dims: Some(2),
        path: String::from("big.nnue"),
        ..small_spec()
    }
}

fn header(spec: &NetworkSpec, description: &[u8]) -> Vec<u8> {
    let mut bytes = NNUE_VERSION.to_le_bytes().to_vec();
    bytes.extend((spec.transformer_hash ^ spec.architecture_hash).to_le_bytes());
    bytes.extend((description.len() as u32).to_le_bytes());
    bytes.extend(description);
    bytes.extend(spec.transformer_hash.to_le_bytes());
    bytes
}

fn layer_stack(spec: &NetworkSpec, seed: i8) -> Vec<u8> {
    let mut bytes = spec.architecture_hash.to_le_bytes().to_vec();
    for (outputs, inputs) in [(16usize, 16 * spec.half_dims), (32, 32 * 32), (1, 32)] {
        for o in 0..outputs {
            bytes.extend((o as i32 - 3).to_le_bytes());
        }
        for i in 0..inputs {
            bytes.push((i as i8).wrapping_add(seed) as u8);
        }
    }
    bytes
}

fn small_file(spec: &NetworkSpec) -> Vec<u8> {
    let mut bytes = header(spec, b"test net");
    // Biases 1, -1; weights 0..6; PSQT weights 24 values of 2.
    bytes.extend(block(&[0x01, 0x7f]));
    bytes.extend(block(&[0, 1, 2, 3, 4, 5]));
    bytes.extend(block(&[2; 24]));
    for s in 0..LAYER_STACKS {
        bytes.extend(layer_stack(spec, s as i8));
    }
    bytes
}

fn big_file(spec: &NetworkSpec) -> Vec<u8> {
    let mut bytes = header(spec, b"big");
    bytes.extend(block(&[0x05, 0x7b]));
    bytes.extend([0x80, 0x7f, 0x01, 0x02]);
    bytes.extend(block(&[1; 6]));
    let mut shared = vec![0x7e; 16];
    shared.extend([0x03; 24]);
    bytes.extend(block(&shared));
    for s in 0..LAYER_STACKS {
        bytes.extend(layer_stack(spec, -(s as i8)));
    }
    bytes
}

#[test]
fn network_specs_name_the_two_networks() {
    let small = NetworkSpec::new(NetworkKind::Small(String::from("a.nnue")));
    assert_eq!(small.path, "a.nnue");
    assert_eq!(small.transformer_hash, 0x7f234db8);
    assert_eq!(small.architecture_hash, 0x6333712a);
    assert_eq!(small.half_dims, 128);
    assert_eq!(small.input_dims, 22_528);
    assert_eq!(small.threat_input_dims, None);

    let big = NetworkSpec::new(NetworkKind::Big(String::from("b.nnue")));
    assert_eq!(big.path, "b.nnue");
    assert_eq!(big.transformer_hash, 0x8f2344b8);
    assert_eq!(big.architecture_hash, 0x63336a4a);
    assert_eq!(big.half_dims, 1_024);
    assert_eq!(big.input_dims, 22_528);
    assert_eq!(big.threat_input_dims, Some(79_856));
}

#[test]
fn parses_a_small_network() {
    let spec = small_spec();
    let bytes = small_file(&spec);
    let network = parse_network(&bytes, small_spec()).unwrap();
    assert_eq!(network.header.version, NNUE_VERSION);
    assert_eq!(network.header.network_hash, 0x1111_2222);
    assert_eq!(network.header.description, "test net");
    assert!(matches!(&network.kind, NetworkKind::Small(path) if path == "small.nnue"));
    let ft = &network.transformer;
    assert_eq!(ft.biases, vec![1, -1]);
    assert_eq!(ft.weights, vec![0, 1, 2, 3, 4, 5]);
    assert_eq!(ft.psqt_weights, vec![2; 24]);
    assert!(ft.threat_weights.is_none());
    assert!(ft.threat_psqt_weights.is_none());
    assert_eq!(network.layer_stacks.len(), 8);
    for (s, stack) in network.layer_stacks.iter().enumerate() {
        assert_eq!(stack.fc0.biases.len(), 16);
        assert_eq!(stack.fc0.biases[0], -3);
        assert_eq!(stack.fc0.weights.len(), 32);
        assert_eq!(stack.fc0.weights[1], 1 + s as i8);
        assert_eq!(stack.fc1.biases.len(), 32);
        assert_eq!(stack.fc1.weights.len(), 1024);
        assert_eq!(stack.fc2.biases, vec![-3]);
        assert_eq!(stack.fc2.weights.len(), 32);
        assert_eq!(stack.fc2.weights[31], 31 + s as i8);
    }
}

#[test]
fn parses_a_big_network() {
    let spec = big_spec();
    let bytes = big_file(&spec);
    let network = parse_network(&bytes, big_spec()).unwrap();
    assert_eq!(network.header.description, "big");
    assert!(matches!(&network.kind, NetworkKind::Big(path) if path == "big.nnue"));
    let ft = &network.transformer;
    assert_eq!(ft.biases, vec![5, -5]);
    assert_eq!(ft.threat_weights, Some(vec![-128, 127, 1, 2]));
    assert_eq!(ft.weights, vec![1; 6]);
    assert_eq!(ft.threat_psqt_weights, Some(vec![-2; 16]));
    assert_eq!(ft.psqt_weights, vec![3; 24]);
    assert_eq!(network.layer_stacks.len(), 8);
    assert_eq!(network.layer_stacks[7].fc0.weights[0], -7);
}

#[test]
fn description_bytes_that_are_not_utf8_are_replaced() {
    let spec = small_spec();
    let mut bytes = header(&spec, &[b'o', 0xff, b'k']);
    let rest = small_file(&spec);
    bytes.extend(&rest[header(&spec, b"test net").len()..]);
    let network = parse_network(&bytes, small_spec()).unwrap();
    assert_eq!(network.header.description, "o\u{fffd}k");
}

#[test]
fn rejects_an_unexpected_version() {
    let spec = small_spec();
    let mut bytes = small_file(&spec);
    bytes[0] = 0x21;
    assert_eq!(
        parse_network(&bytes, small_spec()).err(),
        Some(NetworkError::UnexpectedVersion(0x7AF3_2F21))
    );
}

#[test]
fn rejects_an_unexpected_network_hash() {
    let spec = small_spec();
    let mut bytes = small_file(&spec);
    bytes[4] = 0x23;
    assert_eq!(
        parse_network(&bytes, small_spec()).err(),
        Some(NetworkError::UnexpectedNetworkHash {
            expected: 0x1111_2222,
            found: 0x1111_2223,
        })
    );
}

#[test]
fn rejects_an_unexpected_transformer_hash() {
    let mut spec = small_spec();
    let bytes = small_file(&spec);
    spec.transformer_hash = 0x1111_0001;
    spec.architecture_hash = 0x0000_2223;
    assert_eq!(
        parse_network(&bytes, spec).err(),
        Some(NetworkError::UnexpectedTransformerHash {
            expected: 0x1111_0001,
            found: 0x1111_0000,
        })
    );
}

#[test]
fn rejects_an_unexpected_layer_stack_hash() {
    let spec = small_spec();
    let mut bytes = small_file(&spec);
    let last_stack = bytes.len() - layer_stack(&spec, 0).len();
    bytes[last_stack] = 0x99;
    assert_eq!(
        parse_network(&bytes, small_spec()).err(),
        Some(NetworkError::UnexpectedLayerStackHash(0x0000_2299))
    );
}

#[test]
fn rejects_trailing_and_missing_bytes() {
    let spec = small_spec();
    let mut bytes = small_file(&spec);
    bytes.push(0);
    assert_eq!(
        parse_network(&bytes, small_spec()).err(),
        Some(NetworkError::Read(ReadError::TrailingBytes(1)))
    );
    bytes.truncate(bytes.len() - 2);
    assert_eq!(
        parse_network(&bytes, small_spec()).err(),
        Some(NetworkError::Read(ReadError::UnexpectedEof))
    );
    assert_eq!(
        parse_network(&[], small_spec()).err(),
        Some(NetworkError::Read(ReadError::UnexpectedEof))
    );
}

#[test]
fn rejects_a_malformed_transformer_block() {
    let spec = small_spec();
    let mut bytes = header(&spec, b"");
    bytes.extend(block(&[0x01, 0x7f, 0x00]));
    assert_eq!(
        parse_network(&bytes, small_spec()).err(),
        Some(NetworkError::Read(ReadError::LeftoverPayload(1)))
    );
}

#[test]
fn parses_a_network_of_the_big_dimensions() {
    let spec = NetworkSpec::new(NetworkKind::Big(String::from("big.nnue")));
    let (half, input, threat) = (1_024usize, 22_528usize, 79_856usize);
    let mut bytes = header(&spec, b"full threats");
    bytes.extend(block(&vec![0; half]));
    bytes.resize(bytes.len() + threat * half, 0);
    bytes.extend(block(&vec![0; input * half]));
    bytes.extend(block(&vec![0; (threat + input) * 8]));
    for _ in 0..LAYER_STACKS {
        bytes.extend(layer_stack(&spec, 0));
    }
    let network = parse_network(&bytes, spec).unwrap();

    assert_eq!(network.layer_stacks.len(), 8);
    assert_eq!(network.transformer.biases.len(), 1_024);
    assert_eq!(network.transformer.weights.len(), 22_528 * 1_024);
    assert_eq!(network.transformer.psqt_weights.len(), 22_528 * 8);
    assert_eq!(
        network.transformer.threat_weights.as_ref().unwrap().len(),
        79_856 * 1_024
    );
    assert_eq!(
        network
            .transformer
            .threat_psqt_weights
            .as_ref()
            .unwrap()
            .len(),
        79_856 * 8
    );
}
