//! The layout of an NNUE network file and the parser that reads it.
//!
//! A file holds, in order: the version, the network hash, a length-prefixed
//! description, the feature-transformer hash, the feature transformer and
//! eight layer stacks, with nothing after them.
use vstd::prelude::*;

use crate::parser::reader::{
    NNUEReader,
    ReadError,
    lemma_i32_array_layout,
    lemma_i8_array_layout,
    spec_finish,
    spec_read_bytes,
    spec_read_i32s,
    spec_read_i8s,
    spec_read_leb128_i16,
    spec_read_leb128_i32,
    spec_read_shared_leb128_i32,
    spec_read_u32,
    viewed,
};
use crate::types::network::{
    DenseLayer,
    DenseLayerView,
    FeatureTransformer,
    FeatureTransformerView,
    LayerStack,
    LayerStackView,
    Network,
    NetworkHeader,
    NetworkHeaderView,
    NetworkKind,
    NetworkKindView,
    NetworkSpec,
    NetworkView,
};

pub mod reader;
pub mod readers;

verus! {

/// The version every supported network file starts with.
pub const NNUE_VERSION: u32 = 0x7AF32F20;

/// The number of layer stacks in a network.
pub const LAYER_STACKS: usize = 8;

/// Why a network file was refused.
#[derive(Clone, Copy, Debug, PartialEq, Eq, Structural)]
pub enum NetworkError {
    /// A read failed: the file ends early, a compressed block is malformed, or bytes are left over.
    Read(ReadError),
    /// The file does not start with `NNUE_VERSION`; this is what it starts with.
    UnexpectedVersion(u32),
    /// The network hash is not the transformer hash XOR the architecture hash.
    UnexpectedNetworkHash { expected: u32, found: u32 },
    /// The feature-transformer hash is not the specification's.
    UnexpectedTransformerHash { expected: u32, found: u32 },
    /// A layer stack's hash is not the architecture hash; this is the hash found.
    UnexpectedLayerStackHash(u32),
}

/// The text that the bytes decode to as UTF-8, with U+FFFD for each invalid sequence.
pub uninterp spec fn utf8_lossy(bytes: Seq<u8>) -> Seq<char>;

/// Calls `String::from_utf8_lossy`. Its result is named `utf8_lossy` of the
/// bytes; the contract adds only that ASCII bytes give the same characters.
#[verifier::external_body]
fn string_from_utf8_lossy(bytes: &[u8]) -> (s: String)
    ensures
        s@ == utf8_lossy(bytes@),
        (forall|i: int| 0 <= i < bytes@.len() ==> bytes@[i] < 0x80) ==> s@ == bytes@.map_values(
            |b: u8| b as char,
        ),
{
    String::from_utf8_lossy(bytes).into_owned()
}

// ---------------------------------------------------------------------------
// The file layout, as spec functions of the bytes `d` and an offset `pos`;
// each gives the outcome and the offset after it.
// ---------------------------------------------------------------------------

/// A read's outcome with its failure taken as a `NetworkError`.
pub open spec fn lift<T>(r: (Result<T, ReadError>, int)) -> (Result<T, NetworkError>, int) {
    match r.0 {
        Ok(t) => (Ok(t), r.1),
        Err(e) => (Err(NetworkError::Read(e)), r.1),
    }
}

/// The hash the header must carry: the transformer hash XOR the architecture hash.
pub open spec fn expected_network_hash(spec: NetworkSpec) -> u32 {
    spec.transformer_hash ^ spec.architecture_hash
}

/// The version, the network hash and the description (a `u32` length and that many bytes).
pub open spec fn spec_header(d: Seq<u8>, pos: int, spec: NetworkSpec) -> (
    Result<NetworkHeaderView, NetworkError>,
    int,
) {
    match lift(spec_read_u32(d, pos)) {
        (Err(e), p) => (Err(e), p),
        (Ok(version), p) => if version != NNUE_VERSION {
            (Err(NetworkError::UnexpectedVersion(version)), p)
        } else {
            match lift(spec_read_u32(d, p)) {
                (Err(e), p2) => (Err(e), p2),
                (Ok(hash), p2) => if hash != expected_network_hash(spec) {
                    (
                        Err(
                            NetworkError::UnexpectedNetworkHash {
                                expected: expected_network_hash(spec),
                                found: hash,
                            },
                        ),
                        p2,
                    )
                } else {
                    match lift(spec_read_u32(d, p2)) {
                        (Err(e), p3) => (Err(e), p3),
                        (Ok(len), p3) => match lift(spec_read_bytes(d, p3, len as int)) {
                            (Err(e), p4) => (Err(e), p4),
                            (Ok(text), p4) => (
                                Ok(
                                    NetworkHeaderView {
                                        version,
                                        network_hash: hash,
                                        description: utf8_lossy(text),
                                    },
                                ),
                                p4,
                            ),
                        },
                    }
                },
            }
        },
    }
}

/// The transformer of the small network: biases, weights and PSQT weights, each a compressed block.
pub open spec fn spec_small_transformer(d: Seq<u8>, pos: int, spec: NetworkSpec) -> (
    Result<FeatureTransformerView, NetworkError>,
    int,
) {
    let hd = spec.half_dims as nat;
    let input = spec.input_dims as nat;
    match lift(spec_read_leb128_i16(d, pos, hd)) {
        (Err(e), p) => (Err(e), p),
        (Ok(biases), p) => match lift(spec_read_leb128_i16(d, p, hd * input)) {
            (Err(e), p2) => (Err(e), p2),
            (Ok(weights), p2) => match lift(spec_read_leb128_i32(d, p2, input * 8)) {
                (Err(e), p3) => (Err(e), p3),
                (Ok(psqt_weights), p3) => (
                    Ok(
                        FeatureTransformerView {
                            biases,
                            weights,
                            psqt_weights,
                            threat_weights: None,
                            threat_psqt_weights: None,
                        },
                    ),
                    p3,
                ),
            },
        },
    }
}

/// The transformer of the big network: compressed biases, raw `i8` threat weights,
/// compressed weights, and one shared compressed block of threat PSQT and PSQT weights.
pub open spec fn spec_big_transformer(d: Seq<u8>, pos: int, spec: NetworkSpec, threat: nat) -> (
    Result<FeatureTransformerView, NetworkError>,
    int,
) {
    let hd = spec.half_dims as nat;
    let input = spec.input_dims as nat;
    match lift(spec_read_leb128_i16(d, pos, hd)) {
        (Err(e), p) => (Err(e), p),
        (Ok(biases), p) => match lift(spec_read_i8s(d, p, threat * hd)) {
            (Err(e), p2) => (Err(e), p2),
            (Ok(threat_weights), p2) => match lift(spec_read_leb128_i16(d, p2, input * hd)) {
                (Err(e), p3) => (Err(e), p3),
                (Ok(weights), p3) => match lift(
                    spec_read_shared_leb128_i32(d, p3, threat * 8, input * 8),
                ) {
                    (Err(e), p4) => (Err(e), p4),
                    (Ok((threat_psqt_weights, psqt_weights)), p4) => (
                        Ok(
                            FeatureTransformerView {
                                biases,
                                weights,
                                psqt_weights,
                                threat_weights: Some(threat_weights),
                                threat_psqt_weights: Some(threat_psqt_weights),
                            },
                        ),
                        p4,
                    ),
                },
            },
        },
    }
}

/// The feature-transformer hash, then the transformer of the network the specification names.
pub open spec fn spec_transformer(d: Seq<u8>, pos: int, spec: NetworkSpec) -> (
    Result<FeatureTransformerView, NetworkError>,
    int,
) {
    match lift(spec_read_u32(d, pos)) {
        (Err(e), p) => (Err(e), p),
        (Ok(hash), p) => if hash != spec.transformer_hash {
            (
                Err(
                    NetworkError::UnexpectedTransformerHash {
                        expected: spec.transformer_hash,
                        found: hash,
                    },
                ),
                p,
            )
        } else {
            match spec.threat_input_dims {
                None => spec_small_transformer(d, p, spec),
                Some(threat) => spec_big_transformer(d, p, spec, threat as nat),
            }
        },
    }
}

/// A dense layer: `outputs` little-endian `i32` biases, then `weights` `i8` weights.
pub open spec fn spec_dense_layer(d: Seq<u8>, pos: int, outputs: nat, weights: nat) -> (
    Result<DenseLayerView, NetworkError>,
    int,
) {
    match lift(spec_read_i32s(d, pos, outputs)) {
        (Err(e), p) => (Err(e), p),
        (Ok(biases), p) => match lift(spec_read_i8s(d, p, weights)) {
            (Err(e), p2) => (Err(e), p2),
            (Ok(w), p2) => (Ok(DenseLayerView { biases, weights: w }), p2),
        },
    }
}

/// A layer stack: the architecture hash, then dense layers of 16, 32 and 1 outputs
/// over `half_dims`, 32 and 32 inputs.
pub open spec fn spec_layer_stack(d: Seq<u8>, pos: int, spec: NetworkSpec) -> (
    Result<LayerStackView, NetworkError>,
    int,
) {
    match lift(spec_read_u32(d, pos)) {
        (Err(e), p) => (Err(e), p),
        (Ok(hash), p) => if hash != spec.architecture_hash {
            (Err(NetworkError::UnexpectedLayerStackHash(hash)), p)
        } else {
            match spec_dense_layer(d, p, 16, 16 * spec.half_dims as nat) {
                (Err(e), p2) => (Err(e), p2),
                (Ok(fc0), p2) => match spec_dense_layer(d, p2, 32, 32 * 32) {
                    (Err(e), p3) => (Err(e), p3),
                    (Ok(fc1), p3) => match spec_dense_layer(d, p3, 1, 32) {
                        (Err(e), p4) => (Err(e), p4),
                        (Ok(fc2), p4) => (Ok(LayerStackView { fc0, fc1, fc2 }), p4),
                    },
                },
            }
        },
    }
}

/// `n` layer stacks one after another, stopping at the first failure.
pub open spec fn spec_layer_stacks(d: Seq<u8>, pos: int, spec: NetworkSpec, n: nat) -> (
    Result<Seq<LayerStackView>, NetworkError>,
    int,
)
    decreases n,
{
    if n == 0 {
        (Ok(seq![]), pos)
    } else {
        match spec_layer_stacks(d, pos, spec, (n - 1) as nat) {
            (Err(e), p) => (Err(e), p),
            (Ok(stacks), p) => match spec_layer_stack(d, p, spec) {
                (Err(e), p2) => (Err(e), p2),
                (Ok(stack), p2) => (Ok(stacks.push(stack)), p2),
            },
        }
    }
}

/// The kind of network the specification names, with its path.
pub open spec fn spec_kind(spec: NetworkSpec) -> NetworkKindView {
    match spec.threat_input_dims {
        None => NetworkKindView::Small(spec.path@),
        Some(_) => NetworkKindView::Big(spec.path@),
    }
}

/// The network that the whole of `d` holds, or the first reason it is refused.
pub open spec fn spec_network(d: Seq<u8>, spec: NetworkSpec) -> Result<NetworkView, NetworkError> {
    match spec_header(d, 0, spec) {
        (Err(e), _) => Err(e),
        (Ok(header), p) => match spec_transformer(d, p, spec) {
            (Err(e), _) => Err(e),
            (Ok(transformer), p2) => match spec_layer_stacks(d, p2, spec, LAYER_STACKS as nat) {
                (Err(e), _) => Err(e),
                (Ok(layer_stacks), p3) => match spec_finish(d, p3) {
                    Err(e) => Err(NetworkError::Read(e)),
                    Ok(_) => Ok(
                        NetworkView { header, kind: spec_kind(spec), transformer, layer_stacks },
                    ),
                },
            },
        },
    }
}

/// The products of dimensions that the parser computes fit in a `usize`.
pub open spec fn dims_fit(spec: NetworkSpec) -> bool {
    &&& spec.half_dims * spec.input_dims <= usize::MAX
    &&& spec.input_dims * 8 <= usize::MAX
    &&& 16 * spec.half_dims <= usize::MAX
    &&& spec.threat_input_dims matches Some(t) ==> t * spec.half_dims <= usize::MAX && t * 8
        <= usize::MAX
}

// ---------------------------------------------------------------------------
// The parser.
// ---------------------------------------------------------------------------

fn read_header(reader: &mut NNUEReader, spec: &NetworkSpec) -> (r: Result<NetworkHeader, NetworkError>)
    ensures
        final(reader).data() == old(reader).data(),
        final(reader).pos() <= final(reader).data().len(),
        (viewed(r), final(reader).pos()) == spec_header(old(reader).data(), old(reader).pos(), *spec),
{
    let version = match reader.read_u32() {
        Ok(v) => v,
        Err(e) => return Err(NetworkError::Read(e)),
    };
    if version != NNUE_VERSION {
        return Err(NetworkError::UnexpectedVersion(version));
    }
    let network_hash = match reader.read_u32() {
        Ok(v) => v,
        Err(e) => return Err(NetworkError::Read(e)),
    };
    let expected_file_hash = spec.transformer_hash ^ spec.architecture_hash;
    if network_hash != expected_file_hash {
        return Err(
            NetworkError::UnexpectedNetworkHash { expected: expected_file_hash, found: network_hash },
        );
    }
    let len_description = match reader.read_u32() {
        Ok(v) => v,
        Err(e) => return Err(NetworkError::Read(e)),
    };
    let description = match reader.read_bytes(len_description as usize) {
        Ok(v) => v,
        Err(e) => return Err(NetworkError::Read(e)),
    };
    let description = string_from_utf8_lossy(description);
    Ok(NetworkHeader { version, network_hash, description })
}

fn read_transformer(reader: &mut NNUEReader, spec: &NetworkSpec) -> (r: Result<
    FeatureTransformer,
    NetworkError,
>)
    requires
        dims_fit(*spec),
    ensures
        final(reader).data() == old(reader).data(),
        final(reader).pos() <= final(reader).data().len(),
        (viewed(r), final(reader).pos()) == spec_transformer(
            old(reader).data(),
            old(reader).pos(),
            *spec,
        ),
{
    let ft_hash = match reader.read_u32() {
        Ok(v) => v,
        Err(e) => return Err(NetworkError::Read(e)),
    };
    if ft_hash != spec.transformer_hash {
        return Err(
            NetworkError::UnexpectedTransformerHash { expected: spec.transformer_hash, found: ft_hash },
        );
    }
    match spec.threat_input_dims {
        None => {
            let biases = match reader.read_leb128_i16(spec.half_dims) {
                Ok(v) => v,
                Err(e) => return Err(NetworkError::Read(e)),
            };
            let weights = match reader.read_leb128_i16(spec.half_dims * spec.input_dims) {
                Ok(v) => v,
                Err(e) => return Err(NetworkError::Read(e)),
            };
            let psqt_weights = match reader.read_leb128_i32(spec.input_dims * 8) {
                Ok(v) => v,
                Err(e) => return Err(NetworkError::Read(e)),
            };
            Ok(
                FeatureTransformer {
                    biases,
                    weights,
                    psqt_weights,
                    threat_weights: None,
                    threat_psqt_weights: None,
                },
            )
        },
        Some(threat_input_dims) => {
            let biases = match reader.read_leb128_i16(spec.half_dims) {
                Ok(v) => v,
                Err(e) => return Err(NetworkError::Read(e)),
            };
            let threat_weights = match reader.read_i8_vec(threat_input_dims * spec.half_dims) {
                Ok(v) => v,
                Err(e) => return Err(NetworkError::Read(e)),
            };
            assert(spec.input_dims * spec.half_dims == spec.half_dims * spec.input_dims)
                by (nonlinear_arith);
            let weights = match reader.read_leb128_i16(spec.input_dims * spec.half_dims) {
                Ok(v) => v,
                Err(e) => return Err(NetworkError::Read(e)),
            };
            let (threat_psqt_weights, psqt_weights) = match reader.read_shared_leb128_i32(
                threat_input_dims * 8,
                spec.input_dims * 8,
            ) {
                Ok(v) => v,
                Err(e) => return Err(NetworkError::Read(e)),
            };
            Ok(
                FeatureTransformer {
                    biases,
                    weights,
                    psqt_weights,
                    threat_weights: Some(threat_weights),
                    threat_psqt_weights: Some(threat_psqt_weights),
                },
            )
        },
    }
}

fn read_dense_layer(reader: &mut NNUEReader, outputs: usize, weights: usize) -> (r: Result<
    DenseLayer,
    NetworkError,
>)
    ensures
        final(reader).data() == old(reader).data(),
        final(reader).pos() <= final(reader).data().len(),
        (viewed(r), final(reader).pos()) == spec_dense_layer(
            old(reader).data(),
            old(reader).pos(),
            outputs as nat,
            weights as nat,
        ),
{
    let biases = match reader.read_i32_vec(outputs) {
        Ok(v) => v,
        Err(e) => return Err(NetworkError::Read(e)),
    };
    let weights = match reader.read_i8_vec(weights) {
        Ok(v) => v,
        Err(e) => return Err(NetworkError::Read(e)),
    };
    Ok(DenseLayer { biases, weights })
}

fn read_layer_stack(reader: &mut NNUEReader, spec: &NetworkSpec) -> (r: Result<
    LayerStack,
    NetworkError,
>)
    requires
        dims_fit(*spec),
    ensures
        final(reader).data() == old(reader).data(),
        final(reader).pos() <= final(reader).data().len(),
        (viewed(r), final(reader).pos()) == spec_layer_stack(
            old(reader).data(),
            old(reader).pos(),
            *spec,
        ),
{
    let hash = match reader.read_u32() {
        Ok(v) => v,
        Err(e) => return Err(NetworkError::Read(e)),
    };
    if hash != spec.architecture_hash {
        return Err(NetworkError::UnexpectedLayerStackHash(hash));
    }
    let fc0 = match read_dense_layer(reader, 16, 16 * spec.half_dims) {
        Ok(v) => v,
        Err(e) => return Err(e),
    };
    let fc1 = match read_dense_layer(reader, 32, 32 * 32) {
        Ok(v) => v,
        Err(e) => return Err(e),
    };
    let fc2 = match read_dense_layer(reader, 1, 32) {
        Ok(v) => v,
        Err(e) => return Err(e),
    };
    Ok(LayerStack { fc0, fc1, fc2 })
}

/// Once reading `i` layer stacks has failed, reading more fails the same way.
proof fn lemma_layer_stacks_fail_on(d: Seq<u8>, pos: int, spec: NetworkSpec, i: nat, n: nat)
    requires
        i <= n,
        spec_layer_stacks(d, pos, spec, i).0 is Err,
    ensures
        spec_layer_stacks(d, pos, spec, n) == spec_layer_stacks(d, pos, spec, i),
    decreases n,
{
    if n > i {
        lemma_layer_stacks_fail_on(d, pos, spec, i, (n - 1) as nat);
    }
}

/// Reads the network that `bytes` hold, as the specification describes it.
#[verifier::loop_isolation(false)]
pub fn parse_network(bytes: &[u8], spec: NetworkSpec) -> (r: Result<Network, NetworkError>)
    requires
        dims_fit(spec),
    ensures
        viewed(r) == spec_network(bytes@, spec),
{
    let mut nnreader = NNUEReader::new(bytes);
    let header = match read_header(&mut nnreader, &spec) {
        Ok(v) => v,
        Err(e) => return Err(e),
    };
    let transformer = match read_transformer(&mut nnreader, &spec) {
        Ok(v) => v,
        Err(e) => return Err(e),
    };
    let ghost stacks_start = nnreader.pos();
    let mut layer_stacks: Vec<LayerStack> = Vec::with_capacity(LAYER_STACKS);
    assert(layer_stacks@.map_values(|l: LayerStack| l@) =~= Seq::<LayerStackView>::empty());
    let mut i: usize = 0;
    while i < LAYER_STACKS
        invariant
            i <= LAYER_STACKS,
            dims_fit(spec),
            nnreader.data() == bytes@,
            nnreader.pos() <= nnreader.data().len(),
            spec_layer_stacks(bytes@, stacks_start, spec, i as nat) == (
                Ok::<Seq<LayerStackView>, NetworkError>(
                    layer_stacks@.map_values(|l: LayerStack| l@),
                ),
                nnreader.pos(),
            ),
        decreases LAYER_STACKS - i,
    {
        let stack = match read_layer_stack(&mut nnreader, &spec) {
            Ok(v) => v,
            Err(e) => {
                proof {
                    lemma_layer_stacks_fail_on(
                        bytes@,
                        stacks_start,
                        spec,
                        (i + 1) as nat,
                        LAYER_STACKS as nat,
                    );
                }
                return Err(e);
            },
        };
        let ghost before = layer_stacks@;
        layer_stacks.push(stack);
        proof {
            assert(layer_stacks@.map_values(|l: LayerStack| l@) =~= before.map_values(
                |l: LayerStack| l@,
            ).push(stack@));
        }
        i += 1;
    }
    match nnreader.finish() {
        Ok(_) => {},
        Err(e) => return Err(NetworkError::Read(e)),
    }
    let kind = match spec.threat_input_dims {
        None => NetworkKind::Small(spec.path),
        Some(_) => NetworkKind::Big(spec.path),
    };
    Ok(Network { header, kind, transformer, layer_stacks })
}


/// Whether `layer` is what the bytes of `d` at `at` hold: `outputs` biases, each
/// the little-endian number of four bytes taken modulo `2^32`, and right after
/// them `weights` weights, each one byte taken modulo `2^8`.
pub open spec fn layer_bytes_at(layer: DenseLayerView, d: Seq<u8>, at: int, outputs: nat, weights: nat) -> bool {
    &&& layer.biases.len() == outputs
    &&& forall|i: int|
        0 <= i < outputs ==> (#[trigger] layer.biases[i] as int) % 0x1_0000_0000 == d[at + 4 * i] + d[at
            + 4 * i + 1] * 0x100 + d[at + 4 * i + 2] * 0x1_0000 + d[at + 4 * i + 3] * 0x100_0000
    &&& layer.weights.len() == weights
    &&& forall|j: int|
        0 <= j < weights ==> (#[trigger] layer.weights[j] as int) % 0x100 == d[at + 4 * outputs + j]
}

/// A dense layer read at `pos` takes its biases first: `outputs` little-endian
/// `i32` values of four bytes each, then `weights` bytes, one `i8` each, and
/// ends right after them.
pub proof fn lemma_dense_layer_layout(d: Seq<u8>, pos: int, outputs: nat, weights: nat)
    requires
        0 <= pos <= d.len(),
        spec_dense_layer(d, pos, outputs, weights).0 is Ok,
    ensures
        spec_dense_layer(d, pos, outputs, weights).1 == pos + 4 * outputs + weights,
        spec_dense_layer(d, pos, outputs, weights).0 matches Ok(layer) && layer_bytes_at(
            layer,
            d,
            pos,
            outputs,
            weights,
        ),
{
    lemma_i32_array_layout(d, pos, outputs);
    let p = pos + 4 * outputs;
    lemma_i8_array_layout(d, p, weights);
}

/// A layer stack read at `pos`: the architecture hash (four bytes), then its
/// three dense layers in turn, each biases first and weights after: `fc0` with
/// 16 biases and `16 * half_dims` weights, `fc1` with 32 biases and `32 * 32`
/// weights, `fc2` with one bias and 32 weights. The read ends right after them.
/// So does every layer stack of a parsed network (`parse_network`).
pub proof fn lemma_layer_stack_layout(d: Seq<u8>, pos: int, spec: NetworkSpec)
    requires
        0 <= pos <= d.len(),
        spec_layer_stack(d, pos, spec).0 is Ok,
    ensures
        ({
            let hd = spec.half_dims as nat;
            let at0 = pos + 4;
            let at1 = at0 + 4 * 16 + 16 * hd;
            let at2 = at1 + 4 * 32 + 32 * 32;
            &&& spec_layer_stack(d, pos, spec).1 == at2 + 4 + 32
            &&& spec_layer_stack(d, pos, spec).0 matches Ok(stack) && {
                &&& layer_bytes_at(stack.fc0, d, at0, 16, 16 * hd)
                &&& layer_bytes_at(stack.fc1, d, at1, 32, 32 * 32)
                &&& layer_bytes_at(stack.fc2, d, at2, 1, 32)
            }
        }),
{
    let hd = spec.half_dims as nat;
    let at0 = pos + 4;
    let at1 = at0 + 4 * 16 + 16 * hd;
    let at2 = at1 + 4 * 32 + 32 * 32;
    assert(spec_read_u32(d, pos).1 == at0);
    lemma_dense_layer_layout(d, at0, 16, 16 * hd);
    lemma_dense_layer_layout(d, at1, 32, 32 * 32);
    lemma_dense_layer_layout(d, at2, 1, 32);
}

} // verus!
