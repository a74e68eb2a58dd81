//! The parameters of an NNUE network and the specification of which network to read.
use vstd::prelude::*;

verus! {

/// Which network to read and the dimensions and hashes it must have.
pub struct NetworkSpec {
    pub path: String,
    pub transformer_hash: u32,
    pub architecture_hash: u32,
    pub half_dims: usize,
    pub input_dims: usize,
    pub threat_input_dims: Option<usize>,
}

pub enum NetworkKind {
    Small(String),
    Big(String),
}

impl NetworkSpec {
    /// The specification of the small (HalfKAv2) or the big (full threats) network at a path.
    pub fn new(kind: NetworkKind) -> (r: NetworkSpec)
        ensures
            match kind {
                NetworkKind::Small(path) => {
                    &&& r.path@ == path@
                    &&& r.transformer_hash == 0x7f234db8
                    &&& r.architecture_hash == 0x6333712a
                    &&& r.half_dims == 128
                    &&& r.input_dims == 22_528
                    &&& r.threat_input_dims is None
                },
                NetworkKind::Big(path) => {
                    &&& r.path@ == path@
                    &&& r.transformer_hash == 0x8f2344b8
                    &&& r.architecture_hash == 0x63336a4a
                    &&& r.half_dims == 1_024
                    &&& r.input_dims == 22_528
                    &&& r.threat_input_dims == Some(79_856usize)
                },
            },
    {
        match kind {
            NetworkKind::Small(path) => NetworkSpec {
                path,
                transformer_hash: 0x7f234db8,
                architecture_hash: 0x6333712a,
                half_dims: 128,
                input_dims: 22_528,
                threat_input_dims: None,
            },
            NetworkKind::Big(path) => NetworkSpec {
                path,
                transformer_hash: 0x8f2344b8,
                architecture_hash: 0x63336a4a,
                half_dims: 1_024,
                input_dims: 22_528,
                threat_input_dims: Some(79_856),
            },
        }
    }
}

pub struct NetworkHeader {
    pub version: u32,
    pub network_hash: u32,
    pub description: String,
}

pub struct FeatureTransformer {
    pub biases: Vec<i16>,
    pub weights: Vec<i16>,
    pub psqt_weights: Vec<i32>,
    // only used by big network
    pub threat_weights: Option<Vec<i8>>,
    pub threat_psqt_weights: Option<Vec<i32>>,
}

pub struct LayerStack {
    pub fc0: DenseLayer,
    pub fc1: DenseLayer,
    pub fc2: DenseLayer,
}

pub struct DenseLayer {
    pub biases: Vec<i32>,
    pub weights: Vec<i8>,
}

pub struct Network {
    pub header: NetworkHeader,
    pub kind: NetworkKind,
    pub transformer: FeatureTransformer,
    pub layer_stacks: Vec<LayerStack>,
}

// ---------------------------------------------------------------------------
// Mathematical views of the network types.
// ---------------------------------------------------------------------------

pub struct NetworkHeaderView {
    pub version: u32,
    pub network_hash: u32,
    pub description: Seq<char>,
}

pub enum NetworkKindView {
    Small(Seq<char>),
    Big(Seq<char>),
}

pub struct FeatureTransformerView {
    pub biases: Seq<i16>,
    pub weights: Seq<i16>,
    pub psqt_weights: Seq<i32>,
    pub threat_weights: Option<Seq<i8>>,
    pub threat_psqt_weights: Option<Seq<i32>>,
}

pub struct DenseLayerView {
    pub biases: Seq<i32>,
    pub weights: Seq<i8>,
}

pub struct LayerStackView {
    pub fc0: DenseLayerView,
    pub fc1: DenseLayerView,
    pub fc2: DenseLayerView,
}

pub struct NetworkView {
    pub header: NetworkHeaderView,
    pub kind: NetworkKindView,
    pub transformer: FeatureTransformerView,
    pub layer_stacks: Seq<LayerStackView>,
}

impl View for NetworkHeader {
    type V = NetworkHeaderView;

    open spec fn view(&self) -> NetworkHeaderView {
        NetworkHeaderView {
            version: self.version,
            network_hash: self.network_hash,
            description: self.description@,
        }
    }
}

impl View for NetworkKind {
    type V = NetworkKindView;

    open spec fn view(&self) -> NetworkKindView {
        match self {
            NetworkKind::Small(p) => NetworkKindView::Small(p@),
            NetworkKind::Big(p) => NetworkKindView::Big(p@),
        }
    }
}

impl View for FeatureTransformer {
    type V = FeatureTransformerView;

    open spec fn view(&self) -> FeatureTransformerView {
        FeatureTransformerView {
            biases: self.biases@,
            weights: self.weights@,
            psqt_weights: self.psqt_weights@,
            threat_weights: match self.threat_weights {
                Some(w) => Some(w@),
                None => None,
            },
            threat_psqt_weights: match self.threat_psqt_weights {
                Some(w) => Some(w@),
                None => None,
            },
        }
    }
}

impl View for DenseLayer {
    type V = DenseLayerView;

    open spec fn view(&self) -> DenseLayerView {
        DenseLayerView { biases: self.biases@, weights: self.weights@ }
    }
}

impl View for LayerStack {
    type V = LayerStackView;

    open spec fn view(&self) -> LayerStackView {
        LayerStackView { fc0: self.fc0@, fc1: self.fc1@, fc2: self.fc2@ }
    }
}

impl View for Network {
    type V = NetworkView;

    open spec fn view(&self) -> NetworkView {
        NetworkView {
            header: self.header@,
            kind: self.kind@,
            transformer: self.transformer@,
            layer_stacks: self.layer_stacks@.map_values(|l: LayerStack| l@),
        }
    }
}

} // verus!
