//! The tensors of a model, the order in which they are loaded, and the layout
//! in which they reach the device.
//!
//! Q4_0 matrices go verbatim, as words. The Q6_K embedding is repacked from
//! rows of 21 blocks of 210 bytes to rows of whole words. F32 tensors go as
//! they are; the output scale of a layer stays on the host.

use vstd::prelude::*;
use vstd::string::*;

use crate::shape::{LayerKind, ModelDesc};
use crate::text::{decimal, push_decimal, same_text};

verus! {

/// Words of a repacked Q6_K row: 4410 bytes padded to 4416, so that every row
/// starts at a word.
pub const Q6K_ROW_WORDS: usize = 1104;

/// The tensors of a layer.
#[derive(Debug, Clone, Copy, PartialEq, Eq, Hash, Structural)]
pub enum Tensor {
    LayerOutputScale,
    AttnNorm,
    AttnQNorm,
    AttnKNorm,
    PostAttentionNorm,
    FfnNorm,
    PostFfwNorm,
    AttnQ,
    AttnK,
    AttnV,
    AttnOutput,
    FfnGate,
    FfnUp,
    FfnDown,
}

/// What a tensor is called within its layer.
pub open spec fn tensor_suffix(t: Tensor) -> Seq<char> {
    match t {
        Tensor::LayerOutputScale => "layer_output_scale"@,
        Tensor::AttnNorm => "attn_norm"@,
        Tensor::AttnQNorm => "attn_q_norm"@,
        Tensor::AttnKNorm => "attn_k_norm"@,
        Tensor::PostAttentionNorm => "post_attention_norm"@,
        Tensor::FfnNorm => "ffn_norm"@,
        Tensor::PostFfwNorm => "post_ffw_norm"@,
        Tensor::AttnQ => "attn_q"@,
        Tensor::AttnK => "attn_k"@,
        Tensor::AttnV => "attn_v"@,
        Tensor::AttnOutput => "attn_output"@,
        Tensor::FfnGate => "ffn_gate"@,
        Tensor::FfnUp => "ffn_up"@,
        Tensor::FfnDown => "ffn_down"@,
    }
}

/// The matrices of a layer are quantized, its vectors are not.
pub open spec fn tensor_dtype(t: Tensor) -> Seq<char> {
    match t {
        Tensor::AttnQ
        | Tensor::AttnK
        | Tensor::AttnV
        | Tensor::AttnOutput
        | Tensor::FfnGate
        | Tensor::FfnUp
        | Tensor::FfnDown => "Q4_0"@,
        _ => "F32"@,
    }
}

impl Tensor {
    /// What the tensor is called within its layer.
    pub fn suffix(self) -> (s: &'static str)
        ensures
            s@ == tensor_suffix(self),
    {
        match self {
            Tensor::LayerOutputScale => "layer_output_scale",
            Tensor::AttnNorm => "attn_norm",
            Tensor::AttnQNorm => "attn_q_norm",
            Tensor::AttnKNorm => "attn_k_norm",
            Tensor::PostAttentionNorm => "post_attention_norm",
            Tensor::FfnNorm => "ffn_norm",
            Tensor::PostFfwNorm => "post_ffw_norm",
            Tensor::AttnQ => "attn_q",
            Tensor::AttnK => "attn_k",
            Tensor::AttnV => "attn_v",
            Tensor::AttnOutput => "attn_output",
            Tensor::FfnGate => "ffn_gate",
            Tensor::FfnUp => "ffn_up",
            Tensor::FfnDown => "ffn_down",
        }
    }

    /// The type that the tensor must have.
    pub fn dtype(self) -> (s: &'static str)
        ensures
            s@ == tensor_dtype(self),
    {
        match self {
            Tensor::AttnQ
            | Tensor::AttnK
            | Tensor::AttnV
            | Tensor::AttnOutput
            | Tensor::FfnGate
            | Tensor::FfnUp
            | Tensor::FfnDown => "Q4_0",
            _ => "F32",
        }
    }
}

/// The tensors of a model.
#[derive(Debug, Clone, Copy, PartialEq, Eq, Hash, Structural)]
pub enum Weight {
    Layer(usize, Tensor),
    TokenEmbd,
    OutputNorm,
    RopeFreqs,
}

/// What a tensor is called.
pub open spec fn weight_name(w: Weight) -> Seq<char> {
    match w {
        Weight::Layer(i, t) => "blk."@ + decimal(i as nat) + "."@ + tensor_suffix(t) + ".weight"@,
        Weight::TokenEmbd => "token_embd.weight"@,
        Weight::OutputNorm => "output_norm.weight"@,
        Weight::RopeFreqs => "rope_freqs.weight"@,
    }
}

/// The type that a tensor must have.
pub open spec fn weight_dtype(w: Weight) -> Seq<char> {
    match w {
        Weight::Layer(_, t) => tensor_dtype(t),
        Weight::TokenEmbd => "Q6_K"@,
        Weight::OutputNorm | Weight::RopeFreqs => "F32"@,
    }
}

impl Weight {
    /// What the tensor is called.
    pub fn name(self) -> (s: String)
        ensures
            s@ == weight_name(self),
    {
        match self {
            Weight::Layer(i, t) => {
                let mut s: String = "blk.".to_owned();
                push_decimal(&mut s, i as u64);
                s.append(".");
                s.append(t.suffix());
                s.append(".weight");
                s
            },
            Weight::TokenEmbd => "token_embd.weight".to_owned(),
            Weight::OutputNorm => "output_norm.weight".to_owned(),
            Weight::RopeFreqs => "rope_freqs.weight".to_owned(),
        }
    }

    /// The type that the tensor must have.
    pub fn dtype(self) -> (s: &'static str)
        ensures
            s@ == weight_dtype(self),
    {
        match self {
            Weight::Layer(_, t) => t.dtype(),
            Weight::TokenEmbd => "Q6_K",
            Weight::OutputNorm | Weight::RopeFreqs => "F32",
        }
    }
}

/// The tensors of a layer, in the order in which they are loaded; a global
/// layer has no values of its own.
pub open spec fn layer_tensors(kind: LayerKind) -> Seq<Tensor> {
    let head = seq![
        Tensor::LayerOutputScale,
        Tensor::AttnNorm,
        Tensor::AttnQNorm,
        Tensor::AttnKNorm,
        Tensor::PostAttentionNorm,
        Tensor::FfnNorm,
        Tensor::PostFfwNorm,
        Tensor::AttnQ,
        Tensor::AttnK,
    ];
    let tail = seq![Tensor::AttnOutput, Tensor::FfnGate, Tensor::FfnUp, Tensor::FfnDown];
    match kind {
        LayerKind::Sliding => head.push(Tensor::AttnV) + tail,
        LayerKind::Global => head + tail,
    }
}

/// Whether a layer has a tensor.
pub open spec fn has_tensor(kind: LayerKind, t: Tensor) -> bool {
    t != Tensor::AttnV || kind == LayerKind::Sliding
}

/// The tensors that a layer has are those that are loaded for it.
pub proof fn lemma_layer_tensors(kind: LayerKind, t: Tensor)
    ensures
        layer_tensors(kind).contains(t) == has_tensor(kind, t),
{
    let list = layer_tensors(kind);
    if kind == LayerKind::Sliding {
        assert(list =~= seq![
            Tensor::LayerOutputScale,
            Tensor::AttnNorm,
            Tensor::AttnQNorm,
            Tensor::AttnKNorm,
            Tensor::PostAttentionNorm,
            Tensor::FfnNorm,
            Tensor::PostFfwNorm,
            Tensor::AttnQ,
            Tensor::AttnK,
            Tensor::AttnV,
            Tensor::AttnOutput,
            Tensor::FfnGate,
            Tensor::FfnUp,
            Tensor::FfnDown,
        ]);
        assert(list[9] == Tensor::AttnV && list[10] == Tensor::AttnOutput && list[11]
            == Tensor::FfnGate && list[12] == Tensor::FfnUp && list[13] == Tensor::FfnDown);
    } else {
        assert(list[9] == Tensor::AttnOutput && list[10] == Tensor::FfnGate && list[11]
            == Tensor::FfnUp && list[12] == Tensor::FfnDown);
    }
    assert(list[0] == Tensor::LayerOutputScale && list[1] == Tensor::AttnNorm && list[2]
        == Tensor::AttnQNorm && list[3] == Tensor::AttnKNorm && list[4]
        == Tensor::PostAttentionNorm && list[5] == Tensor::FfnNorm && list[6]
        == Tensor::PostFfwNorm && list[7] == Tensor::AttnQ && list[8] == Tensor::AttnK);
}

/// The tensors of the first `n` layers.
pub open spec fn layers_weights(kinds: Seq<LayerKind>, n: nat) -> Seq<Weight>
    decreases n,
{
    if n == 0 {
        Seq::empty()
    } else {
        layers_weights(kinds, (n - 1) as nat) + layer_tensors(kinds[n - 1]).map_values(
            |t: Tensor| Weight::Layer((n - 1) as usize, t),
        )
    }
}

/// All tensors of a model, in the order in which they are loaded.
pub open spec fn model_weights(kinds: Seq<LayerKind>) -> Seq<Weight> {
    layers_weights(kinds, kinds.len()) + seq![
        Weight::TokenEmbd,
        Weight::OutputNorm,
        Weight::RopeFreqs,
    ]
}

fn tensors_of(kind: LayerKind) -> (list: Vec<Tensor>)
    ensures
        list@ == layer_tensors(kind),
{
    let list: Vec<Tensor> = match kind {
        LayerKind::Sliding => vec![
            Tensor::LayerOutputScale,
            Tensor::AttnNorm,
            Tensor::AttnQNorm,
            Tensor::AttnKNorm,
            Tensor::PostAttentionNorm,
            Tensor::FfnNorm,
            Tensor::PostFfwNorm,
            Tensor::AttnQ,
            Tensor::AttnK,
            Tensor::AttnV,
            Tensor::AttnOutput,
            Tensor::FfnGate,
            Tensor::FfnUp,
            Tensor::FfnDown,
        ],
        LayerKind::Global => vec![
            Tensor::LayerOutputScale,
            Tensor::AttnNorm,
            Tensor::AttnQNorm,
            Tensor::AttnKNorm,
            Tensor::PostAttentionNorm,
            Tensor::FfnNorm,
            Tensor::PostFfwNorm,
            Tensor::AttnQ,
            Tensor::AttnK,
            Tensor::AttnOutput,
            Tensor::FfnGate,
            Tensor::FfnUp,
            Tensor::FfnDown,
        ],
    };
    assert(list@ =~= layer_tensors(kind));
    list
}

/// All tensors of a model, in the order in which they are loaded.
pub fn weights_of(kinds: &Vec<LayerKind>) -> (list: Vec<Weight>)
    ensures
        list@ == model_weights(kinds@),
{
    let mut list: Vec<Weight> = Vec::new();
    let mut i: usize = 0;
    while i < kinds.len()
        invariant
            i <= kinds@.len(),
            list@ == layers_weights(kinds@, i as nat),
        decreases kinds@.len() - i,
    {
        let tensors = tensors_of(kinds[i]);
        let ghost had = list@;
        let ghost named = |t: Tensor| Weight::Layer(i, t);
        let mut j: usize = 0;
        while j < tensors.len()
            invariant
                j <= tensors@.len(),
                named == (|t: Tensor| Weight::Layer(i, t)),
                list@ == had + tensors@.take(j as int).map_values(named),
            decreases tensors@.len() - j,
        {
            list.push(Weight::Layer(i, tensors[j]));
            j = j + 1;
            assert(list@ =~= had + tensors@.take(j as int).map_values(named));
        }
        assert(tensors@.take(j as int) =~= tensors@);
        i = i + 1;
        assert(list@ =~= layers_weights(kinds@, i as nat));
    }
    list.push(Weight::TokenEmbd);
    list.push(Weight::OutputNorm);
    list.push(Weight::RopeFreqs);
    assert(list@ =~= model_weights(kinds@));
    list
}

/// A model file lacks a tensor, or has one of another shape.
#[derive(Debug)]
pub enum RefError {
    MissingTensor(String),
    BadTensor { name: String, what: String },
}

impl RefError {
    pub open spec fn text(self) -> Seq<char> {
        match self {
            RefError::MissingTensor(name) => "tensor `"@ + name@ + "` missing from GGUF"@,
            RefError::BadTensor { name, what } => "tensor `"@ + name@ + "`: "@ + what@,
        }
    }

    /// The error in words.
    pub fn message(&self) -> (s: String)
        ensures
            s@ == self.text(),
    {
        let mut s: String = "tensor `".to_owned();
        match self {
            RefError::MissingTensor(name) => {
                s.append(name.as_str());
                s.append("` missing from GGUF");
            },
            RefError::BadTensor { name, what } => {
                s.append(name.as_str());
                s.append("`: ");
                s.append(what.as_str());
            },
        }
        s
    }
}

/// Weights could not be brought to the device.
#[derive(Debug)]
pub enum UploadError {
    /// What the device said.
    Gpu(String),
    Model(RefError),
    BadTensor { name: String, what: String },
}

impl UploadError {
    pub open spec fn text(self) -> Seq<char> {
        match self {
            UploadError::Gpu(what) => what@,
            UploadError::Model(e) => e.text(),
            UploadError::BadTensor { name, what } => "tensor `"@ + name@ + "`: "@ + what@,
        }
    }

    /// The error in words.
    pub fn message(&self) -> (s: String)
        ensures
            s@ == self.text(),
    {
        match self {
            UploadError::Gpu(what) => what.as_str().to_owned(),
            UploadError::Model(e) => e.message(),
            UploadError::BadTensor { name, what } => {
                let mut s: String = "tensor `".to_owned();
                s.append(name.as_str());
                s.append("`: ");
                s.append(what.as_str());
                s
            },
        }
    }
}

/// What a model file says of a tensor: its name, and the name of its type.
#[derive(Debug)]
pub struct TensorInfo {
    pub name: String,
    pub dtype: String,
}

/// The first tensor of a name among those from `i` on.
pub open spec fn tensor_at(infos: Seq<TensorInfo>, name: Seq<char>, i: int) -> Option<int>
    decreases infos.len() - i,
{
    if i < 0 || i >= infos.len() {
        None
    } else if infos[i].name@ == name {
        Some(i)
    } else {
        tensor_at(infos, name, i + 1)
    }
}

/// What is said of a tensor of the wrong type.
pub open spec fn wrong_dtype(found: Seq<char>, expected: Seq<char>) -> Seq<char> {
    "dtype "@ + found + " != expected "@ + expected
}

/// Whether a tensor is there with the type that it must have.
pub open spec fn found(infos: Seq<TensorInfo>, w: Weight) -> bool {
    match tensor_at(infos, weight_name(w), 0) {
        Some(i) => infos[i].dtype@ == weight_dtype(w),
        None => false,
    }
}

/// The error of a tensor that is not found.
pub open spec fn reported(infos: Seq<TensorInfo>, w: Weight, e: UploadError) -> bool {
    match tensor_at(infos, weight_name(w), 0) {
        Some(i) => e matches UploadError::BadTensor { name, what } && name@ == weight_name(w)
            && what@ == wrong_dtype(infos[i].dtype@, weight_dtype(w)),
        None => e matches UploadError::Model(RefError::MissingTensor(name)) && name@ == weight_name(
            w,
        ),
    }
}

/// Looks a tensor up and checks its type.
pub fn tensor_bytes(infos: &Vec<TensorInfo>, w: Weight) -> (r: Result<usize, UploadError>)
    ensures
        match r {
            Ok(i) => found(infos@, w) && tensor_at(infos@, weight_name(w), 0) == Some(i as int),
            Err(e) => !found(infos@, w) && reported(infos@, w, e),
        },
{
    let name: String = w.name();
    let mut i: usize = 0;
    while i < infos.len()
        invariant
            i <= infos@.len(),
            name@ == weight_name(w),
            tensor_at(infos@, weight_name(w), 0) == tensor_at(infos@, weight_name(w), i as int),
        decreases infos@.len() - i,
    {
        if same_text(infos[i].name.as_str(), name.as_str()) {
            if same_text(infos[i].dtype.as_str(), w.dtype()) {
                return Ok(i);
            }
            let mut what: String = "dtype ".to_owned();
            what.append(infos[i].dtype.as_str());
            what.append(" != expected ");
            what.append(w.dtype());
            return Err(UploadError::BadTensor { name, what });
        }
        i = i + 1;
    }
    Err(UploadError::Model(RefError::MissingTensor(name)))
}

/// What is said of a tensor that should hold floats.
pub open spec fn no_floats(found: Seq<char>) -> Seq<char> {
    "dtype "@ + found + " != F32"@
}

/// Looks a tensor of floats up by name.
pub fn f32_tensor(infos: &Vec<TensorInfo>, name: &str) -> (r: Result<usize, RefError>)
    ensures
        match tensor_at(infos@, name@, 0) {
            Some(i) => if infos@[i].dtype@ == "F32"@ {
                r == Ok::<usize, RefError>(i as usize)
            } else {
                r matches Err(RefError::BadTensor { name: n, what }) && n@ == name@ && what@
                    == no_floats(infos@[i].dtype@)
            },
            None => r matches Err(RefError::MissingTensor(n)) && n@ == name@,
        },
{
    let mut i: usize = 0;
    while i < infos.len()
        invariant
            i <= infos@.len(),
            tensor_at(infos@, name@, 0) == tensor_at(infos@, name@, i as int),
        decreases infos@.len() - i,
    {
        if same_text(infos[i].name.as_str(), name) {
            if same_text(infos[i].dtype.as_str(), "F32") {
                return Ok(i);
            }
            let mut what: String = "dtype ".to_owned();
            what.append(infos[i].dtype.as_str());
            what.append(" != F32");
            return Err(RefError::BadTensor { name: name.to_owned(), what });
        }
        i = i + 1;
    }
    Err(RefError::MissingTensor(name.to_owned()))
}

/// Where every tensor of a model stands in its file; the first one that is
/// missing or of another type is the error.
pub fn upload(infos: &Vec<TensorInfo>, d: &ModelDesc) -> (r: Result<
    Vec<(Weight, usize)>,
    UploadError,
>)
    ensures
        match r {
            Ok(list) => {
                &&& list@.len() == model_weights(d.layer_kinds@).len()
                &&& forall|k: int|
                    0 <= k < list@.len() ==> {
                        let w = model_weights(d.layer_kinds@)[k];
                        &&& (#[trigger] list@[k]).0 == w
                        &&& found(infos@, w)
                        &&& tensor_at(infos@, weight_name(w), 0) == Some(list@[k].1 as int)
                    }
            },
            Err(e) => exists|k: int|
                0 <= k < model_weights(d.layer_kinds@).len() && first_unfound(
                    infos@,
                    model_weights(d.layer_kinds@),
                    k,
                ) && reported(infos@, #[trigger] model_weights(d.layer_kinds@)[k], e),
        },
{
    let weights = weights_of(&d.layer_kinds);
    let mut list: Vec<(Weight, usize)> = Vec::new();
    let mut k: usize = 0;
    while k < weights.len()
        invariant
            k <= weights@.len(),
            weights@ == model_weights(d.layer_kinds@),
            list@.len() == k,
            forall|j: int|
                0 <= j < k ==> {
                    &&& (#[trigger] list@[j]).0 == weights@[j]
                    &&& found(infos@, weights@[j])
                    &&& tensor_at(infos@, weight_name(weights@[j]), 0) == Some(list@[j].1 as int)
                },
        decreases weights@.len() - k,
    {
        match tensor_bytes(infos, weights[k]) {
            Ok(i) => {
                list.push((weights[k], i));
            },
            Err(e) => {
                assert forall|j: int| 0 <= j < k implies found(
                    infos@,
                    #[trigger] weights@[j],
                ) by {
                    assert(list@[j].0 == weights@[j]);
                }
                assert(first_unfound(infos@, weights@, k as int));
                return Err(e);
            },
        }
        k = k + 1;
    }
    Ok(list)
}

/// Tensor `k` is the first of a list that is not found.
pub open spec fn first_unfound(infos: Seq<TensorInfo>, weights: Seq<Weight>, k: int) -> bool {
    &&& !found(infos, weights[k])
    &&& forall|j: int| 0 <= j < k ==> found(infos, #[trigger] weights[j])
}

/// Each tensor of a layer has a name of its own, and only that.
pub proof fn lemma_suffixes(t: Tensor)
    ensures
        tensor_suffix(t) == "layer_output_scale"@ <==> t == Tensor::LayerOutputScale,
        tensor_suffix(t) == "attn_norm"@ <==> t == Tensor::AttnNorm,
        tensor_suffix(t) == "attn_q_norm"@ <==> t == Tensor::AttnQNorm,
        tensor_suffix(t) == "attn_k_norm"@ <==> t == Tensor::AttnKNorm,
        tensor_suffix(t) == "post_attention_norm"@ <==> t == Tensor::PostAttentionNorm,
        tensor_suffix(t) == "ffn_norm"@ <==> t == Tensor::FfnNorm,
        tensor_suffix(t) == "post_ffw_norm"@ <==> t == Tensor::PostFfwNorm,
        tensor_suffix(t) == "attn_q"@ <==> t == Tensor::AttnQ,
        tensor_suffix(t) == "attn_k"@ <==> t == Tensor::AttnK,
        tensor_suffix(t) == "attn_v"@ <==> t == Tensor::AttnV,
        tensor_suffix(t) == "attn_output"@ <==> t == Tensor::AttnOutput,
        tensor_suffix(t) == "ffn_gate"@ <==> t == Tensor::FfnGate,
        tensor_suffix(t) == "ffn_up"@ <==> t == Tensor::FfnUp,
        tensor_suffix(t) == "ffn_down"@ <==> t == Tensor::FfnDown,
{
    reveal_strlit("layer_output_scale");
    reveal_strlit("attn_norm");
    reveal_strlit("attn_q_norm");
    reveal_strlit("attn_k_norm");
    reveal_strlit("post_attention_norm");
    reveal_strlit("ffn_norm");
    reveal_strlit("post_ffw_norm");
    reveal_strlit("attn_q");
    reveal_strlit("attn_k");
    reveal_strlit("attn_v");
    reveal_strlit("attn_output");
    reveal_strlit("ffn_gate");
    reveal_strlit("ffn_up");
    reveal_strlit("ffn_down");
    assert("layer_output_scale"@.len() == 18 && "attn_norm"@.len() == 9 && "attn_q_norm"@.len() == 11
        && "attn_k_norm"@.len() == 11 && "post_attention_norm"@.len() == 19 && "ffn_norm"@.len() == 8
        && "post_ffw_norm"@.len() == 13 && "attn_q"@.len() == 6 && "attn_k"@.len() == 6
        && "attn_v"@.len() == 6 && "attn_output"@.len() == 11 && "ffn_gate"@.len() == 8
        && "ffn_up"@.len() == 6 && "ffn_down"@.len() == 8);
    assert("attn_q_norm"@[5] == 'q' && "attn_k_norm"@[5] == 'k' && "attn_output"@[5] == 'o');
    assert("attn_q"@[5] == 'q' && "attn_k"@[5] == 'k' && "attn_v"@[5] == 'v' && "ffn_up"@[5]
        == 'p');
    assert("ffn_norm"@[4] == 'n' && "ffn_gate"@[4] == 'g' && "ffn_down"@[4] == 'd');
}

/// A lookup by name finds the first tensor that has it, and finds none only
/// where there is none.
pub proof fn lemma_tensor_found(infos: Seq<TensorInfo>, name: Seq<char>, from: int)
    requires
        0 <= from <= infos.len(),
    ensures
        match tensor_at(infos, name, from) {
            Some(i) => {
                &&& from <= i < infos.len()
                &&& infos[i].name@ == name
                &&& forall|j: int| from <= j < i ==> (#[trigger] infos[j]).name@ != name
            },
            None => forall|j: int|
                from <= j < infos.len() ==> (#[trigger] infos[j]).name@ != name,
        },
    decreases infos.len() - from,
{
    if from < infos.len() && infos[from].name@ != name {
        lemma_tensor_found(infos, name, from + 1);
    }
}

proof fn lemma_layers_weights(kinds: Seq<LayerKind>, n: nat, i: usize, t: Tensor)
    requires
        n <= kinds.len() <= usize::MAX,
    ensures
        layers_weights(kinds, n).contains(Weight::Layer(i, t)) <==> i < n && has_tensor(
            kinds[i as int],
            t,
        ),
        forall|w: Weight| #[trigger] layers_weights(kinds, n).contains(w) ==> w is Layer,
    decreases n,
{
    let all = layers_weights(kinds, n);
    if n > 0 {
        let before = layers_weights(kinds, (n - 1) as nat);
        let tensors = layer_tensors(kinds[n - 1]);
        let own = tensors.map_values(|t: Tensor| Weight::Layer((n - 1) as usize, t));
        lemma_layers_weights(kinds, (n - 1) as nat, i, t);
        lemma_layer_tensors(kinds[n - 1], t);
        let w = Weight::Layer(i, t);
        assert forall|v: Weight| #[trigger] all.contains(v) implies v is Layer by {
            let k = choose|k: int| 0 <= k < all.len() && all[k] == v;
            if k < before.len() {
                assert(before[k] == v);
                assert(before.contains(v));
            }
        }
        if before.contains(w) {
            let k = choose|k: int| 0 <= k < before.len() && before[k] == w;
            assert(all[k] == w);
        }
        if i == n - 1 && tensors.contains(t) {
            let k = choose|k: int| 0 <= k < tensors.len() && tensors[k] == t;
            assert(own[k] == w);
            assert(all[before.len() + k] == w);
        }
        if all.contains(w) {
            let k = choose|k: int| 0 <= k < all.len() && all[k] == w;
            if k < before.len() {
                assert(before[k] == w);
                assert(before.contains(w));
            } else {
                assert(own[k - before.len()] == w);
                assert(tensors[k - before.len()] == t);
                assert(tensors.contains(t));
            }
        }
    }
}

/// A model loads every tensor of every layer, those of its kind and no others,
/// and the three that belong to no layer.
pub proof fn lemma_model_weights(kinds: Seq<LayerKind>, i: usize, t: Tensor)
    requires
        kinds.len() <= usize::MAX,
    ensures
        model_weights(kinds).contains(Weight::Layer(i, t)) <==> i < kinds.len() && (t
            != Tensor::AttnV || kinds[i as int] == LayerKind::Sliding),
        model_weights(kinds).contains(Weight::TokenEmbd),
        model_weights(kinds).contains(Weight::OutputNorm),
        model_weights(kinds).contains(Weight::RopeFreqs),
{
    let layers = layers_weights(kinds, kinds.len());
    let all = model_weights(kinds);
    let n = layers.len() as int;
    lemma_layers_weights(kinds, kinds.len(), i, t);
    assert(all[n] == Weight::TokenEmbd && all[n + 1] == Weight::OutputNorm && all[n + 2]
        == Weight::RopeFreqs);
    let w = Weight::Layer(i, t);
    if layers.contains(w) {
        let k = choose|k: int| 0 <= k < n && layers[k] == w;
        assert(all[k] == w);
    }
    if all.contains(w) {
        let k = choose|k: int| 0 <= k < all.len() && all[k] == w;
        assert(layers[k] == w);
        assert(layers.contains(w));
    }
}

/// Names and types: a layer's tensor is named by its layer and its own name; the
/// matrices that rows are multiplied by are `Q4_0`, the embedding `Q6_K`, and
/// everything else `F32`.
pub proof fn lemma_weight_names(i: usize, t: Tensor)
    ensures
        weight_name(Weight::Layer(i, t)) == "blk."@ + decimal(i as nat) + "."@ + tensor_suffix(t)
            + ".weight"@,
        weight_name(Weight::TokenEmbd) == "token_embd.weight"@,
        weight_name(Weight::OutputNorm) == "output_norm.weight"@,
        weight_name(Weight::RopeFreqs) == "rope_freqs.weight"@,
        weight_dtype(Weight::TokenEmbd) == "Q6_K"@,
        weight_dtype(Weight::OutputNorm) == "F32"@,
        weight_dtype(Weight::RopeFreqs) == "F32"@,
        weight_dtype(Weight::Layer(i, t)) == (match t {
            Tensor::AttnNorm | Tensor::AttnQNorm | Tensor::AttnKNorm => "F32"@,
            Tensor::PostAttentionNorm | Tensor::FfnNorm | Tensor::PostFfwNorm => "F32"@,
            Tensor::LayerOutputScale => "F32"@,
            _ => "Q4_0"@,
        }),
{
}

/// Tensors are loaded layer by layer, those of a layer always in one order:
/// scale and norms, then the matrices in the order in which they are used; and
/// behind all layers what belongs to none.
pub proof fn lemma_load_order(kinds: Seq<LayerKind>, n: nat)
    requires
        n < kinds.len() <= usize::MAX,
    ensures
        layers_weights(kinds, 0) == Seq::<Weight>::empty(),
        ({
            let own = |t: Tensor| Weight::Layer(n as usize, t);
            let head = seq![
                own(Tensor::LayerOutputScale),
                own(Tensor::AttnNorm),
                own(Tensor::AttnQNorm),
                own(Tensor::AttnKNorm),
                own(Tensor::PostAttentionNorm),
                own(Tensor::FfnNorm),
                own(Tensor::PostFfwNorm),
                own(Tensor::AttnQ),
                own(Tensor::AttnK),
            ];
            let middle = if kinds[n as int] == LayerKind::Sliding {
                seq![own(Tensor::AttnV)]
            } else {
                Seq::empty()
            };
            let tail = seq![
                own(Tensor::AttnOutput),
                own(Tensor::FfnGate),
                own(Tensor::FfnUp),
                own(Tensor::FfnDown),
            ];
            layers_weights(kinds, n + 1) == layers_weights(kinds, n) + (head + middle + tail)
        }),
        model_weights(kinds) == layers_weights(kinds, kinds.len()).push(Weight::TokenEmbd).push(
            Weight::OutputNorm,
        ).push(Weight::RopeFreqs),
{
    let named = |t: Tensor| Weight::Layer(n as usize, t);
    let list = layer_tensors(kinds[n as int]);
    let own = |t: Tensor| Weight::Layer(n as usize, t);
    let head = seq![
        own(Tensor::LayerOutputScale),
        own(Tensor::AttnNorm),
        own(Tensor::AttnQNorm),
        own(Tensor::AttnKNorm),
        own(Tensor::PostAttentionNorm),
        own(Tensor::FfnNorm),
        own(Tensor::PostFfwNorm),
        own(Tensor::AttnQ),
        own(Tensor::AttnK),
    ];
    let middle = if kinds[n as int] == LayerKind::Sliding {
        seq![own(Tensor::AttnV)]
    } else {
        Seq::empty()
    };
    let tail = seq![
        own(Tensor::AttnOutput),
        own(Tensor::FfnGate),
        own(Tensor::FfnUp),
        own(Tensor::FfnDown),
    ];
    assert(list.map_values(named) =~= head + middle + tail);
    assert(layers_weights(kinds, n + 1) =~= layers_weights(kinds, n) + list.map_values(
        |t: Tensor| Weight::Layer(n as usize, t),
    ));
    assert(model_weights(kinds) =~= layers_weights(kinds, kinds.len()).push(Weight::TokenEmbd).push(
        Weight::OutputNorm,
    ).push(Weight::RopeFreqs));
}

} // verus!
