//! What each model family asks of a prompt.
//!
//! A spec says which checkpoints it is for, which placeholder tokens stand for
//! media, how many items a request may hold, how videos are sampled and what
//! each placeholder is replaced by.
use crate::encoder_inputs::PreprocessedEncoderInputs;
use crate::json;
use crate::json::{as_text, as_unsigned, member};
use crate::media::VideoFetchConfig;
use crate::types::{
    FieldLayout, FieldLayoutView, Modality, ModalityLimits, PromptReplacement,
    PromptReplacementView, TokenId,
};
use crate::vision::PreProcessorConfig;
use serde_json::Value;
use vstd::hash_map::StringHashMap;
use vstd::prelude::*;

pub mod glm53_flash;
pub mod laws;
pub mod minimax_m3;
pub mod qwen3_vl;

verus! {

/// Why a spec cannot answer.
#[derive(Debug, Clone, PartialEq, Eq)]
pub enum ModelRegistryError {
    /// The model's configuration lacks a field.
    MissingConfigField { field: String },
    /// The vocabulary lacks a token.
    TokenNotFound { token: String },
    /// The tokenizer cannot encode a text.
    TextEncodingFailed { spec: &'static str, text: String },
    /// What the preprocessor handed over is not what the spec needs.
    InvalidPreprocessedField { field: String },
    /// The model takes no media of this kind.
    UnsupportedModality { spec: &'static str, modality: Modality },
}

/// What an error says.
pub enum RegistryErrorView {
    MissingConfigField { field: Seq<char> },
    TokenNotFound { token: Seq<char> },
    TextEncodingFailed { spec: Seq<char>, text: Seq<char> },
    InvalidPreprocessedField { field: Seq<char> },
    UnsupportedModality { spec: Seq<char>, modality: Modality },
}

impl View for ModelRegistryError {
    type V = RegistryErrorView;

    open spec fn view(&self) -> RegistryErrorView {
        match self {
            ModelRegistryError::MissingConfigField { field } => {
                RegistryErrorView::MissingConfigField { field: field@ }
            },
            ModelRegistryError::TokenNotFound { token } => {
                RegistryErrorView::TokenNotFound { token: token@ }
            },
            ModelRegistryError::TextEncodingFailed { spec, text } => {
                RegistryErrorView::TextEncodingFailed { spec: spec@, text: text@ }
            },
            ModelRegistryError::InvalidPreprocessedField { field } => {
                RegistryErrorView::InvalidPreprocessedField { field: field@ }
            },
            ModelRegistryError::UnsupportedModality { spec, modality } => {
                RegistryErrorView::UnsupportedModality { spec: spec@, modality: *modality }
            },
        }
    }
}

pub type RegistryResult<T> = Result<T, ModelRegistryError>;

/// What a result says.
pub open spec fn viewed<T: View>(r: RegistryResult<T>) -> Result<T::V, RegistryErrorView> {
    match r {
        Ok(v) => Ok(v@),
        Err(e) => Err(e@),
    }
}

/// What replacements say.
pub open spec fn views(replacements: Seq<PromptReplacement>) -> Seq<PromptReplacementView> {
    Seq::new(replacements.len(), |i: int| replacements[i]@)
}

/// What replacements, or the error in their place, say.
pub open spec fn replacements_viewed(r: RegistryResult<Vec<PromptReplacement>>) -> Result<
    Seq<PromptReplacementView>,
    RegistryErrorView,
> {
    match r {
        Ok(v) => Ok(views(v@)),
        Err(e) => Err(e@),
    }
}

/// Every replacement is of one modality.
pub open spec fn all_of(replacements: Seq<PromptReplacement>, modality: Modality) -> bool {
    forall|i: int| 0 <= i < replacements.len() ==> (#[trigger] replacements[i]).modality == modality
}

/// The results for `0..n` in sequence, or the first error among them.
pub open spec fn collected<V>(
    f: spec_fn(int) -> Result<V, RegistryErrorView>,
    n: nat,
) -> Result<Seq<V>, RegistryErrorView>
    decreases n,
{
    if n == 0 {
        Ok(Seq::empty())
    } else {
        match collected(f, (n - 1) as nat) {
            Err(e) => Err(e),
            Ok(before) => match f(n - 1) {
                Ok(v) => Ok(before.push(v)),
                Err(e) => Err(e),
            },
        }
    }
}

/// The first error stays.
pub proof fn lemma_first_error<V>(
    f: spec_fn(int) -> Result<V, RegistryErrorView>,
    i: nat,
    n: nat,
)
    requires
        i <= n,
        collected(f, i) is Err,
    ensures
        collected(f, n) == collected(f, i),
    decreases n - i,
{
    if i < n {
        lemma_first_error(f, i, (n - 1) as nat);
    }
}

/// Sequences one after the other.
pub open spec fn joined(blocks: Seq<Seq<TokenId>>) -> Seq<TokenId>
    decreases blocks.len(),
{
    if blocks.len() == 0 {
        Seq::empty()
    } else {
        joined(blocks.drop_last()) + blocks.last()
    }
}

/// A tokenizer's vocabulary and text encoding. An implementation answers the
/// same question always alike; one that is not verified leaves open what it
/// answers.
pub trait Tokenizer {
    /// The id of a token.
    open spec fn id_of(&self, token: Seq<char>) -> Option<u32> {
        arbitrary()
    }

    /// The token of an id.
    open spec fn token_of(&self, id: u32) -> Option<Seq<char>> {
        arbitrary()
    }

    /// The ids of a text.
    open spec fn encoding_of(&self, text: Seq<char>) -> Option<Seq<u32>> {
        arbitrary()
    }

    fn token_to_id(&self, token: &str) -> (id: Option<u32>)
        ensures
            id == self.id_of(token@),
    ;

    fn id_to_token(&self, id: u32) -> (token: Option<String>)
        ensures
            token is Some == self.token_of(id) is Some,
            token matches Some(t) ==> self.token_of(id) == Some(t@),
    ;

    fn encode_text(&self, text: &str) -> (ids: Option<Vec<u32>>)
        ensures
            ids is Some == self.encoding_of(text@) is Some,
            ids matches Some(v) ==> self.encoding_of(text@) == Some(v@),
    ;
}

/// A checkpoint: its name, its tokenizer and its configuration.
pub struct ModelMetadata<'a, T: Tokenizer> {
    pub model_id: &'a str,
    pub tokenizer: &'a T,
    pub config: &'a Value,
}

/// Ids as a prompt holds them.
pub open spec fn as_token_ids(ids: Seq<u32>) -> Seq<TokenId> {
    Seq::new(ids.len(), |i: int| ids[i] as TokenId)
}

/// The names that a path is made of.
pub open spec fn names(path: Seq<&str>) -> Seq<Seq<char>> {
    Seq::new(path.len(), |i: int| path[i]@)
}

impl<'a, T: Tokenizer> ModelMetadata<'a, T> {
    /// The configuration's number at a path, where there is one that fits 32 bits.
    pub open spec fn number_at(self, path: Seq<Seq<char>>) -> Option<u32> {
        match json::unsigned_at(json::json_contents(*self.config), path) {
            Some(n) => if n <= u32::MAX {
                Some(n as u32)
            } else {
                None
            },
            None => None,
        }
    }

    /// The configuration's number under a name.
    pub open spec fn number(self, name: Seq<char>) -> Option<u32> {
        self.number_at(seq![name])
    }

    pub open spec fn model_type(self) -> Option<Seq<char>> {
        json::text_at(json::json_contents(*self.config), seq!["model_type"@])
    }

    pub open spec fn vocabulary_id(self, token: Seq<char>) -> Result<TokenId, RegistryErrorView> {
        match self.tokenizer.id_of(token) {
            Some(id) => Ok(id as TokenId),
            None => Err(RegistryErrorView::TokenNotFound { token }),
        }
    }

    /// The number at a path of the configuration.
    pub fn config_u32(&self, path: &[&str]) -> (r: Option<u32>)
        ensures
            r == self.number_at(names(path@)),
    {
        let mut current: &Value = self.config;
        let mut i: usize = 0;
        let ghost root = json::json_contents(*self.config);
        let ghost all = names(path@);
        proof {
            assert(json::json_contents(*current) =~= from_path(root, all.take(0))) by {
                assert forall|p: Seq<Seq<char>>| all.take(0) + p =~= p by {}
            }
        }
        while i < path.len()
            invariant
                i <= path.len(),
                all == names(path@),
                root == json::json_contents(*self.config),
                json::json_contents(*current) == from_path(root, all.take(i as int)),
            decreases path.len() - i,
        {
            let ghost here = json::json_contents(*current);
            let ghost done = all.take(i as int);
            let ghost key = path@[i as int]@;
            proof {
                assert(all.take(i + 1) =~= done.push(key));
            }
            match member(current, path[i]) {
                Some(next) => {
                    proof {
                        assert forall|p: Seq<Seq<char>>| done + (seq![key] + p) =~= done.push(key)
                            + p by {}
                        assert(json::below(here, key) =~= from_path(root, done.push(key)));
                    }
                    current = next;
                },
                None => {
                    proof {
                        let rest = all.skip(i + 1);
                        assert(all =~= done + (seq![key] + rest));
                        assert(!here.contains_key(seq![key] + rest));
                    }
                    return None;
                },
            }
            i = i + 1;
        }
        proof {
            assert(all.take(all.len() as int) =~= all);
            assert(all + Seq::<Seq<char>>::empty() =~= all);
        }
        match as_unsigned(current) {
            Some(n) => if n <= u32::MAX as u64 {
                Some(n as u32)
            } else {
                None
            },
            None => None,
        }
    }

    /// The number under a name of the configuration.
    pub fn config_field(&self, name: &str) -> (r: Option<u32>)
        ensures
            r == self.number(name@),
    {
        let path: [&str; 1] = [name];
        proof {
            assert(names(path@) =~= seq![name@]);
        }
        self.config_u32(&path)
    }

    /// The number under a name within a section of the configuration.
    pub fn config_field_in(&self, section: &str, name: &str) -> (r: Option<u32>)
        ensures
            r == self.number_at(seq![section@, name@]),
    {
        let path: [&str; 2] = [section, name];
        proof {
            assert(names(path@) =~= seq![section@, name@]);
        }
        self.config_u32(&path)
    }

    /// The configuration's `model_type`.
    pub fn config_model_type(&self) -> (r: Option<&'a str>)
        ensures
            r is Some == self.model_type() is Some,
            r matches Some(s) ==> self.model_type() == Some(s@),
    {
        proof {
            assert(seq!["model_type"@] + Seq::<Seq<char>>::empty() =~= seq!["model_type"@]);
        }
        match member(self.config, "model_type") {
            Some(value) => as_text(value),
            None => None,
        }
    }

    /// The vocabulary's id of a token.
    pub fn token_id(&self, token: &str) -> (r: RegistryResult<TokenId>)
        ensures
            viewed(r) == self.vocabulary_id(token@),
    {
        match self.tokenizer.token_to_id(token) {
            Some(id) => Ok(id as TokenId),
            None => Err(ModelRegistryError::TokenNotFound { token: token.to_owned() }),
        }
    }
}

/// The part of a document below a path.
spec fn from_path(
    contents: Map<Seq<Seq<char>>, json::JsonKind>,
    path: Seq<Seq<char>>,
) -> Map<Seq<Seq<char>>, json::JsonKind> {
    Map::new(
        |p: Seq<Seq<char>>| contents.contains_key(path + p),
        |p: Seq<Seq<char>>| contents[path + p],
    )
}

/// The error for media that a model family takes none of.
pub open spec fn unsupported(spec: Seq<char>, modality: Modality) -> RegistryErrorView {
    RegistryErrorView::UnsupportedModality { spec, modality }
}

/// The token ids of a text, or the error of the family that asks for them.
pub open spec fn text_ids<T: Tokenizer>(
    tokenizer: T,
    spec: Seq<char>,
    text: Seq<char>,
) -> Result<Seq<TokenId>, RegistryErrorView> {
    match tokenizer.encoding_of(text) {
        Some(ids) => Ok(as_token_ids(ids)),
        None => Err(RegistryErrorView::TextEncodingFailed { spec, text }),
    }
}

/// Ids as a prompt holds them.
pub fn to_token_ids(ids: &Vec<u32>) -> (r: Vec<TokenId>)
    ensures
        r@ == as_token_ids(ids@),
{
    let mut r: Vec<TokenId> = Vec::new();
    let mut i: usize = 0;
    while i < ids.len()
        invariant
            i <= ids.len(),
            r@ =~= as_token_ids(ids@).take(i as int),
        decreases ids.len() - i,
    {
        r.push(ids[i] as TokenId);
        i = i + 1;
    }
    r
}

/// The token ids of a text; `spec` is the family that an error names.
pub fn encode_for<T: Tokenizer>(tokenizer: &T, spec: &'static str, text: &str) -> (r:
    RegistryResult<Vec<TokenId>>)
    ensures
        viewed(r) == text_ids(*tokenizer, spec@, text@),
{
    match tokenizer.encode_text(text) {
        Some(ids) => Ok(to_token_ids(&ids)),
        None => Err(ModelRegistryError::TextEncodingFailed { spec, text: text.to_owned() }),
    }
}

/// What a model family says of its checkpoints.
pub trait ModelProcessorSpec {
    /// The family's name.
    spec fn family(&self) -> Seq<char>;

    fn name(&self) -> (name: &'static str)
        ensures
            name@ == self.family(),
    ;

    /// Whether a checkpoint belongs to the family.
    fn matches<T: Tokenizer>(&self, metadata: &ModelMetadata<T>) -> bool;

    /// The placeholder of an image.
    fn placeholder_token<T: Tokenizer>(&self, metadata: &ModelMetadata<T>) -> RegistryResult<
        String,
    >;

    /// The id of an image's placeholder.
    fn placeholder_token_id<T: Tokenizer>(&self, metadata: &ModelMetadata<T>) -> RegistryResult<
        TokenId,
    >;

    /// The placeholder of a media item. No family takes audio.
    fn placeholder_token_for<T: Tokenizer>(
        &self,
        metadata: &ModelMetadata<T>,
        modality: Modality,
    ) -> (r: RegistryResult<String>)
        ensures
            modality == Modality::Audio ==> viewed(r) == Err::<Seq<char>, RegistryErrorView>(
                unsupported(self.family(), modality),
            ),
    ;

    /// The id of a media item's placeholder. No family takes audio.
    fn placeholder_token_id_for<T: Tokenizer>(
        &self,
        metadata: &ModelMetadata<T>,
        modality: Modality,
    ) -> (r: RegistryResult<TokenId>)
        ensures
            modality == Modality::Audio ==> viewed(r) == Err::<TokenId, RegistryErrorView>(
                unsupported(self.family(), modality),
            ),
    ;

    /// How many media items a request may hold. No family advertises audio.
    fn modality_limits<T: Tokenizer>(&self, metadata: &ModelMetadata<T>) -> (r: RegistryResult<
        ModalityLimits,
    >)
        ensures
            r matches Ok(limits) ==> limits.audio is None,
    ;

    /// Arguments for the processor.
    fn processor_kwargs<T: Tokenizer>(&self, metadata: &ModelMetadata<T>) -> RegistryResult<Value>;

    /// How videos are sampled.
    fn video_fetch_config(
        &self,
        video_preprocessor_config: Option<&PreProcessorConfig>,
    ) -> VideoFetchConfig;

    /// What the placeholders of images are replaced by.
    fn prompt_replacements<T: Tokenizer>(
        &self,
        metadata: &ModelMetadata<T>,
        preprocessed: &PreprocessedEncoderInputs,
    ) -> (r: RegistryResult<Vec<PromptReplacement>>)
        ensures
            r matches Ok(replacements) ==> replacements@.len()
                == preprocessed.feature_token_counts@.len(),
            r matches Ok(replacements) ==> all_of(replacements@, Modality::Image),
    ;

    /// What the placeholders of media items are replaced by: one replacement per
    /// item, of its modality. No family takes audio.
    fn prompt_replacements_for<T: Tokenizer>(
        &self,
        metadata: &ModelMetadata<T>,
        preprocessed: &PreprocessedEncoderInputs,
        modality: Modality,
    ) -> (r: RegistryResult<Vec<PromptReplacement>>)
        ensures
            modality == Modality::Audio ==> replacements_viewed(r) == Err::<
                Seq<PromptReplacementView>,
                RegistryErrorView,
            >(unsupported(self.family(), modality)),
            r matches Ok(replacements) ==> replacements@.len()
                == preprocessed.feature_token_counts@.len(),
            r matches Ok(replacements) ==> all_of(replacements@, modality),
    ;

    /// How each tensor is laid out.
    fn field_layouts(&self) -> StringHashMap<FieldLayout>;

    /// The tensors that stay in main memory: the grids.
    fn keep_on_cpu_keys(&self) -> (keys: Vec<String>)
        ensures
            key_views(keys@) == seq!["image_grid_thw"@, "video_grid_thw"@],
    ;
}

/// What keys say.
pub open spec fn key_views(keys: Seq<String>) -> Seq<Seq<char>> {
    Seq::new(keys.len(), |i: int| keys[i]@)
}

/// The grids' names.
pub fn grid_keys() -> (keys: Vec<String>)
    ensures
        key_views(keys@) == seq!["image_grid_thw"@, "video_grid_thw"@],
{
    let mut keys: Vec<String> = Vec::new();
    keys.push("image_grid_thw".to_owned());
    keys.push("video_grid_thw".to_owned());
    proof {
        assert(key_views(keys@) =~= seq!["image_grid_thw"@, "video_grid_thw"@]);
    }
    keys
}

/// What layouts say.
pub open spec fn layouts(map: Map<Seq<char>, FieldLayout>) -> Map<Seq<char>, FieldLayoutView> {
    map.map_values(|layout: FieldLayout| layout@)
}

/// One more tensor's layout.
pub fn with_layout(map: StringHashMap<FieldLayout>, key: &str, layout: FieldLayout) -> (r:
    StringHashMap<FieldLayout>)
    ensures
        layouts(r@) == layouts(map@).insert(key@, layout@),
{
    let mut r = map;
    r.insert(key.to_owned(), layout);
    proof {
        assert(layouts(r@) =~= layouts(map@).insert(key@, layout@));
    }
    r
}

/// No layouts.
pub fn no_layouts() -> (r: StringHashMap<FieldLayout>)
    ensures
        layouts(r@) == Map::<Seq<char>, FieldLayoutView>::empty(),
{
    let r: StringHashMap<FieldLayout> = StringHashMap::new();
    proof {
        assert(layouts(r@) =~= Map::<Seq<char>, FieldLayoutView>::empty());
    }
    r
}

} // verus!
