//! What is read of a checkpoint, and what results say.
use crate::json;
use crate::registry;
use crate::registry::{
    ModelMetadata, ModelRegistryError, RegistryErrorView, RegistryResult, Tokenizer,
};
use crate::types::{
    FieldLayout, FieldLayoutView, Modality, ModalityLimits, PromptReplacement, TokenId,
};
use crate::vision::PreProcessorConfig;
use vstd::prelude::*;

verus! {

/// Law: a number of the configuration is the unsigned integer at its path, where
/// there is one that fits 32 bits.
pub proof fn law_configuration_numbers_are_what_stands_there<T: Tokenizer>(
    metadata: ModelMetadata<T>,
    path: Seq<Seq<char>>,
    n: u32,
)
    ensures
        metadata.number_at(path) == Some(n) <==> {
            &&& json::json_contents(*metadata.config).contains_key(path)
            &&& json::json_contents(*metadata.config)[path] == json::JsonKind::Unsigned(n as u64)
        },
{
}

/// Law: a number under a name is the number at the path of that name alone, and
/// the model type the string at its path.
pub proof fn law_names_are_paths<T: Tokenizer>(
    metadata: ModelMetadata<T>,
    name: Seq<char>,
    text: Seq<char>,
)
    ensures
        metadata.number(name) == metadata.number_at(seq![name]),
        metadata.model_type() == Some(text) <==> {
            &&& json::json_contents(*metadata.config).contains_key(seq!["model_type"@])
            &&& json::json_contents(*metadata.config)[seq!["model_type"@]] == json::JsonKind::Text(
                text,
            )
        },
{
}

/// Law: the vocabulary's id of a token is the tokenizer's, and a token that the
/// tokenizer lacks is named in the error.
pub proof fn law_vocabulary_ids_are_the_tokenizers<T: Tokenizer>(
    metadata: ModelMetadata<T>,
    token: Seq<char>,
)
    ensures
        metadata.tokenizer.id_of(token) matches Some(id) ==> metadata.vocabulary_id(token) == Ok::<
            TokenId,
            RegistryErrorView,
        >(id as TokenId),
        metadata.tokenizer.id_of(token) is None ==> metadata.vocabulary_id(token) == Err::<
            TokenId,
            RegistryErrorView,
        >(RegistryErrorView::TokenNotFound { token }),
{
}

/// Law: the ids of a text are the tokenizer's, in its order; a text that it cannot
/// encode is named in the error, with the family that asked.
pub proof fn law_text_ids_are_the_tokenizers<T: Tokenizer>(
    tokenizer: T,
    spec: Seq<char>,
    text: Seq<char>,
)
    ensures
        tokenizer.encoding_of(text) matches Some(ids) ==> {
            &&& registry::text_ids(tokenizer, spec, text) is Ok
            &&& registry::text_ids(tokenizer, spec, text)->Ok_0.len() == ids.len()
            &&& forall|i: int|
                0 <= i < ids.len() ==> #[trigger] registry::text_ids(tokenizer, spec, text)->Ok_0[i]
                    == ids[i] as TokenId
        },
        tokenizer.encoding_of(text) is None ==> registry::text_ids(tokenizer, spec, text) == Err::<
            Seq<TokenId>,
            RegistryErrorView,
        >(RegistryErrorView::TextEncodingFailed { spec, text }),
{
}

/// Law: a replacement says just what it holds.
pub proof fn law_replacements_say_what_they_hold(r: PromptReplacement)
    ensures
        r@.modality == r.modality,
        r@.placeholder_token == r.placeholder_token@,
        r@.tokens == r.tokens@,
        r@.structural_prefix == r.structural_prefix,
        r@.feature_ranges is Some <==> r.feature_ranges is Some,
        r.feature_ranges matches Some(ranges) ==> r@.feature_ranges->Some_0 == ranges@,
{
}

/// Law: a request's result says what each of its replacements does, in order, or
/// what its error does.
pub proof fn law_results_say_what_they_hold(r: RegistryResult<Vec<PromptReplacement>>)
    ensures
        r matches Ok(all) ==> {
            &&& registry::replacements_viewed(r) is Ok
            &&& registry::replacements_viewed(r)->Ok_0.len() == all@.len()
            &&& forall|i: int|
                0 <= i < all@.len() ==> #[trigger] registry::replacements_viewed(r)->Ok_0[i]
                    == all@[i]@
        },
        r matches Err(e) ==> registry::replacements_viewed(r) is Err
            && registry::replacements_viewed(r)->Err_0 == e@,
{
}

/// Law: any other result says what its value or its error does.
pub proof fn law_values_say_what_they_hold<T: View>(r: RegistryResult<T>)
    ensures
        r matches Ok(v) ==> registry::viewed(r) is Ok && registry::viewed(r)->Ok_0 == v@,
        r matches Err(e) ==> registry::viewed(r) is Err && registry::viewed(r)->Err_0 == e@,
{
}

/// Law: an error says its kind and what it names.
pub proof fn law_errors_say_what_they_name(e: ModelRegistryError)
    ensures
        match e {
            ModelRegistryError::MissingConfigField { field } => e@
                == (RegistryErrorView::MissingConfigField { field: field@ }),
            ModelRegistryError::TokenNotFound { token } => e@ == (RegistryErrorView::TokenNotFound {
                token: token@,
            }),
            ModelRegistryError::TextEncodingFailed { spec, text } => e@
                == (RegistryErrorView::TextEncodingFailed { spec: spec@, text: text@ }),
            ModelRegistryError::InvalidPreprocessedField { field } => e@
                == (RegistryErrorView::InvalidPreprocessedField { field: field@ }),
            ModelRegistryError::UnsupportedModality { spec, modality } => e@
                == (RegistryErrorView::UnsupportedModality { spec: spec@, modality }),
        },
{
}

/// Law: the limit on a modality is that modality's own.
pub proof fn law_limits_are_kept_apart(limits: ModalityLimits)
    ensures
        limits.limit(Modality::Image) == limits.image,
        limits.limit(Modality::Audio) == limits.audio,
        limits.limit(Modality::Video) == limits.video,
{
}

/// Law: a layout says its kind, and a flat one where its sizes stand.
pub proof fn law_layouts_say_their_kind(map: Map<Seq<char>, FieldLayout>, key: Seq<char>)
    ensures
        registry::layouts(map).contains_key(key) <==> map.contains_key(key),
        map.contains_key(key) ==> match map[key] {
            FieldLayout::Batched => registry::layouts(map)[key] == FieldLayoutView::Batched,
            FieldLayout::Flat { sizes_key } => registry::layouts(map)[key]
                == (FieldLayoutView::Flat { sizes_key: sizes_key@ }),
        },
{
}

/// Law: a further field of a preprocessor configuration is read as what it was
/// given as, and is absent where it was not given.
pub proof fn law_extra_fields_are_read_as_given(config: PreProcessorConfig, key: Seq<char>)
    ensures
        config.extra@.contains_key(key) ==> {
            &&& config.count_at(key) == config.extra@[key].as_count
            &&& config.single_at(key) == config.extra@[key].as_single
            &&& config.double_at(key) == config.extra@[key].as_double
        },
        !config.extra@.contains_key(key) ==> {
            &&& config.count_at(key) is None
            &&& config.single_at(key) is None
            &&& config.double_at(key) is None
        },
{
}

} // verus!
