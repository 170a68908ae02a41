//! What a GLM-5.3-Flash checkpoint is answered, told from what it declares and
//! what was handed over.
use crate::encoder_inputs;
use crate::encoder_inputs::PreprocessedEncoderInputs;
use crate::float::binary32::Binary32;
use crate::float::binary64::Binary64;
use crate::float::display;
use crate::float::value;
use crate::media::{VideoFetchConfig, TWO_BITS};
use crate::registry;
use crate::registry::glm53_flash;
use crate::registry::laws;
use crate::registry::{ModelMetadata, RegistryErrorView, Tokenizer};
use crate::text;
use crate::types::{FieldLayoutView, Modality, PromptReplacementView, TokenId};
use crate::video_sampling::VideoSamplingStrategy;
use crate::vision::PreProcessorConfig;
use vstd::prelude::*;

verus! {

/// Law: every image of a GLM request is replaced by its features, as many as it
/// has, each the declared image id; without a declared id the request is refused
/// and the field is named.
pub proof fn law_images_become_their_features<T: Tokenizer>(
    metadata: ModelMetadata<T>,
    input: PreprocessedEncoderInputs,
)
    ensures
        ({
            let r = glm53_flash::image_replacements(metadata, input);
            let counts = input.feature_token_counts@;
            let declared = metadata.number("image_token_id"@);
            &&& declared is None ==> r == Err::<Seq<PromptReplacementView>, RegistryErrorView>(
                RegistryErrorView::MissingConfigField { field: "image_token_id"@ },
            )
            &&& declared is Some ==> r is Ok && r->Ok_0.len() == counts.len()
            &&& forall|i: int|
                declared is Some && 0 <= i < counts.len() ==> {
                    &&& (#[trigger] r->Ok_0[i]).modality == Modality::Image
                    &&& r->Ok_0[i].placeholder_token == "<|image|>"@
                    &&& r->Ok_0[i].tokens == laws::run(
                        declared->Some_0 as TokenId,
                        counts[i] as int,
                    )
                    &&& r->Ok_0[i].structural_prefix == 0
                    &&& r->Ok_0[i].feature_ranges is None
                }
        }),
{
    let counts = input.feature_token_counts@;
    if let Some(id) = metadata.number("image_token_id"@) {
        assert forall|i: int| 0 <= i < counts.len() implies #[trigger] glm53_flash::image_replacements(
            metadata,
            input,
        )->Ok_0[i].tokens == laws::run(id as TokenId, counts[i] as int) by {
            laws::lemma_run(id as TokenId, counts[i] as nat);
        }
    }
}

/// Law: the depths of a request's videos are the first entries of the grid's rows,
/// one row of three to a video. Any other grid, or none, is refused and named.
pub proof fn law_depths_are_the_first_entries(input: PreprocessedEncoderInputs)
    ensures
        ({
            let r = glm53_flash::grid_depths(input);
            let grid = input.integers_at("video_grid_thw"@);
            let data = grid->Some_0.0;
            let shape = grid->Some_0.1;
            &&& r is Ok <==> {
                &&& grid is Some
                &&& shape.len() == 2
                &&& shape[1] == 3
                &&& data.len() == 3 * shape[0]
                &&& forall|row: int|
                    0 <= row < shape[0] ==> 0 <= #[trigger] data[row * 3] <= usize::MAX
            }
            &&& r is Ok ==> r->Ok_0.len() == shape[0]
            &&& r is Ok ==> forall|row: int|
                0 <= row < shape[0] ==> #[trigger] r->Ok_0[row] == data[row * 3]
            &&& r is Err ==> r->Err_0 == (RegistryErrorView::InvalidPreprocessedField {
                field: "video_grid_thw"@,
            })
        }),
{
    if let Some((data, shape)) = input.integers_at("video_grid_thw"@) {
        let r = glm53_flash::grid_depths(input);
        if r is Ok {
            assert forall|row: int| 0 <= row < shape[0] implies 0 <= #[trigger] data[row * 3]
                <= usize::MAX by {
                assert(encoder_inputs::as_count(data[row * 3]) is Some);
            }
            assert forall|row: int| 0 <= row < shape[0] implies #[trigger] r->Ok_0[row]
                == data[row * 3] by {
                assert(encoder_inputs::as_count(data[row * 3]) is Some);
            }
        } else if shape.len() == 2 && shape[1] == 3 && data.len() == 3 * shape[0] {
            let row = choose|row: int|
                0 <= row < shape[0] && encoder_inputs::as_count(#[trigger] data[row * 3])
                    is None;
            let entry = data[row * 3];
            assert(!(0 <= entry <= usize::MAX));
        }
    }
}

/// The caption of temporal frame `i`: its number times the seconds between
/// frames, in single precision, to one decimal.
pub open spec fn time_text(seconds: Binary32, i: int) -> Seq<char> {
    display::one_decimal(value::single().times(value::single().from_int(i), seconds@))
        + " seconds"@
}

/// A temporal frame: its features between the image markers, then its caption.
pub open spec fn frame(
    begin: u32,
    feature: u32,
    end: u32,
    per_frame: int,
    ids: Seq<TokenId>,
) -> Seq<TokenId> {
    seq![begin as TokenId] + laws::run(feature as TokenId, per_frame) + seq![end as TokenId] + ids
}

/// A video's replacement is laid out frame by frame; each range is a frame's
/// features.
pub open spec fn is_laid_out(
    item: PromptReplacementView,
    frames: Seq<Seq<TokenId>>,
    per_frame: int,
) -> bool {
    &&& item.modality == Modality::Video
    &&& item.placeholder_token == "<|video|>"@
    &&& item.structural_prefix == 0
    &&& item.tokens == frames.flatten()
    &&& item.feature_ranges is Some
    &&& item.feature_ranges->Some_0.len() == frames.len()
    &&& forall|i: int|
        0 <= i < frames.len() ==> {
            &&& (#[trigger] item.feature_ranges->Some_0[i]).length == per_frame
            &&& item.feature_ranges->Some_0[i].offset == frames.take(i).flatten().len() + 1
        }
}

/// What a GLM checkpoint needs to serve videos, and what was handed over with
/// them, one grid row to a video.
pub open spec fn can_serve<T: Tokenizer>(
    metadata: ModelMetadata<T>,
    input: PreprocessedEncoderInputs,
    begin: u32,
    feature: u32,
    end: u32,
    seconds: Binary32,
) -> bool {
    &&& metadata.number("image_token_id"@) == Some(feature)
    &&& metadata.tokenizer.id_of("<|begin_of_image|>"@) == Some(begin)
    &&& metadata.tokenizer.id_of("<|end_of_image|>"@) == Some(end)
    &&& input.first_number_at("video_second_per_grid"@) == Some(seconds)
    &&& glm53_flash::grid_depths(input) is Ok
    &&& glm53_flash::grid_depths(input)->Ok_0.len() == input.feature_token_counts@.len()
}

proof fn lemma_frames<T: Tokenizer>(
    metadata: ModelMetadata<T>,
    begin: u32,
    feature: u32,
    end: u32,
    seconds: Binary32,
    count: usize,
    depth: usize,
    ids: Seq<Seq<TokenId>>,
)
    requires
        depth > 0,
        count % depth == 0,
        ids.len() == depth,
        forall|i: int|
            0 <= i < depth ==> {
                let encoding = metadata.tokenizer.encoding_of(#[trigger] time_text(seconds, i));
                encoding is Some && ids[i] == laws::in_prompt(encoding->Some_0)
            },
        Seq::new(
            depth as nat,
            |i: int| frame(begin, feature, end, (count / depth) as int, ids[i]),
        ).flatten().len() <= usize::MAX,
    ensures
        ({
            let r = glm53_flash::framed(
                metadata,
                begin as TokenId,
                feature as TokenId,
                end as TokenId,
                seconds@,
                count,
                depth,
            );
            let per_frame = (count / depth) as int;
            &&& r is Ok
            &&& is_laid_out(
                r->Ok_0,
                Seq::new(depth as nat, |i: int| frame(begin, feature, end, per_frame, ids[i])),
                per_frame,
            )
        }),
{
    let per_frame = count / depth;
    let f = glm53_flash::frame_block(
        metadata,
        begin as TokenId,
        feature as TokenId,
        per_frame as nat,
        end as TokenId,
        seconds@,
    );
    let frames = Seq::new(
        depth as nat,
        |i: int| frame(begin, feature, end, per_frame as int, ids[i]),
    );
    laws::lemma_run(feature as TokenId, per_frame as nat);
    assert forall|i: int| 0 <= i < depth implies (#[trigger] f(i)) == Ok::<
        Seq<TokenId>,
        RegistryErrorView,
    >(frames[i]) by {
        let text = time_text(seconds, i);
        assert(metadata.tokenizer.encoding_of(text) is Some);
        laws::lemma_in_prompt(metadata.tokenizer.encoding_of(text)->Some_0);
        assert(text == glm53_flash::timestamp(glm53_flash::frame_seconds(seconds@, i)));
    }
    laws::lemma_collected_ok(f, depth as nat);
    let blocks = registry::collected(f, depth as nat)->Ok_0;
    laws::lemma_collected(f, depth as nat, blocks);
    assert forall|i: int| 0 <= i < depth implies #[trigger] blocks[i] == frames[i] by {
        assert(f(i) == Ok::<Seq<TokenId>, RegistryErrorView>(blocks[i]));
    }
    assert(blocks =~= frames);
    laws::lemma_joined_is_flatten(blocks);
    let ranges = glm53_flash::frame_ranges(blocks, per_frame);
    assert forall|i: int| 0 <= i < depth implies (#[trigger] ranges[i]).offset == frames.take(
        i,
    ).flatten().len() + 1 && ranges[i].length == per_frame by {
        laws::lemma_joined(blocks, i);
        laws::lemma_joined_is_flatten(blocks.take(i));
    }
}

/// Law: video `k` of a GLM request that is served is laid out by its own depth and
/// its own features: each frame its even share of them between the markers, then
/// its caption.
pub proof fn law_videos_are_laid_out_by_frame<T: Tokenizer>(
    metadata: ModelMetadata<T>,
    input: PreprocessedEncoderInputs,
    begin: u32,
    feature: u32,
    end: u32,
    seconds: Binary32,
    all: Seq<PromptReplacementView>,
    k: int,
    ids: Seq<Seq<TokenId>>,
)
    requires
        can_serve(metadata, input, begin, feature, end, seconds),
        glm53_flash::video_replacements(metadata, input) == Ok::<
            Seq<PromptReplacementView>,
            RegistryErrorView,
        >(all),
        0 <= k < input.feature_token_counts@.len(),
        ids.len() == glm53_flash::grid_depths(input)->Ok_0[k],
        forall|i: int|
            0 <= i < ids.len() ==> {
                let encoding = metadata.tokenizer.encoding_of(#[trigger] time_text(seconds, i));
                encoding is Some && ids[i] == laws::in_prompt(encoding->Some_0)
            },
        Seq::new(
            ids.len(),
            |i: int|
                frame(
                    begin,
                    feature,
                    end,
                    input.feature_token_counts@[k] as int / ids.len() as int,
                    ids[i],
                ),
        ).flatten().len() <= usize::MAX,
    ensures
        all.len() == input.feature_token_counts@.len(),
        ids.len() > 0,
        input.feature_token_counts@[k] as int % ids.len() as int == 0,
        ({
            let per_frame = input.feature_token_counts@[k] as int / ids.len() as int;
            is_laid_out(
                all[k],
                Seq::new(ids.len(), |i: int| frame(begin, feature, end, per_frame, ids[i])),
                per_frame,
            )
        }),
{
    let counts = input.feature_token_counts@;
    let grids = glm53_flash::grid_depths(input)->Ok_0;
    let f = glm53_flash::video_item(
        metadata,
        begin as TokenId,
        feature as TokenId,
        end as TokenId,
        seconds@,
        counts,
        grids,
    );
    laws::lemma_collected(f, counts.len(), all);
    assert(f(k) == Ok::<PromptReplacementView, RegistryErrorView>(all[k]));
    lemma_frames(metadata, begin, feature, end, seconds, counts[k], grids[k], ids);
}

/// Every frame of a video of `depth` frames has a caption that can be encoded.
pub open spec fn has_captions<T: Tokenizer>(
    metadata: ModelMetadata<T>,
    seconds: Binary32,
    depth: usize,
) -> bool {
    forall|i: int|
        0 <= i < depth ==> metadata.tokenizer.encoding_of(#[trigger] time_text(seconds, i)) is Some
}

/// Video `k` can be laid out: it has frames, its features divide evenly among
/// them, and their captions can be encoded.
pub open spec fn can_be_laid_out<T: Tokenizer>(
    metadata: ModelMetadata<T>,
    input: PreprocessedEncoderInputs,
    seconds: Binary32,
    k: int,
) -> bool {
    let depth = glm53_flash::grid_depths(input)->Ok_0[k];
    &&& depth > 0
    &&& input.feature_token_counts@[k] % depth == 0
    &&& has_captions(metadata, seconds, depth)
}

proof fn lemma_when_frames<T: Tokenizer>(
    metadata: ModelMetadata<T>,
    begin: u32,
    feature: u32,
    end: u32,
    seconds: Binary32,
    count: usize,
    depth: usize,
)
    requires
        depth > 0,
        count % depth == 0,
    ensures
        glm53_flash::framed(
            metadata,
            begin as TokenId,
            feature as TokenId,
            end as TokenId,
            seconds@,
            count,
            depth,
        ) is Ok <==> has_captions(metadata, seconds, depth),
{
    let f = glm53_flash::frame_block(
        metadata,
        begin as TokenId,
        feature as TokenId,
        (count / depth) as nat,
        end as TokenId,
        seconds@,
    );
    assert forall|i: int| #![trigger f(i)] #![trigger time_text(seconds, i)] f(i) is Ok
        <==> metadata.tokenizer.encoding_of(time_text(seconds, i)) is Some by {
        assert(time_text(seconds, i) == glm53_flash::timestamp(
            glm53_flash::frame_seconds(seconds@, i),
        ));
    }
    if registry::collected(f, depth as nat) is Ok {
        let blocks = registry::collected(f, depth as nat)->Ok_0;
        laws::lemma_collected(f, depth as nat, blocks);
        assert forall|i: int| 0 <= i < depth implies metadata.tokenizer.encoding_of(
            #[trigger] time_text(seconds, i),
        ) is Some by {
            assert(f(i) == Ok::<Seq<TokenId>, RegistryErrorView>(blocks[i]));
        }
    } else {
        laws::lemma_collected_error(f, depth as nat);
        let i = choose|i: int|
            0 <= i < depth && (#[trigger] f(i)) is Err && f(i)->Err_0 == registry::collected(
                f,
                depth as nat,
            )->Err_0;
        assert(metadata.tokenizer.encoding_of(time_text(seconds, i)) is None);
    }
}

/// Law: where the checkpoint has what it needs, a request of videos is served if
/// and only if each of them can be laid out.
pub proof fn law_videos_are_served_where_each_can_be<T: Tokenizer>(
    metadata: ModelMetadata<T>,
    input: PreprocessedEncoderInputs,
    begin: u32,
    feature: u32,
    end: u32,
    seconds: Binary32,
)
    requires
        can_serve(metadata, input, begin, feature, end, seconds),
    ensures
        glm53_flash::video_replacements(metadata, input) is Ok <==> forall|k: int|
            0 <= k < input.feature_token_counts@.len() ==> #[trigger] can_be_laid_out(
                metadata,
                input,
                seconds,
                k,
            ),
{
    let counts = input.feature_token_counts@;
    let grids = glm53_flash::grid_depths(input)->Ok_0;
    let f = glm53_flash::video_item(
        metadata,
        begin as TokenId,
        feature as TokenId,
        end as TokenId,
        seconds@,
        counts,
        grids,
    );
    assert forall|k: int|
        #![trigger f(k)]
        #![trigger can_be_laid_out(metadata, input, seconds, k)]
        0 <= k < counts.len() implies (f(k) is Ok <==> can_be_laid_out(
        metadata,
        input,
        seconds,
        k,
    )) by {
        if grids[k] > 0 && counts[k] % grids[k] == 0 {
            lemma_when_frames(metadata, begin, feature, end, seconds, counts[k], grids[k]);
        }
    }
    if registry::collected(f, counts.len()) is Ok {
        let all = registry::collected(f, counts.len())->Ok_0;
        laws::lemma_collected(f, counts.len(), all);
        assert forall|k: int| 0 <= k < counts.len() implies #[trigger] can_be_laid_out(
            metadata,
            input,
            seconds,
            k,
        ) by {
            assert(f(k) == Ok::<PromptReplacementView, RegistryErrorView>(all[k]));
        }
    } else {
        laws::lemma_collected_error(f, counts.len());
        let k = choose|k: int|
            0 <= k < counts.len() && (#[trigger] f(k)) is Err && f(k)->Err_0
                == registry::collected(f, counts.len())->Err_0;
        assert(!can_be_laid_out(metadata, input, seconds, k));
    }
}

/// Law: the first video that cannot be laid out decides how the request is
/// refused: by its layout where its features do not divide among its frames, else
/// by its first caption that cannot be encoded.
pub proof fn law_first_video_that_fails_decides<T: Tokenizer>(
    metadata: ModelMetadata<T>,
    input: PreprocessedEncoderInputs,
    begin: u32,
    feature: u32,
    end: u32,
    seconds: Binary32,
    k: int,
    i: int,
)
    requires
        can_serve(metadata, input, begin, feature, end, seconds),
        0 <= k < input.feature_token_counts@.len(),
        forall|j: int|
            0 <= j < k ==> #[trigger] can_be_laid_out(metadata, input, seconds, j),
    ensures
        ({
            let r = glm53_flash::video_replacements(metadata, input);
            let depth = glm53_flash::grid_depths(input)->Ok_0[k];
            let divides = depth > 0 && input.feature_token_counts@[k] % depth == 0;
            let first = 0 <= i < depth && metadata.tokenizer.encoding_of(time_text(seconds, i))
                is None && forall|j: int|
                0 <= j < i ==> metadata.tokenizer.encoding_of(#[trigger] time_text(seconds, j))
                    is Some;
            &&& !divides ==> r == Err::<Seq<PromptReplacementView>, RegistryErrorView>(
                RegistryErrorView::InvalidPreprocessedField {
                    field: "video_grid_thw temporal token layout"@,
                },
            )
            &&& divides && first ==> r == Err::<Seq<PromptReplacementView>, RegistryErrorView>(
                RegistryErrorView::TextEncodingFailed {
                    spec: "glm53_flash"@,
                    text: time_text(seconds, i),
                },
            )
        }),
{
    let counts = input.feature_token_counts@;
    let grids = glm53_flash::grid_depths(input)->Ok_0;
    let f = glm53_flash::video_item(
        metadata,
        begin as TokenId,
        feature as TokenId,
        end as TokenId,
        seconds@,
        counts,
        grids,
    );
    let depth = grids[k];
    let divides = depth > 0 && counts[k] % depth == 0;
    assert forall|j: int| 0 <= j < k implies (#[trigger] f(j)) is Ok by {
        assert(can_be_laid_out(metadata, input, seconds, j));
        lemma_when_frames(metadata, begin, feature, end, seconds, counts[j], grids[j]);
    }
    if !divides {
        laws::lemma_collected_first_error(f, counts.len(), k);
    } else if 0 <= i < depth && metadata.tokenizer.encoding_of(time_text(seconds, i)) is None
        && forall|j: int|
        0 <= j < i ==> metadata.tokenizer.encoding_of(#[trigger] time_text(seconds, j)) is Some {
        let g = glm53_flash::frame_block(
            metadata,
            begin as TokenId,
            feature as TokenId,
            (counts[k] / depth) as nat,
            end as TokenId,
            seconds@,
        );
        assert forall|j: int| 0 <= j <= i implies (#[trigger] g(j)) is Ok
            == metadata.tokenizer.encoding_of(time_text(seconds, j)) is Some by {
            assert(time_text(seconds, j) == glm53_flash::timestamp(
                glm53_flash::frame_seconds(seconds@, j),
            ));
        }
        assert(time_text(seconds, i) == glm53_flash::timestamp(
            glm53_flash::frame_seconds(seconds@, i),
        ));
        laws::lemma_collected_first_error(g, depth as nat, i);
        laws::lemma_collected_first_error(f, counts.len(), k);
    }
}

/// Law: what a request of videos lacks is named. A grid that cannot be read comes
/// first, then one of another number of videos, then what the checkpoint lacks,
/// and last the seconds between frames.
pub proof fn law_what_is_missing_is_named<T: Tokenizer>(
    metadata: ModelMetadata<T>,
    input: PreprocessedEncoderInputs,
)
    ensures
        ({
            let r = glm53_flash::video_replacements(metadata, input);
            let depths = glm53_flash::grid_depths(input);
            let rows = depths is Ok && depths->Ok_0.len() == input.feature_token_counts@.len();
            let declared = rows && metadata.number("image_token_id"@) is Some;
            let opened = declared && metadata.tokenizer.id_of("<|begin_of_image|>"@) is Some;
            let closed = opened && metadata.tokenizer.id_of("<|end_of_image|>"@) is Some;
            &&& depths is Err ==> r is Err && r->Err_0 == depths->Err_0
            &&& depths is Ok && !rows ==> r == Err::<Seq<PromptReplacementView>, RegistryErrorView>(
                RegistryErrorView::InvalidPreprocessedField { field: "video_grid_thw item count"@ },
            )
            &&& rows && !declared ==> r == Err::<Seq<PromptReplacementView>, RegistryErrorView>(
                RegistryErrorView::MissingConfigField { field: "image_token_id"@ },
            )
            &&& declared && !opened ==> r == Err::<Seq<PromptReplacementView>, RegistryErrorView>(
                RegistryErrorView::TokenNotFound { token: "<|begin_of_image|>"@ },
            )
            &&& opened && !closed ==> r == Err::<Seq<PromptReplacementView>, RegistryErrorView>(
                RegistryErrorView::TokenNotFound { token: "<|end_of_image|>"@ },
            )
            &&& closed && input.first_number_at("video_second_per_grid"@) is None ==> r == Err::<
                Seq<PromptReplacementView>,
                RegistryErrorView,
            >(RegistryErrorView::InvalidPreprocessedField { field: "video_second_per_grid"@ })
        }),
{
}

/// Law: images are served where their id is declared, up to ten, and one video
/// where the vocabulary has both markers too; sound never is.
pub proof fn law_what_is_served<T: Tokenizer>(metadata: ModelMetadata<T>)
    ensures
        ({
            let limits = glm53_flash::limits(metadata);
            let declared = metadata.number("image_token_id"@) is Some;
            let marked = metadata.tokenizer.id_of("<|begin_of_image|>"@) is Some
                && metadata.tokenizer.id_of("<|end_of_image|>"@) is Some;
            &&& declared ==> limits.image == Some(10usize)
            &&& !declared ==> limits.image is None
            &&& declared && marked ==> limits.video == Some(1usize)
            &&& !(declared && marked) ==> limits.video is None
            &&& limits.audio is None
        }),
{
}

/// Law: a checkpoint is served as GLM-5.3-Flash by its type, or by a name of that
/// family; and by nothing else.
pub proof fn law_which_checkpoints_are_glm53_flash<T: Tokenizer>(metadata: ModelMetadata<T>)
    ensures
        ({
            let id = text::lowered(metadata.model_id@);
            glm53_flash::is_glm53_flash(metadata) <==> {
                ||| metadata.model_type() == Some("glm53_flash"@)
                ||| metadata.model_type() == Some("glm5_next"@)
                ||| text::contains(id, "glm-5.3-flash"@)
                ||| text::contains(id, "glm5.3-flash"@)
                ||| text::contains(id, "glm-5-next"@)
                ||| text::contains(id, "glm5-next"@)
            }
        }),
{
}

/// Law: a number that the preprocessor's configuration gives is the one that
/// fetching goes by; without it the default stands.
pub proof fn law_fetching_goes_by_the_given_numbers(config: PreProcessorConfig)
    ensures
        ({
            let r = glm53_flash::fetch_config(Some(&config));
            &&& r.min_frames == 1
            &&& config.count_at("max_frames"@) matches Some(n) ==> r.max_frames == n
            &&& config.count_at("max_frames"@) is None ==> r.max_frames == 2048
            &&& config.single_at("fps"@) matches Some(fps) ==> r.sample_fps == fps
            &&& config.single_at("fps"@) is None ==> r.sample_fps.bits == TWO_BITS
            &&& config.double_at("max_duration"@) matches Some(seconds) ==> r.strategy == (
            VideoSamplingStrategy::Glm5Next { max_duration: seconds })
            &&& config.double_at("max_duration"@) is None ==> r.strategy == (
            VideoSamplingStrategy::Glm5Next { max_duration: Binary64 { bits: 0 } })
            &&& r.max_long_side_pixel is None
        }),
        glm53_flash::fetch_config(None) == (VideoFetchConfig {
            min_frames: 1,
            max_frames: 2048,
            sample_fps: Binary32 { bits: TWO_BITS },
            strategy: VideoSamplingStrategy::Glm5Next { max_duration: Binary64 { bits: 0 } },
            max_long_side_pixel: None,
        }),
{
}

/// Law: pixels are laid out patch after patch, with the number of patches beside
/// them; every other tensor has one row per item; and there are no others.
pub proof fn law_pixels_are_flat_and_the_rest_is_not(key: Seq<char>)
    ensures
        glm53_flash::tensor_layouts().contains_key(key) <==> {
            ||| key == "pixel_values"@
            ||| key == "patches_per_image"@
            ||| key == "patches_per_video"@
            ||| key == "image_grid_thw"@
            ||| key == "video_grid_thw"@
            ||| key == "video_second_per_grid"@
        },
        key == "pixel_values"@ ==> glm53_flash::tensor_layouts()[key] == (FieldLayoutView::Flat {
            sizes_key: "patches_per_image"@,
        }),
        glm53_flash::tensor_layouts().contains_key(key) && key != "pixel_values"@
            ==> glm53_flash::tensor_layouts()[key] is Batched,
{
    reveal_strlit("pixel_values");
    reveal_strlit("patches_per_image");
    reveal_strlit("patches_per_video");
    reveal_strlit("image_grid_thw");
    reveal_strlit("video_grid_thw");
    reveal_strlit("video_second_per_grid");
    assert("pixel_values"@.len() == 12);
    assert("patches_per_image"@.len() == 17);
    assert("patches_per_video"@.len() == 17);
    assert("image_grid_thw"@.len() == 14);
    assert("video_grid_thw"@.len() == 14);
    assert("video_second_per_grid"@.len() == 21);
}

} // verus!
