//! What a MiniMax-M3 checkpoint is answered, told from what it declares and what
//! was handed over.
use crate::encoder_inputs::PreprocessedEncoderInputs;
use crate::float::binary32::Binary32;
use crate::float::display;
use crate::float::value::FloatValue;
use crate::media::{VideoFetchConfig, ONE_BITS};
use crate::registry;
use crate::registry::laws;
use crate::registry::minimax_m3;
use crate::registry::{ModelMetadata, RegistryErrorView, Tokenizer};
use crate::text;
use crate::types::{FieldLayoutView, Modality, PlaceholderRange, PromptReplacementView, TokenId};
use crate::video_sampling::VideoSamplingStrategy;
use crate::vision::PreProcessorConfig;
use vstd::prelude::*;

verus! {

/// `id` is a feature's: as the configuration declares it under `field`, else the
/// vocabulary's of `token`.
pub open spec fn is_feature<T: Tokenizer>(
    metadata: ModelMetadata<T>,
    field: Seq<char>,
    token: Seq<char>,
    id: u32,
) -> bool {
    let declared = metadata.number(field);
    &&& declared is Some ==> id == declared->Some_0
    &&& declared is None ==> metadata.tokenizer.id_of(token) == Some(id)
}

/// Law: the features of images and videos carry the declared id, else the
/// vocabulary's; where neither knows one, the token is named.
pub proof fn law_features_carry_the_declared_id<T: Tokenizer>(metadata: ModelMetadata<T>, id: u32)
    ensures
        is_feature(metadata, "image_token_index"@, "]<]image[>["@, id) ==> minimax_m3::image_pad(
            metadata,
        ) == Ok::<TokenId, RegistryErrorView>(id as TokenId),
        is_feature(metadata, "video_token_index"@, "]<]video[>["@, id) ==> minimax_m3::video_pad(
            metadata,
        ) == Ok::<TokenId, RegistryErrorView>(id as TokenId),
        metadata.number("image_token_index"@) is None && metadata.tokenizer.id_of(
            "]<]image[>["@,
        ) is None ==> minimax_m3::image_pad(metadata) == Err::<TokenId, RegistryErrorView>(
            RegistryErrorView::TokenNotFound { token: "]<]image[>["@ },
        ),
        metadata.number("video_token_index"@) is None && metadata.tokenizer.id_of(
            "]<]video[>["@,
        ) is None ==> minimax_m3::video_pad(metadata) == Err::<TokenId, RegistryErrorView>(
            RegistryErrorView::TokenNotFound { token: "]<]video[>["@ },
        ),
{
}

/// One item between its markers: where its features lie and what stands there.
pub open spec fn is_wrapped(
    item: PromptReplacementView,
    modality: Modality,
    placeholder: Seq<char>,
    start: u32,
    pad: u32,
    end: u32,
    count: usize,
) -> bool {
    &&& item.modality == modality
    &&& item.placeholder_token == placeholder
    &&& item.structural_prefix == 0
    &&& item.tokens == seq![start as TokenId] + laws::run(pad as TokenId, count as int)
        + seq![end as TokenId]
    &&& item.feature_ranges == Some(seq![PlaceholderRange { offset: 1, length: count }])
}

proof fn lemma_wrapped<T: Tokenizer>(
    metadata: ModelMetadata<T>,
    modality: Modality,
    placeholder: Seq<char>,
    start: u32,
    pad: u32,
    end: u32,
    count: usize,
)
    requires
        modality == Modality::Image ==> metadata.tokenizer.id_of("]<]start of image[>["@) == Some(
            start,
        ) && metadata.tokenizer.id_of("]<]end of image[>["@) == Some(end),
        modality == Modality::Video ==> metadata.tokenizer.id_of("]<]start of video[>["@) == Some(
            start,
        ) && metadata.tokenizer.id_of("]<]end of video[>["@) == Some(end),
        modality != Modality::Audio,
    ensures
        ({
            let r = minimax_m3::wrapped(metadata, modality, placeholder, pad as TokenId, count);
            r is Ok && is_wrapped(r->Ok_0, modality, placeholder, start, pad, end, count)
        }),
{
    laws::lemma_run(pad as TokenId, count as nat);
}

/// Law: every item is replaced by its features, as many as it has, between the
/// markers of its modality; its one range is the features.
pub proof fn law_items_are_wrapped<T: Tokenizer>(
    metadata: ModelMetadata<T>,
    preprocessed: PreprocessedEncoderInputs,
    modality: Modality,
    placeholder: Seq<char>,
    start: u32,
    pad: u32,
    end: u32,
)
    requires
        modality == Modality::Image ==> metadata.tokenizer.id_of("]<]start of image[>["@) == Some(
            start,
        ) && metadata.tokenizer.id_of("]<]end of image[>["@) == Some(end),
        modality == Modality::Video ==> metadata.tokenizer.id_of("]<]start of video[>["@) == Some(
            start,
        ) && metadata.tokenizer.id_of("]<]end of video[>["@) == Some(end),
        modality != Modality::Audio,
    ensures
        ({
            let counts = preprocessed.feature_token_counts@;
            let r = registry::collected(
                minimax_m3::wrapped_item(
                    metadata,
                    preprocessed,
                    modality,
                    placeholder,
                    pad as TokenId,
                ),
                counts.len(),
            );
            &&& r is Ok
            &&& r->Ok_0.len() == counts.len()
            &&& forall|i: int|
                0 <= i < counts.len() ==> is_wrapped(
                    #[trigger] r->Ok_0[i],
                    modality,
                    placeholder,
                    start,
                    pad,
                    end,
                    counts[i],
                )
        }),
{
    let counts = preprocessed.feature_token_counts@;
    let f = minimax_m3::wrapped_item(metadata, preprocessed, modality, placeholder, pad as TokenId);
    assert forall|i: int| 0 <= i < counts.len() implies (#[trigger] f(i)) is Ok && is_wrapped(
        f(i)->Ok_0,
        modality,
        placeholder,
        start,
        pad,
        end,
        counts[i],
    ) by {
        lemma_wrapped(metadata, modality, placeholder, start, pad, end, counts[i]);
    }
    laws::lemma_collected_ok(f, counts.len());
    let all = registry::collected(f, counts.len())->Ok_0;
    laws::lemma_collected(f, counts.len(), all);
    assert forall|i: int| 0 <= i < counts.len() implies is_wrapped(
        #[trigger] all[i],
        modality,
        placeholder,
        start,
        pad,
        end,
        counts[i],
    ) by {
        assert(f(i) == Ok::<PromptReplacementView, RegistryErrorView>(all[i]));
    }
}

/// Law: sound has no markers, so that no item of it can be wrapped.
pub proof fn law_sound_is_not_wrapped<T: Tokenizer>(
    metadata: ModelMetadata<T>,
    placeholder: Seq<char>,
    pad: TokenId,
    count: usize,
)
    ensures
        minimax_m3::wrapped(metadata, Modality::Audio, placeholder, pad, count) == Err::<
            PromptReplacementView,
            RegistryErrorView,
        >(
            RegistryErrorView::UnsupportedModality {
                spec: "minimax_m3"@,
                modality: Modality::Audio,
            },
        ),
{
}

/// Law: every image of a MiniMax-M3 request is replaced by its features, as many
/// as it has, between the image markers; its one range is the features.
pub proof fn law_images_are_wrapped<T: Tokenizer>(
    metadata: ModelMetadata<T>,
    preprocessed: PreprocessedEncoderInputs,
    start: u32,
    pad: u32,
    end: u32,
)
    requires
        is_feature(metadata, "image_token_index"@, "]<]image[>["@, pad),
        metadata.tokenizer.id_of("]<]start of image[>["@) == Some(start),
        metadata.tokenizer.id_of("]<]end of image[>["@) == Some(end),
    ensures
        ({
            let r = minimax_m3::image_replacements(metadata, preprocessed);
            let counts = preprocessed.feature_token_counts@;
            &&& r is Ok
            &&& r->Ok_0.len() == counts.len()
            &&& forall|i: int|
                0 <= i < counts.len() ==> is_wrapped(
                    #[trigger] r->Ok_0[i],
                    Modality::Image,
                    "]<]image[>["@,
                    start,
                    pad,
                    end,
                    counts[i],
                )
        }),
{
    law_items_are_wrapped(
        metadata,
        preprocessed,
        Modality::Image,
        "]<]image[>["@,
        start,
        pad,
        end,
    );
}

/// Law: a request of any item is refused where a marker of its modality is not in
/// the vocabulary, and the marker is named, the start before the end.
pub proof fn law_missing_markers_are_named<T: Tokenizer>(
    metadata: ModelMetadata<T>,
    preprocessed: PreprocessedEncoderInputs,
    pad: u32,
)
    requires
        preprocessed.feature_token_counts@.len() > 0,
    ensures
        is_feature(metadata, "image_token_index"@, "]<]image[>["@, pad) ==> {
            let r = minimax_m3::image_replacements(metadata, preprocessed);
            &&& metadata.tokenizer.id_of("]<]start of image[>["@) is None ==> r == Err::<
                Seq<PromptReplacementView>,
                RegistryErrorView,
            >(RegistryErrorView::TokenNotFound { token: "]<]start of image[>["@ })
            &&& metadata.tokenizer.id_of("]<]start of image[>["@) is Some
                && metadata.tokenizer.id_of("]<]end of image[>["@) is None ==> r == Err::<
                Seq<PromptReplacementView>,
                RegistryErrorView,
            >(RegistryErrorView::TokenNotFound { token: "]<]end of image[>["@ })
        },
        is_feature(metadata, "video_token_index"@, "]<]video[>["@, pad) ==> {
            let r = minimax_m3::video_replacements(metadata, preprocessed);
            &&& metadata.tokenizer.id_of("]<]start of video[>["@) is None ==> r == Err::<
                Seq<PromptReplacementView>,
                RegistryErrorView,
            >(RegistryErrorView::TokenNotFound { token: "]<]start of video[>["@ })
            &&& metadata.tokenizer.id_of("]<]start of video[>["@) is Some
                && metadata.tokenizer.id_of("]<]end of video[>["@) is None ==> r == Err::<
                Seq<PromptReplacementView>,
                RegistryErrorView,
            >(RegistryErrorView::TokenNotFound { token: "]<]end of video[>["@ })
        },
        ({
            let images = minimax_m3::image_replacements(metadata, preprocessed);
            let videos = minimax_m3::video_replacements(metadata, preprocessed);
            &&& minimax_m3::image_pad(metadata) is Err ==> images is Err && images->Err_0
                == minimax_m3::image_pad(metadata)->Err_0
            &&& minimax_m3::video_pad(metadata) is Err ==> videos is Err && videos->Err_0
                == minimax_m3::video_pad(metadata)->Err_0
        }),
{
    let n = preprocessed.feature_token_counts@.len();
    if is_feature(metadata, "image_token_index"@, "]<]image[>["@, pad) {
        let f = minimax_m3::wrapped_item(
            metadata,
            preprocessed,
            Modality::Image,
            "]<]image[>["@,
            pad as TokenId,
        );
        if f(0) is Err {
            laws::lemma_collected_first_error(f, n, 0);
        }
    }
    if is_feature(metadata, "video_token_index"@, "]<]video[>["@, pad) {
        let f = minimax_m3::video_item(metadata, preprocessed, pad as TokenId);
        if f(0) is Err {
            laws::lemma_collected_first_error(f, n, 0);
        }
    }
}

/// A video's temporal frames can be given their times: the sampled source frames
/// were handed over, and the source's rate, which is known.
pub open spec fn is_timed(
    preprocessed: PreprocessedEncoderInputs,
    indices: Seq<i64>,
    fps: Binary32,
) -> bool {
    let sampled = preprocessed.integers_at("video_frames_indices"@);
    &&& sampled is Some
    &&& sampled->Some_0.0 == indices
    &&& indices.len() > 0
    &&& preprocessed.first_number_at("video_source_fps"@) == Some(fps)
    &&& fps@.is_known()
}

/// `patch` is how many source frames make a temporal frame: as declared, else two.
pub open spec fn is_patch<T: Tokenizer>(metadata: ModelMetadata<T>, patch: u32) -> bool {
    let declared = metadata.number_at(
        seq!["img_token_compression_config"@, "temporal_patch_size"@],
    );
    &&& declared is Some ==> patch == declared->Some_0
    &&& declared is None ==> patch == 2
}

/// The marker of temporal frame `i`'s time: that of the first source frame it was
/// made from, or of the last one sampled.
pub open spec fn time_text(indices: Seq<i64>, fps: Binary32, patch: u32, i: int) -> Seq<char> {
    let sampled = if i * patch < indices.len() {
        indices[i * patch]
    } else {
        indices.last()
    };
    "]<]"@ + display::one_decimal(FloatValue::of(sampled as int).over(fps@)) + " seconds[>["@
}

/// A temporal frame with its time's ids before it: the video markers around its
/// share of the features.
pub open spec fn frame(
    ids: Seq<TokenId>,
    start: u32,
    pad: u32,
    end: u32,
    per_frame: int,
) -> Seq<TokenId> {
    ids + (seq![start as TokenId] + laws::run(pad as TokenId, per_frame) + seq![end as TokenId])
}

/// A video is laid out frame by frame, and each range is a frame's features.
pub open spec fn is_laid_out(
    tokens: Seq<TokenId>,
    ranges: Seq<PlaceholderRange>,
    frames: Seq<Seq<TokenId>>,
    per_frame: int,
) -> bool {
    &&& tokens == frames.flatten()
    &&& ranges.len() == frames.len()
    &&& forall|i: int|
        0 <= i < frames.len() ==> {
            &&& (#[trigger] ranges[i]).length == per_frame
            &&& ranges[i].offset == frames.take(i).flatten().len() + frames[i].len() - per_frame - 1
        }
}

/// Law: a MiniMax-M3 video of `depth` temporal frames, more than one, whose
/// features divide evenly among them, is laid out frame by frame, each frame
/// between the video markers; where times are known and can be encoded, each frame
/// has its own before it.
pub proof fn law_layout_by_frame<T: Tokenizer>(
    metadata: ModelMetadata<T>,
    preprocessed: PreprocessedEncoderInputs,
    start: u32,
    pad: u32,
    end: u32,
    count: usize,
    depth: usize,
    patch: u32,
    ids: Seq<Seq<TokenId>>,
)
    requires
        metadata.tokenizer.id_of("]<]start of video[>["@) == Some(start),
        metadata.tokenizer.id_of("]<]end of video[>["@) == Some(end),
        depth > 1,
        count > 0,
        count % depth == 0,
        is_patch(metadata, patch),
        ids.len() == depth,
        forall|indices: Seq<i64>, fps: Binary32, i: int|
            #[trigger] is_timed(preprocessed, indices, fps) && 0 <= i < depth ==> {
                let encoding = metadata.tokenizer.encoding_of(
                    #[trigger] time_text(indices, fps, patch, i),
                );
                encoding is Some && ids[i] == laws::in_prompt(encoding->Some_0)
            },
        (forall|indices: Seq<i64>, fps: Binary32| !#[trigger] is_timed(preprocessed, indices, fps))
            ==> forall|i: int| 0 <= i < depth ==> (#[trigger] ids[i]).len() == 0,
        Seq::new(
            depth as nat,
            |i: int| frame(ids[i], start, pad, end, (count / depth) as int),
        ).flatten().len() <= usize::MAX,
    ensures
        ({
            let r = minimax_m3::framed(metadata, preprocessed, pad as TokenId, count, depth);
            let per_frame = (count / depth) as int;
            &&& r is Ok
            &&& r->Ok_0 is Some
            &&& is_laid_out(
                r->Ok_0->Some_0.0,
                r->Ok_0->Some_0.1,
                Seq::new(depth as nat, |i: int| frame(ids[i], start, pad, end, per_frame)),
                per_frame,
            )
        }),
{
    let per_frame = count / depth;
    let times = minimax_m3::frame_times(preprocessed);
    let f = minimax_m3::frame_block(
        metadata,
        times,
        start as TokenId,
        pad as TokenId,
        per_frame as nat,
        end as TokenId,
    );
    let frames = Seq::new(depth as nat, |i: int| frame(ids[i], start, pad, end, per_frame as int));
    let body = minimax_m3::block(
        start as TokenId,
        pad as TokenId,
        per_frame as nat,
        end as TokenId,
    );
    laws::lemma_run(pad as TokenId, per_frame as nat);
    assert forall|i: int| 0 <= i < depth implies (#[trigger] f(i)) == Ok::<
        Seq<TokenId>,
        RegistryErrorView,
    >(frames[i]) by {
        if let Some((indices, rate)) = times {
            let fps = preprocessed.first_number_at("video_source_fps"@)->Some_0;
            assert(is_timed(preprocessed, indices, fps));
            let text = time_text(indices, fps, patch, i);
            assert(metadata.tokenizer.encoding_of(text) is Some);
            laws::lemma_in_prompt(metadata.tokenizer.encoding_of(text)->Some_0);
            assert(text == minimax_m3::time_marker(
                minimax_m3::frame_seconds(indices, rate, patch as nat, i),
            ));
        } else {
            assert forall|indices: Seq<i64>, fps: Binary32| !#[trigger] is_timed(
                preprocessed,
                indices,
                fps,
            ) by {}
            assert(ids[i].len() == 0);
            assert(frames[i] =~= body);
        }
    }
    laws::lemma_collected_ok(f, depth as nat);
    let blocks = registry::collected(f, depth as nat)->Ok_0;
    laws::lemma_collected(f, depth as nat, blocks);
    assert forall|i: int| 0 <= i < depth implies #[trigger] blocks[i] == frames[i] by {
        assert(f(i) == Ok::<Seq<TokenId>, RegistryErrorView>(blocks[i]));
    }
    assert(blocks =~= frames);
    laws::lemma_joined_is_flatten(blocks);
    let ranges = minimax_m3::frame_ranges(blocks, per_frame);
    assert forall|i: int| 0 <= i < depth implies (#[trigger] ranges[i]).offset == frames.take(
        i,
    ).flatten().len() + frames[i].len() - per_frame - 1 && ranges[i].length == per_frame by {
        laws::lemma_joined(blocks, i);
        laws::lemma_joined_is_flatten(blocks.take(i));
    }
}

/// Law: the frame-by-frame layout is for more than one temporal frame, with
/// features that divide evenly among them; nothing is laid out otherwise.
pub proof fn law_when_the_layout_applies<T: Tokenizer>(
    metadata: ModelMetadata<T>,
    preprocessed: PreprocessedEncoderInputs,
    pad: TokenId,
    count: usize,
    depth: usize,
)
    ensures
        minimax_m3::framed(metadata, preprocessed, pad, count, depth) == Ok::<
            Option<(Seq<TokenId>, Seq<PlaceholderRange>)>,
            RegistryErrorView,
        >(None) <==> depth <= 1 || count == 0 || count % depth != 0,
{
}

/// Law: where a frame's time is known and cannot be encoded, the layout fails and
/// names the text.
pub proof fn law_times_that_cannot_be_encoded_are_named<T: Tokenizer>(
    metadata: ModelMetadata<T>,
    preprocessed: PreprocessedEncoderInputs,
    pad: TokenId,
    count: usize,
    depth: usize,
    patch: u32,
    indices: Seq<i64>,
    fps: Binary32,
    i: int,
)
    requires
        metadata.tokenizer.id_of("]<]start of video[>["@) is Some,
        metadata.tokenizer.id_of("]<]end of video[>["@) is Some,
        depth > 1,
        count > 0,
        count % depth == 0,
        is_patch(metadata, patch),
        is_timed(preprocessed, indices, fps),
        0 <= i < depth,
        forall|j: int|
            0 <= j < i ==> metadata.tokenizer.encoding_of(#[trigger] time_text(indices, fps, patch, j))
                is Some,
        metadata.tokenizer.encoding_of(time_text(indices, fps, patch, i)) is None,
    ensures
        minimax_m3::framed(metadata, preprocessed, pad, count, depth) == Err::<
            Option<(Seq<TokenId>, Seq<PlaceholderRange>)>,
            RegistryErrorView,
        >(
            RegistryErrorView::TextEncodingFailed {
                spec: "minimax_m3"@,
                text: time_text(indices, fps, patch, i),
            },
        ),
{
    let f = minimax_m3::frame_block(
        metadata,
        minimax_m3::frame_times(preprocessed),
        metadata.tokenizer.id_of("]<]start of video[>["@)->Some_0 as TokenId,
        pad,
        (count / depth) as nat,
        metadata.tokenizer.id_of("]<]end of video[>["@)->Some_0 as TokenId,
    );
    assert forall|j: int| 0 <= j <= i implies (#[trigger] f(j)) is Ok
        == metadata.tokenizer.encoding_of(time_text(indices, fps, patch, j)) is Some by {
        assert(time_text(indices, fps, patch, j) == minimax_m3::time_marker(
            minimax_m3::frame_seconds(indices, fps@, patch as nat, j),
        ));
    }
    laws::lemma_collected_first_error(f, depth as nat, i);
    assert(time_text(indices, fps, patch, i) == minimax_m3::time_marker(
        minimax_m3::frame_seconds(indices, fps@, patch as nat, i),
    ));
}

/// Law: video `i` of a request that is served is laid out frame by frame where
/// that applies to its depth and its features, and wrapped whole otherwise.
pub proof fn law_videos_are_laid_out_or_wrapped<T: Tokenizer>(
    metadata: ModelMetadata<T>,
    preprocessed: PreprocessedEncoderInputs,
    start: u32,
    pad: u32,
    end: u32,
    all: Seq<PromptReplacementView>,
    i: int,
)
    requires
        is_feature(metadata, "video_token_index"@, "]<]video[>["@, pad),
        metadata.tokenizer.id_of("]<]start of video[>["@) == Some(start),
        metadata.tokenizer.id_of("]<]end of video[>["@) == Some(end),
        minimax_m3::video_replacements(metadata, preprocessed) == Ok::<
            Seq<PromptReplacementView>,
            RegistryErrorView,
        >(all),
        0 <= i < preprocessed.feature_token_counts@.len(),
    ensures
        all.len() == preprocessed.feature_token_counts@.len(),
        ({
            let count = preprocessed.feature_token_counts@[i];
            let depth = preprocessed.single_grid_t();
            let by_frame = depth is Some && depth->Some_0 > 1 && count > 0 && count
                % depth->Some_0 == 0;
            let layout = minimax_m3::framed(
                metadata,
                preprocessed,
                pad as TokenId,
                count,
                depth->Some_0,
            );
            &&& !by_frame ==> is_wrapped(
                all[i],
                Modality::Video,
                "]<]video[>["@,
                start,
                pad,
                end,
                count,
            )
            &&& by_frame ==> {
                &&& layout is Ok
                &&& layout->Ok_0 is Some
                &&& all[i].modality == Modality::Video
                &&& all[i].placeholder_token == "]<]video[>["@
                &&& all[i].structural_prefix == 0
                &&& all[i].tokens == layout->Ok_0->Some_0.0
                &&& all[i].feature_ranges == Some(layout->Ok_0->Some_0.1)
            }
        }),
{
    let counts = preprocessed.feature_token_counts@;
    let f = minimax_m3::video_item(metadata, preprocessed, pad as TokenId);
    laws::lemma_collected(f, counts.len(), all);
    assert(f(i) == Ok::<PromptReplacementView, RegistryErrorView>(all[i]));
    lemma_wrapped(metadata, Modality::Video, "]<]video[>["@, start, pad, end, counts[i]);
}

/// Law: a request of videos is served where each of them can be: its markers are
/// in the vocabulary, and its layout, where one applies, does not fail.
pub proof fn law_videos_are_served_where_each_can_be<T: Tokenizer>(
    metadata: ModelMetadata<T>,
    preprocessed: PreprocessedEncoderInputs,
    start: u32,
    pad: u32,
    end: u32,
)
    requires
        is_feature(metadata, "video_token_index"@, "]<]video[>["@, pad),
        metadata.tokenizer.id_of("]<]start of video[>["@) == Some(start),
        metadata.tokenizer.id_of("]<]end of video[>["@) == Some(end),
    ensures
        minimax_m3::video_replacements(metadata, preprocessed) is Ok <==> forall|i: int|
            #![trigger preprocessed.feature_token_counts@[i]]
            0 <= i < preprocessed.feature_token_counts@.len() && preprocessed.single_grid_t()
                is Some ==> minimax_m3::framed(
                metadata,
                preprocessed,
                pad as TokenId,
                preprocessed.feature_token_counts@[i],
                preprocessed.single_grid_t()->Some_0,
            ) is Ok,
{
    let counts = preprocessed.feature_token_counts@;
    let f = minimax_m3::video_item(metadata, preprocessed, pad as TokenId);
    let depth = preprocessed.single_grid_t();
    assert forall|i: int| #![trigger counts[i]] 0 <= i < counts.len() implies (f(i) is Ok <==> (depth
        is Some ==> minimax_m3::framed(
        metadata,
        preprocessed,
        pad as TokenId,
        counts[i],
        depth->Some_0,
    ) is Ok)) by {
        lemma_wrapped(metadata, Modality::Video, "]<]video[>["@, start, pad, end, counts[i]);
    }
    if registry::collected(f, counts.len()) is Ok {
        let all = registry::collected(f, counts.len())->Ok_0;
        laws::lemma_collected(f, counts.len(), all);
        assert forall|i: int| 0 <= i < counts.len() implies (#[trigger] f(i)) is Ok by {
            assert(f(i) == Ok::<PromptReplacementView, RegistryErrorView>(all[i]));
        }
        assert forall|i: int|
            #![trigger counts[i]]
            0 <= i < counts.len() && depth is Some implies minimax_m3::framed(
            metadata,
            preprocessed,
            pad as TokenId,
            counts[i],
            depth->Some_0,
        ) is Ok by {
            assert(f(i) is Ok);
        }
    } else {
        laws::lemma_collected_error(f, counts.len());
        let i = choose|i: int|
            0 <= i < counts.len() && (#[trigger] f(i)) is Err && f(i)->Err_0 == registry::collected(
                f,
                counts.len(),
            )->Err_0;
        let c = counts[i];
        assert(f(i) is Err);
    }
}

/// Law: a checkpoint is an M3 by its type, or by a name that holds both `minimax`
/// and `m3`; and by nothing else.
pub proof fn law_which_checkpoints_are_m3<T: Tokenizer>(metadata: ModelMetadata<T>)
    ensures
        ({
            let id = text::lowered(metadata.model_id@);
            minimax_m3::is_m3(metadata) <==> {
                ||| metadata.model_type() == Some("minimax_m3_vl"@)
                ||| text::contains(id, "minimax"@) && text::contains(id, "m3"@)
            }
        }),
{
}

/// Law: a number that the preprocessor's configuration gives is the one that
/// fetching goes by; without it the default stands.
pub proof fn law_fetching_goes_by_the_given_numbers(config: PreProcessorConfig)
    ensures
        ({
            let r = minimax_m3::fetch_config(Some(&config));
            &&& r.min_frames == 1
            &&& config.count_at("max_frames"@) matches Some(n) ==> r.max_frames == n
            &&& config.count_at("max_frames"@) is None ==> r.max_frames == 768
            &&& config.single_at("fps"@) matches Some(fps) ==> r.sample_fps == fps
            &&& config.single_at("fps"@) is None ==> r.sample_fps.bits == ONE_BITS
            &&& r.strategy is MiniMaxM3
            &&& r.max_long_side_pixel is None
        }),
        minimax_m3::fetch_config(None) == (VideoFetchConfig {
            min_frames: 1,
            max_frames: 768,
            sample_fps: Binary32 { bits: ONE_BITS },
            strategy: VideoSamplingStrategy::MiniMaxM3,
            max_long_side_pixel: None,
        }),
{
}

/// Law: the pixels of images and of videos are laid out patch after patch, each
/// with its own number of patches beside it; every other tensor has one row per
/// item; and there are no others.
pub proof fn law_pixels_are_flat_and_the_rest_is_not(key: Seq<char>)
    ensures
        minimax_m3::tensor_layouts().contains_key(key) <==> {
            ||| key == "pixel_values"@
            ||| key == "pixel_values_videos"@
            ||| key == "patches_per_image"@
            ||| key == "patches_per_video"@
            ||| key == "image_grid_thw"@
            ||| key == "video_grid_thw"@
        },
        key == "pixel_values"@ ==> minimax_m3::tensor_layouts()[key] == (FieldLayoutView::Flat {
            sizes_key: "patches_per_image"@,
        }),
        key == "pixel_values_videos"@ ==> minimax_m3::tensor_layouts()[key] == (
        FieldLayoutView::Flat { sizes_key: "patches_per_video"@ }),
        minimax_m3::tensor_layouts().contains_key(key) && key != "pixel_values"@ && key
            != "pixel_values_videos"@ ==> minimax_m3::tensor_layouts()[key] is Batched,
{
    reveal_strlit("pixel_values");
    reveal_strlit("pixel_values_videos");
    reveal_strlit("patches_per_image");
    reveal_strlit("patches_per_video");
    reveal_strlit("image_grid_thw");
    reveal_strlit("video_grid_thw");
    assert("pixel_values"@.len() == 12);
    assert("pixel_values_videos"@.len() == 19);
    assert("patches_per_image"@.len() == 17);
    assert("patches_per_video"@.len() == 17);
    assert("image_grid_thw"@.len() == 14);
    assert("video_grid_thw"@.len() == 14);
}

} // verus!
