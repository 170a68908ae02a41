//! What holds of the replacements that a prompt gets.
use crate::encoder_inputs::PreprocessedEncoderInputs;
use crate::float::order;
use crate::float::rounding;
use crate::float::value;
use crate::float::value::FloatValue;
use crate::registry;
use crate::registry::{glm53_flash, minimax_m3, qwen3_vl};
use crate::registry::{ModelMetadata, RegistryErrorView, Tokenizer};
use crate::text;
use crate::types;
use crate::types::{Modality, PlaceholderRange, PromptReplacementView, TokenId};
use vstd::arithmetic::div_mod::*;
use vstd::arithmetic::mul::*;
use vstd::arithmetic::power2::*;
use vstd::prelude::*;

pub mod glm;
pub mod metadata;
pub mod minimax;
pub mod qwen;

verus! {

/// A range lies within the tokens and holds nothing but one token.
pub open spec fn is_run(tokens: Seq<TokenId>, range: PlaceholderRange, token: TokenId) -> bool {
    &&& range.offset + range.length <= tokens.len()
    &&& forall|k: int|
        range.offset <= k < range.offset + range.length ==> #[trigger] tokens[k] == token
}

/// How many tokens ranges hold together.
pub open spec fn covered(ranges: Seq<PlaceholderRange>) -> nat
    decreases ranges.len(),
{
    if ranges.len() == 0 {
        0
    } else {
        covered(ranges.drop_last()) + ranges.last().length as nat
    }
}

/// Ranges mark the features of a media item: each is a run of the feature token,
/// they stand in order with something between, and together they hold as many
/// tokens as the item has features.
pub open spec fn marks_features(
    tokens: Seq<TokenId>,
    ranges: Seq<PlaceholderRange>,
    token: TokenId,
    count: nat,
) -> bool {
    &&& forall|i: int| 0 <= i < ranges.len() ==> is_run(tokens, #[trigger] ranges[i], token)
    &&& forall|i: int, j: int|
        0 <= i < j < ranges.len() ==> ranges[i].offset + ranges[i].length < ranges[j].offset
    &&& covered(ranges) == count
}

proof fn lemma_covered(ranges: Seq<PlaceholderRange>, length: nat)
    requires
        forall|i: int| 0 <= i < ranges.len() ==> (#[trigger] ranges[i]).length == length,
    ensures
        covered(ranges) == ranges.len() * length,
    decreases ranges.len(),
{
    if ranges.len() > 0 {
        lemma_covered(ranges.drop_last(), length);
        assert((ranges.len() - 1) * length + length == ranges.len() * length) by (nonlinear_arith);
    } else {
        assert(0 * length == 0);
    }
}

/// What was collected without an error.
proof fn lemma_collected<V>(f: spec_fn(int) -> Result<V, RegistryErrorView>, n: nat, s: Seq<V>)
    requires
        registry::collected(f, n) == Ok::<Seq<V>, RegistryErrorView>(s),
    ensures
        s.len() == n,
        forall|i: int| 0 <= i < n ==> f(i) == Ok::<V, RegistryErrorView>(#[trigger] s[i]),
    decreases n,
{
    if n > 0 {
        let before = registry::collected(f, (n - 1) as nat)->Ok_0;
        lemma_collected(f, (n - 1) as nat, before);
        assert(s == before.push(s.last()));
    }
}

/// Where a block stands among joined ones.
proof fn lemma_joined(blocks: Seq<Seq<TokenId>>, i: int)
    requires
        0 <= i < blocks.len(),
    ensures
        ({
            let at = registry::joined(blocks.take(i)).len();
            let all = registry::joined(blocks);
            &&& at + blocks[i].len() <= all.len()
            &&& forall|k: int|
                at <= k < at + blocks[i].len() ==> #[trigger] all[k] == blocks[i][k - at]
        }),
    decreases blocks.len(),
{
    let front = blocks.drop_last();
    let all = registry::joined(blocks);
    if i == blocks.len() - 1 {
        assert(blocks.take(i) =~= front);
    } else {
        lemma_joined(front, i);
        assert(front.take(i) =~= blocks.take(i));
        assert(front[i] == blocks[i]);
        let at = registry::joined(blocks.take(i)).len();
        assert forall|k: int| at <= k < at + blocks[i].len() implies #[trigger] all[k]
            == blocks[i][k - at] by {
            assert(all[k] == registry::joined(front)[k]);
        }
    }
}

/// Joined blocks stand one after the other.
proof fn lemma_joined_order(blocks: Seq<Seq<TokenId>>, i: int, j: int)
    requires
        0 <= i < j < blocks.len(),
    ensures
        registry::joined(blocks.take(i)).len() + blocks[i].len() <= registry::joined(
            blocks.take(j),
        ).len(),
{
    let part = blocks.take(j);
    lemma_joined(part, i);
    assert(part.take(i) =~= blocks.take(i));
}

/// Joined blocks are the blocks one after the other.
proof fn lemma_joined_is_flatten(blocks: Seq<Seq<TokenId>>)
    ensures
        registry::joined(blocks) == blocks.flatten(),
    decreases blocks.len(),
{
    blocks.lemma_flatten_and_flatten_alt_are_equivalent();
    if blocks.len() > 0 {
        let front = blocks.drop_last();
        lemma_joined_is_flatten(front);
        front.lemma_flatten_and_flatten_alt_are_equivalent();
    }
}

/// The same token, so many times.
pub open spec fn run(token: TokenId, count: int) -> Seq<TokenId> {
    Seq::new(count as nat, |k: int| token)
}

/// A tokenizer's ids, as a prompt holds them.
pub open spec fn in_prompt(ids: Seq<u32>) -> Seq<TokenId> {
    ids.map_values(|id: u32| id as TokenId)
}

proof fn lemma_in_prompt(ids: Seq<u32>)
    ensures
        registry::as_token_ids(ids) == in_prompt(ids),
{
    assert(registry::as_token_ids(ids) =~= in_prompt(ids));
}

proof fn lemma_run(token: TokenId, count: nat)
    ensures
        types::repeated(token, count) == run(token, count as int),
{
    assert(types::repeated(token, count) =~= run(token, count as int));
}

/// Results that are all there are collected.
proof fn lemma_collected_ok<V>(f: spec_fn(int) -> Result<V, RegistryErrorView>, n: nat)
    requires
        forall|i: int| 0 <= i < n ==> (#[trigger] f(i)) is Ok,
    ensures
        registry::collected(f, n) is Ok,
    decreases n,
{
    if n > 0 {
        lemma_collected_ok(f, (n - 1) as nat);
        assert(f(n - 1) is Ok);
    }
}

/// The first error is what comes of a collection.
proof fn lemma_collected_first_error<V>(
    f: spec_fn(int) -> Result<V, RegistryErrorView>,
    n: nat,
    i: int,
)
    requires
        0 <= i < n,
        forall|j: int| 0 <= j < i ==> (#[trigger] f(j)) is Ok,
        f(i) is Err,
    ensures
        registry::collected(f, n) is Err,
        registry::collected(f, n)->Err_0 == f(i)->Err_0,
{
    lemma_collected_ok(f, i as nat);
    assert(registry::collected(f, (i + 1) as nat) is Err);
    registry::lemma_first_error(f, (i + 1) as nat, n);
}

/// Blocks that each hold a run of features at a given place, with something
/// around it, make ranges that mark the features.
proof fn lemma_blocks_mark(
    blocks: Seq<Seq<TokenId>>,
    ranges: Seq<PlaceholderRange>,
    places: Seq<int>,
    token: TokenId,
    length: nat,
)
    requires
        ranges.len() == blocks.len(),
        places.len() == blocks.len(),
        forall|i: int|
            #![trigger blocks[i]]
            0 <= i < blocks.len() ==> {
                &&& 1 <= places[i]
                &&& places[i] + length <= blocks[i].len()
                &&& forall|k: int|
                    places[i] <= k < places[i] + length ==> #[trigger] blocks[i][k] == token
                &&& ranges[i].length == length
                &&& ranges[i].offset == registry::joined(blocks.take(i)).len() + places[i]
            },
    ensures
        marks_features(registry::joined(blocks), ranges, token, blocks.len() * length),
{
    let all = registry::joined(blocks);
    assert forall|i: int| 0 <= i < ranges.len() implies is_run(all, #[trigger] ranges[i], token) by {
        let block = blocks[i];
        lemma_joined(blocks, i);
        let at = registry::joined(blocks.take(i)).len();
        assert forall|k: int|
            ranges[i].offset <= k < ranges[i].offset + ranges[i].length implies #[trigger] all[k]
            == token by {
            assert(all[k] == block[k - at]);
        }
    }
    assert forall|i: int, j: int| 0 <= i < j < ranges.len() implies ranges[i].offset
        + ranges[i].length < ranges[j].offset by {
        let (a, b) = (blocks[i], blocks[j]);
        lemma_joined_order(blocks, i, j);
    }
    assert forall|i: int| 0 <= i < ranges.len() implies (#[trigger] ranges[i]).length == length by {
        let block = blocks[i];
    }
    lemma_covered(ranges, length);
}

proof fn lemma_parts_make_the_whole(count: usize, parts: usize)
    requires
        parts > 0,
        count % parts == 0,
    ensures
        parts as nat * (count / parts) as nat == count,
{
    lemma_fundamental_div_mod(count as int, parts as int);
}

/// Law: the ranges of a MiniMax-M3 video that is laid out frame by frame mark its
/// features: the video token's runs, one per temporal frame.
pub proof fn law_minimax_m3_frames_mark_the_features<T: Tokenizer>(
    metadata: ModelMetadata<T>,
    preprocessed: PreprocessedEncoderInputs,
    pad: TokenId,
    count: usize,
    grid_t: usize,
    tokens: Seq<TokenId>,
    ranges: Seq<PlaceholderRange>,
)
    requires
        minimax_m3::framed(metadata, preprocessed, pad, count, grid_t) == Ok::<
            Option<(Seq<TokenId>, Seq<PlaceholderRange>)>,
            RegistryErrorView,
        >(Some((tokens, ranges))),
        tokens.len() <= usize::MAX,
    ensures
        ranges.len() == grid_t,
        marks_features(tokens, ranges, pad, count as nat),
{
    let start = metadata.vocabulary_id("]<]start of video[>["@)->Ok_0;
    let end = metadata.vocabulary_id("]<]end of video[>["@)->Ok_0;
    let per_frame = count / grid_t;
    let f = minimax_m3::frame_block(
        metadata,
        minimax_m3::frame_times(preprocessed),
        start,
        pad,
        per_frame as nat,
        end,
    );
    let blocks = registry::collected(f, grid_t as nat)->Ok_0;
    lemma_collected(f, grid_t as nat, blocks);
    let body = minimax_m3::block(start, pad, per_frame as nat, end);
    let places = Seq::new(blocks.len(), |i: int| blocks[i].len() - per_frame - 1);
    assert forall|i: int| #![trigger blocks[i]] 0 <= i < blocks.len() implies {
        &&& 1 <= places[i]
        &&& places[i] + per_frame <= blocks[i].len()
        &&& forall|k: int|
            places[i] <= k < places[i] + per_frame ==> #[trigger] blocks[i][k] == pad
        &&& ranges[i].length == per_frame
        &&& ranges[i].offset == registry::joined(blocks.take(i)).len() + places[i]
    } by {
        assert(f(i) == Ok::<Seq<TokenId>, RegistryErrorView>(blocks[i]));
        let lead = (blocks[i].len() - body.len()) as int;
        assert(blocks[i].len() >= body.len());
        assert forall|k: int| places[i] <= k < places[i] + per_frame implies #[trigger] blocks[i][k]
            == pad by {
            assert(blocks[i][k] == body[k - lead]);
        }
        lemma_joined(blocks, i);
    }
    lemma_blocks_mark(blocks, ranges, places, pad, per_frame as nat);
    lemma_parts_make_the_whole(count, grid_t);
}

/// Law: whatever a MiniMax-M3 video is replaced by, its ranges mark its features.
pub proof fn law_minimax_m3_videos_mark_the_features<T: Tokenizer>(
    metadata: ModelMetadata<T>,
    preprocessed: PreprocessedEncoderInputs,
    pad: TokenId,
    i: int,
    view: PromptReplacementView,
)
    requires
        minimax_m3::video_item(metadata, preprocessed, pad)(i) == Ok::<
            PromptReplacementView,
            RegistryErrorView,
        >(view),
        view.tokens.len() <= usize::MAX,
    ensures
        view.modality == Modality::Video,
        view.structural_prefix == 0,
        view.feature_ranges matches Some(ranges) && marks_features(
            view.tokens,
            ranges,
            pad,
            preprocessed.feature_token_counts@[i] as nat,
        ),
{
    let count = preprocessed.feature_token_counts@[i];
    let by_frame = match preprocessed.single_grid_t() {
        Some(grid_t) => minimax_m3::framed(metadata, preprocessed, pad, count, grid_t),
        None => Ok(None),
    };
    match by_frame {
        Ok(Some((tokens, ranges))) => {
            law_minimax_m3_frames_mark_the_features(
                metadata,
                preprocessed,
                pad,
                count,
                preprocessed.single_grid_t()->Some_0,
                tokens,
                ranges,
            );
        },
        _ => {
            law_minimax_m3_wraps_the_features(
                metadata,
                Modality::Video,
                "]<]video[>["@,
                pad,
                count,
                view,
            );
        },
    }
}

/// Law: a wrapped MiniMax-M3 item is its features between two markers, and its one
/// range marks them.
pub proof fn law_minimax_m3_wraps_the_features<T: Tokenizer>(
    metadata: ModelMetadata<T>,
    modality: Modality,
    placeholder: Seq<char>,
    pad: TokenId,
    count: usize,
    view: PromptReplacementView,
)
    requires
        minimax_m3::wrapped(metadata, modality, placeholder, pad, count) == Ok::<
            PromptReplacementView,
            RegistryErrorView,
        >(view),
    ensures
        view.modality == modality,
        view.tokens.len() == count + 2,
        view.feature_ranges matches Some(ranges) && ranges.len() == 1 && marks_features(
            view.tokens,
            ranges,
            pad,
            count as nat,
        ),
{
    let ranges = view.feature_ranges->Some_0;
    assert(ranges.drop_last() =~= Seq::empty());
    assert(covered(ranges.drop_last()) == 0);
    let (start, end) = (view.tokens[0], view.tokens.last());
    assert(view.tokens == minimax_m3::block(start, pad, count as nat, end));
    assert(is_run(view.tokens, ranges[0], pad));
}

/// Law: the ranges of a GLM video mark its features: the image token's runs, one
/// per temporal frame.
pub proof fn law_glm_frames_mark_the_features<T: Tokenizer>(
    metadata: ModelMetadata<T>,
    begin: TokenId,
    feature: TokenId,
    end: TokenId,
    seconds: FloatValue,
    count: usize,
    grid_t: usize,
    view: PromptReplacementView,
)
    requires
        glm53_flash::framed(metadata, begin, feature, end, seconds, count, grid_t) == Ok::<
            PromptReplacementView,
            RegistryErrorView,
        >(view),
        view.tokens.len() <= usize::MAX,
    ensures
        view.modality == Modality::Video,
        view.feature_ranges matches Some(ranges) && ranges.len() == grid_t && marks_features(
            view.tokens,
            ranges,
            feature,
            count as nat,
        ),
{
    let per_grid = count / grid_t;
    let f = glm53_flash::frame_block(metadata, begin, feature, per_grid as nat, end, seconds);
    let blocks = registry::collected(f, grid_t as nat)->Ok_0;
    let ranges = view.feature_ranges->Some_0;
    lemma_collected(f, grid_t as nat, blocks);
    let places = Seq::new(blocks.len(), |i: int| 1int);
    assert forall|i: int| #![trigger blocks[i]] 0 <= i < blocks.len() implies {
        &&& 1 <= places[i]
        &&& places[i] + per_grid <= blocks[i].len()
        &&& forall|k: int|
            places[i] <= k < places[i] + per_grid ==> #[trigger] blocks[i][k] == feature
        &&& ranges[i].length == per_grid
        &&& ranges[i].offset == registry::joined(blocks.take(i)).len() + places[i]
    } by {
        assert(f(i) == Ok::<Seq<TokenId>, RegistryErrorView>(blocks[i]));
        lemma_joined(blocks, i);
    }
    lemma_blocks_mark(blocks, ranges, places, feature, per_grid as nat);
    lemma_parts_make_the_whole(count, grid_t);
}

/// Law: every video of a GLM request gets a replacement whose ranges mark its
/// features, which carry the image token's id.
pub proof fn law_glm_videos_mark_the_features<T: Tokenizer>(
    metadata: ModelMetadata<T>,
    input: PreprocessedEncoderInputs,
    all: Seq<PromptReplacementView>,
    i: int,
)
    requires
        glm53_flash::video_replacements(metadata, input) == Ok::<
            Seq<PromptReplacementView>,
            RegistryErrorView,
        >(all),
        0 <= i < input.feature_token_counts@.len(),
        all[i].tokens.len() <= usize::MAX,
    ensures
        all.len() == input.feature_token_counts@.len(),
        glm53_flash::feature_id(metadata) matches Ok(feature)
            && all[i].feature_ranges matches Some(ranges) && marks_features(
            all[i].tokens,
            ranges,
            feature,
            input.feature_token_counts@[i] as nat,
        ),
{
    let counts = input.feature_token_counts@;
    let grids = glm53_flash::grid_depths(input)->Ok_0;
    let feature = glm53_flash::feature_id(metadata)->Ok_0;
    let begin = metadata.vocabulary_id("<|begin_of_image|>"@)->Ok_0;
    let end = metadata.vocabulary_id("<|end_of_image|>"@)->Ok_0;
    let seconds = input.first_number_at("video_second_per_grid"@)->Some_0;
    let f = glm53_flash::video_item(metadata, begin, feature, end, seconds@, counts, grids);
    lemma_collected(f, counts.len(), all);
    assert(f(i) == Ok::<PromptReplacementView, RegistryErrorView>(all[i]));
    law_glm_frames_mark_the_features(
        metadata,
        begin,
        feature,
        end,
        seconds@,
        counts[i],
        grids[i],
        all[i],
    );
}

/// Law: every image or video of a MiniMax-M3 request gets a replacement whose
/// ranges mark its features, which carry the placeholder's id.
pub proof fn law_minimax_m3_requests_mark_the_features<T: Tokenizer>(
    metadata: ModelMetadata<T>,
    preprocessed: PreprocessedEncoderInputs,
    modality: Modality,
    all: Seq<PromptReplacementView>,
    i: int,
)
    requires
        modality != Modality::Audio,
        (if modality == Modality::Image {
            minimax_m3::image_replacements(metadata, preprocessed)
        } else {
            minimax_m3::video_replacements(metadata, preprocessed)
        }) == Ok::<Seq<PromptReplacementView>, RegistryErrorView>(all),
        0 <= i < preprocessed.feature_token_counts@.len(),
        all[i].tokens.len() <= usize::MAX,
    ensures
        all.len() == preprocessed.feature_token_counts@.len(),
        all[i].modality == modality,
        (if modality == Modality::Image {
            minimax_m3::image_pad(metadata)
        } else {
            minimax_m3::video_pad(metadata)
        }) matches Ok(pad) && all[i].feature_ranges matches Some(ranges) && marks_features(
            all[i].tokens,
            ranges,
            pad,
            preprocessed.feature_token_counts@[i] as nat,
        ),
{
    let counts = preprocessed.feature_token_counts@;
    if modality == Modality::Image {
        let pad = minimax_m3::image_pad(metadata)->Ok_0;
        let f = minimax_m3::wrapped_item(
            metadata,
            preprocessed,
            Modality::Image,
            "]<]image[>["@,
            pad,
        );
        lemma_collected(f, counts.len(), all);
        assert(f(i) == Ok::<PromptReplacementView, RegistryErrorView>(all[i]));
        law_minimax_m3_wraps_the_features(
            metadata,
            modality,
            "]<]image[>["@,
            pad,
            counts[i],
            all[i],
        );
    } else {
        let pad = minimax_m3::video_pad(metadata)->Ok_0;
        let f = minimax_m3::video_item(metadata, preprocessed, pad);
        lemma_collected(f, counts.len(), all);
        assert(f(i) == Ok::<PromptReplacementView, RegistryErrorView>(all[i]));
        law_minimax_m3_videos_mark_the_features(metadata, preprocessed, pad, i, all[i]);
    }
}

/// Where the features of a Qwen3-VL video lie: at the end of each frame's block.
pub open spec fn trailing_runs(blocks: Seq<Seq<TokenId>>, per_frame: usize) -> Seq<
    PlaceholderRange,
> {
    Seq::new(
        blocks.len(),
        |i: int|
            PlaceholderRange {
                offset: (registry::joined(blocks.take(i)).len() + blocks[i].len()
                    - per_frame) as usize,
                length: per_frame,
            },
    )
}

/// Law: a Qwen3-VL video that is laid out frame by frame holds its features as one
/// run per temporal frame. Before each run but the first stands the token that
/// opens a frame, and after each run but the last the one that closes it: with
/// the chat template's outer pair, every frame is opened and closed once.
pub proof fn law_qwen3_vl_frames_are_opened_and_closed<T: Tokenizer>(
    metadata: ModelMetadata<T>,
    pad: TokenId,
    count: usize,
    grid_t: usize,
    fps: FloatValue,
    tokens: Seq<TokenId>,
)
    requires
        qwen3_vl::framed(metadata, pad, count, grid_t, fps) == Some(tokens),
        tokens.len() <= usize::MAX,
    ensures
        ({
            let start = metadata.number("vision_start_token_id"@)->Some_0 as TokenId;
            let end = metadata.number("vision_end_token_id"@)->Some_0 as TokenId;
            let runs = trailing_runs(
                qwen3_vl::frame_blocks(
                    metadata,
                    start,
                    pad,
                    (count / grid_t) as nat,
                    end,
                    fps,
                    grid_t as nat,
                ),
                count / grid_t,
            );
            &&& runs.len() == grid_t
            &&& forall|i: int| 0 <= i < runs.len() ==> is_run(tokens, #[trigger] runs[i], pad)
            &&& covered(runs) == count
            &&& runs.last().offset + runs.last().length == tokens.len()
            &&& forall|i: int|
                1 <= i < runs.len() ==> {
                    &&& tokens[(#[trigger] runs[i]).offset - 1] == start
                    &&& tokens[runs[i - 1].offset + runs[i - 1].length] == end
                    &&& runs[i - 1].offset + runs[i - 1].length < runs[i].offset - 1
                }
        }),
{
    let start = metadata.number("vision_start_token_id"@)->Some_0 as TokenId;
    let end = metadata.number("vision_end_token_id"@)->Some_0 as TokenId;
    let per_frame = count / grid_t;
    let blocks = qwen3_vl::frame_blocks(
        metadata,
        start,
        pad,
        per_frame as nat,
        end,
        fps,
        grid_t as nat,
    );
    assert forall|i: int| #![trigger blocks[i]] 0 <= i < blocks.len() implies is_frame(
        blocks[i],
        i,
        start,
        pad,
        per_frame as nat,
        end,
    ) by {
        lemma_is_frame(metadata, start, pad, per_frame as nat, end, fps, i);
    }
    lemma_frames_are_opened_and_closed(blocks, start, pad, per_frame, end);
    lemma_parts_make_the_whole(count, grid_t);
}

/// A Qwen3-VL frame ends with its features; every frame but the first begins with
/// the token that closes the one before and has the one that opens it before its
/// features.
spec fn is_frame(
    block: Seq<TokenId>,
    i: int,
    start: TokenId,
    pad: TokenId,
    per_frame: nat,
    end: TokenId,
) -> bool {
    &&& block.len() >= per_frame
    &&& forall|k: int| block.len() - per_frame <= k < block.len() ==> #[trigger] block[k] == pad
    &&& i > 0 ==> {
        &&& block.len() >= per_frame + 2
        &&& block[0] == end
        &&& block[block.len() - per_frame - 1] == start
    }
}

proof fn lemma_is_frame<T: Tokenizer>(
    metadata: ModelMetadata<T>,
    start: TokenId,
    pad: TokenId,
    per_frame: nat,
    end: TokenId,
    fps: FloatValue,
    i: int,
)
    requires
        0 <= i,
    ensures
        is_frame(
            qwen3_vl::frame_block(metadata, start, pad, per_frame, end, fps, i),
            i,
            start,
            pad,
            per_frame,
            end,
        ),
{
    let ids = qwen3_vl::plain_ids(
        metadata,
        qwen3_vl::timestamp(
            qwen3_vl::patch_seconds(qwen3_vl::temporal_patch(metadata) as int, fps, i),
        ),
    );
    let block = qwen3_vl::frame_block(metadata, start, pad, per_frame, end, fps, i);
    let pads = types::repeated(pad, per_frame);
    if i > 0 {
        assert(block == seq![end] + ids + seq![start] + pads);
    } else {
        assert(block == ids + pads);
    }
}

proof fn lemma_run_of_frame(
    blocks: Seq<Seq<TokenId>>,
    start: TokenId,
    pad: TokenId,
    per_frame: usize,
    end: TokenId,
    i: int,
)
    requires
        0 <= i < blocks.len(),
        registry::joined(blocks).len() <= usize::MAX,
        is_frame(blocks[i], i, start, pad, per_frame as nat, end),
    ensures
        ({
            let run = trailing_runs(blocks, per_frame)[i];
            &&& is_run(registry::joined(blocks), run, pad)
            &&& run.length == per_frame
            &&& run.offset == registry::joined(blocks.take(i)).len() + blocks[i].len() - per_frame
        }),
{
    let tokens = registry::joined(blocks);
    let run = trailing_runs(blocks, per_frame)[i];
    let at = registry::joined(blocks.take(i)).len();
    let block = blocks[i];
    lemma_joined(blocks, i);
    assert forall|k: int| run.offset <= k < run.offset + run.length implies #[trigger] tokens[k]
        == pad by {
        assert(tokens[k] == block[k - at]);
    }
}

proof fn lemma_frame_is_opened_and_closed(
    blocks: Seq<Seq<TokenId>>,
    start: TokenId,
    pad: TokenId,
    per_frame: usize,
    end: TokenId,
    i: int,
)
    requires
        1 <= i < blocks.len(),
        registry::joined(blocks).len() <= usize::MAX,
        is_frame(blocks[i - 1], i - 1, start, pad, per_frame as nat, end),
        is_frame(blocks[i], i, start, pad, per_frame as nat, end),
    ensures
        ({
            let tokens = registry::joined(blocks);
            let run = trailing_runs(blocks, per_frame)[i];
            let before = trailing_runs(blocks, per_frame)[i - 1];
            &&& tokens[run.offset - 1] == start
            &&& tokens[before.offset + before.length] == end
            &&& before.offset + before.length < run.offset - 1
        }),
{
    let tokens = registry::joined(blocks);
    let at = registry::joined(blocks.take(i)).len() as int;
    let block = blocks[i];
    lemma_joined(blocks, i);
    lemma_run_of_frame(blocks, start, pad, per_frame, end, i);
    lemma_run_of_frame(blocks, start, pad, per_frame, end, i - 1);
    assert(tokens[at + (block.len() - per_frame - 1)] == block[block.len() - per_frame - 1]);
    assert(tokens[at] == block[0]);
    assert(blocks.take(i).drop_last() =~= blocks.take(i - 1));
    assert(blocks.take(i).last() == blocks[i - 1]);
}

proof fn lemma_frames_are_opened_and_closed(
    blocks: Seq<Seq<TokenId>>,
    start: TokenId,
    pad: TokenId,
    per_frame: usize,
    end: TokenId,
)
    requires
        blocks.len() > 0,
        registry::joined(blocks).len() <= usize::MAX,
        forall|i: int|
            #![trigger blocks[i]]
            0 <= i < blocks.len() ==> is_frame(blocks[i], i, start, pad, per_frame as nat, end),
    ensures
        ({
            let tokens = registry::joined(blocks);
            let runs = trailing_runs(blocks, per_frame);
            &&& forall|i: int| 0 <= i < runs.len() ==> is_run(tokens, #[trigger] runs[i], pad)
            &&& covered(runs) == blocks.len() * per_frame
            &&& runs.last().offset + runs.last().length == tokens.len()
            &&& forall|i: int|
                1 <= i < runs.len() ==> {
                    &&& tokens[(#[trigger] runs[i]).offset - 1] == start
                    &&& tokens[runs[i - 1].offset + runs[i - 1].length] == end
                    &&& runs[i - 1].offset + runs[i - 1].length < runs[i].offset - 1
                }
        }),
{
    let tokens = registry::joined(blocks);
    let runs = trailing_runs(blocks, per_frame);
    let top = blocks.len() - 1;
    assert(is_frame(blocks[top], top, start, pad, per_frame as nat, end));
    assert(blocks.take(top) =~= blocks.drop_last());
    lemma_run_of_frame(blocks, start, pad, per_frame, end, top);
    lemma_covered(runs, per_frame as nat);
    assert forall|i: int| 0 <= i < runs.len() implies is_run(tokens, #[trigger] runs[i], pad) by {
        assert(is_frame(blocks[i], i, start, pad, per_frame as nat, end));
        lemma_run_of_frame(blocks, start, pad, per_frame, end, i);
    }
    assert forall|i: int| 1 <= i < runs.len() implies {
        &&& tokens[(#[trigger] runs[i]).offset - 1] == start
        &&& tokens[runs[i - 1].offset + runs[i - 1].length] == end
        &&& runs[i - 1].offset + runs[i - 1].length < runs[i].offset - 1
    } by {
        assert(is_frame(blocks[i], i, start, pad, per_frame as nat, end));
        assert(is_frame(blocks[i - 1], i - 1, start, pad, per_frame as nat, end));
        lemma_frame_is_opened_and_closed(blocks, start, pad, per_frame, end, i);
    }
}

/// Law: a GLM checkpoint advertises what it can serve. Without an advert every
/// request of that kind is refused; with one for images every request is served,
/// and one for videos is refused only for what the preprocessor handed over or
/// for a time that the tokenizer cannot encode.
pub proof fn law_glm_advertises_what_it_serves<T: Tokenizer>(
    metadata: ModelMetadata<T>,
    input: PreprocessedEncoderInputs,
)
    ensures
        glm53_flash::limits(metadata).image is Some == glm53_flash::image_replacements(
            metadata,
            input,
        ) is Ok,
        glm53_flash::limits(metadata).video is None ==> glm53_flash::video_replacements(
            metadata,
            input,
        ) is Err,
        glm53_flash::limits(metadata).video is Some ==> {
            let r = glm53_flash::video_replacements(metadata, input);
            r is Ok || r->Err_0 is InvalidPreprocessedField || r->Err_0 is TextEncodingFailed
        },
{
    if glm53_flash::limits(metadata).video is Some {
        let counts = input.feature_token_counts@;
        let feature = glm53_flash::feature_id(metadata)->Ok_0;
        let begin = metadata.vocabulary_id("<|begin_of_image|>"@)->Ok_0;
        let end = metadata.vocabulary_id("<|end_of_image|>"@)->Ok_0;
        if glm53_flash::grid_depths(input) is Ok && input.first_number_at(
            "video_second_per_grid"@,
        ) is Some {
            let grids = glm53_flash::grid_depths(input)->Ok_0;
            let seconds = input.first_number_at("video_second_per_grid"@)->Some_0;
            let f = glm53_flash::video_item(metadata, begin, feature, end, seconds@, counts, grids);
            assert forall|i: int| (#[trigger] f(i)) is Err implies f(i)->Err_0
                is InvalidPreprocessedField || f(i)->Err_0 is TextEncodingFailed by {
                let grid_t = grids[i];
                let count = counts[i];
                if !(grid_t == 0 || count % grid_t != 0) {
                    let g = glm53_flash::frame_block(
                        metadata,
                        begin,
                        feature,
                        (count / grid_t) as nat,
                        end,
                        seconds@,
                    );
                    lemma_collected_error(g, grid_t as nat);
                }
            }
            lemma_collected_error(f, counts.len());
        }
    }
}

/// An error of a collection is one of its items'.
proof fn lemma_collected_error<V>(f: spec_fn(int) -> Result<V, RegistryErrorView>, n: nat)
    ensures
        registry::collected(f, n) is Err ==> exists|i: int|
            0 <= i < n && (#[trigger] f(i)) is Err && f(i)->Err_0 == registry::collected(
                f,
                n,
            )->Err_0,
    decreases n,
{
    if n > 0 {
        lemma_collected_error(f, (n - 1) as nat);
        if registry::collected(f, n) is Err && registry::collected(f, (n - 1) as nat) is Ok {
            assert(f(n - 1) is Err);
        }
    }
}

/// Law: without an advert for videos, MiniMax-M3 and Qwen3-VL refuse every video
/// request.
pub proof fn law_unadvertised_videos_are_refused<T: Tokenizer>(
    metadata: ModelMetadata<T>,
    preprocessed: PreprocessedEncoderInputs,
)
    ensures
        minimax_m3::video_pad(metadata) is Err ==> minimax_m3::video_replacements(
            metadata,
            preprocessed,
        ) is Err,
        metadata.number("video_token_id"@) is None ==> qwen3_vl::video_replacements(
            metadata,
            preprocessed,
        ) == Err::<Seq<PromptReplacementView>, RegistryErrorView>(
            RegistryErrorView::MissingConfigField { field: "video_token_id"@ },
        ),
{
}

/// Law: the case of ASCII letters in a checkpoint's name does not matter to which
/// family it belongs to.
pub proof fn law_names_match_in_any_case<T: Tokenizer>(
    a: ModelMetadata<T>,
    b: ModelMetadata<T>,
)
    requires
        text::lowered(a.model_id@) == text::lowered(b.model_id@),
        a.config == b.config,
    ensures
        qwen3_vl::is_qwen3_vl(a) == qwen3_vl::is_qwen3_vl(b),
        glm53_flash::is_glm53_flash(a) == glm53_flash::is_glm53_flash(b),
        minimax_m3::is_m3(a) == minimax_m3::is_m3(b),
{
}

/// Law: below 2^53, a Qwen3-VL temporal frame is given the time of its mean source
/// frame: `patch * i + (patch - 1) / 2` frames after the first, over the rate.
pub proof fn law_qwen3_vl_times_are_of_mean_frames(patch: u32, fps: FloatValue, i: usize)
    requires
        1 <= patch,
        2 * (patch * i) + patch <= pow2(53),
    ensures
        qwen3_vl::patch_seconds(patch as int, fps, i as int) == order::plain(
            (2 * (patch * i) + patch - 1) as nat * pow2(1073),
        ).over(fps),
{
    let one = value::one();
    let half = pow2(1073);
    let p = patch as nat;
    let n = i as nat;
    let product = p * n;
    order::lemma_powers();
    assert(n <= product) by (nonlinear_arith)
        requires
            product == p * n,
            p >= 1,
    ;
    order::lemma_of_exact(n);
    order::lemma_of_exact(p);
    order::lemma_of_exact(1);
    order::lemma_of_exact(2);
    order::lemma_of_exact((p - 1) as nat);
    lemma_pow2_adds(53, 1074);
    rounding::lemma_pow2_grows(1127, 2097);
    lemma_pow2_strictly_increases(2097, 2098);
    // i * patch
    assert((n * one) * (p * one) == one * (product * one)) by (nonlinear_arith)
        requires
            product == p * n,
    ;
    rounding::lemma_nearest_exact(53, 0, product, 1074, one * (product * one), one);
    lemma_mul_inequality(product as int, pow2(53) as int, one as int);
    assert(FloatValue::of(i as int).times(FloatValue::of(patch as int)) == order::plain(
        product * one,
    ));
    // patch - 1
    assert(p * one - 1 * one == (p - 1) * one) by (nonlinear_arith);
    let less = FloatValue::of(patch as int).minus(FloatValue::of(1));
    assert(less == order::plain((p - 1) as nat * one)) by {
        if p == 1 {
            assert((p - 1) * one == 0) by (nonlinear_arith)
                requires
                    p == 1,
            ;
        } else {
            assert((p - 1) * one > 0) by (nonlinear_arith)
                requires
                    p > 1,
                    one > 0,
            ;
            assert(FloatValue::of(p - 1) == value::double().round(
                false,
                ((p - 1) * one) as nat,
                1,
            ));
        }
    }
    // (patch - 1) / 2
    let m = (p - 1) as nat;
    assert((m * one) * one == (2 * one) * (m * half)) by (nonlinear_arith)
        requires
            one == 2 * half,
    ;
    rounding::lemma_nearest_exact(53, 0, m, 1073, (m * one) * one, 2 * one);
    assert(m * half <= pow2(53) * one) by (nonlinear_arith)
        requires
            m <= pow2(53),
            half <= one,
    ;
    let middle = less.over(FloatValue::of(2));
    assert(middle == order::plain(m * half));
    // The sum.
    let whole = (2 * (patch * i) + patch - 1) as nat;
    assert(product * one + m * half == whole * half) by (nonlinear_arith)
        requires
            whole == 2 * product + m,
            one == 2 * half,
    ;
    rounding::lemma_nearest_exact(53, 0, whole, 1073, whole * half, 1);
    assert(whole * half <= pow2(53) * one) by (nonlinear_arith)
        requires
            whole <= pow2(53),
            half <= one,
    ;
    let sum = order::plain(product * one).signed() + middle.signed();
    assert(sum == whole * half);
    assert(order::plain(product * one).plus(middle) == order::plain(whole * half));
}

} // verus!
