//! What a Qwen3-VL checkpoint is answered, told from what it declares and what was
//! handed over.
use crate::decimal;
use crate::encoder_inputs::PreprocessedEncoderInputs;
use crate::float::binary32;
use crate::float::binary32::Binary32;
use crate::float::display;
use crate::float::order;
use crate::float::rounding;
use crate::float::value;
use crate::float::value::FloatValue;
use crate::media::{VideoFetchConfig, TWO_BITS};
use crate::registry::laws;
use crate::registry::qwen3_vl;
use crate::registry::{ModelMetadata, RegistryErrorView, Tokenizer};
use crate::text;
use crate::types::{FieldLayoutView, Modality, TokenId};
use crate::video_sampling::VideoSamplingStrategy;
use crate::vision::PreProcessorConfig;
use vstd::arithmetic::mul::*;
use vstd::arithmetic::power2::*;
use vstd::prelude::*;

verus! {

/// An id comes back from the prompt as it went in.
proof fn lemma_id(id: u32)
    ensures
        (id as TokenId) as u32 == id,
{
    assert((id as i32) as u32 == id) by (bit_vector);
}

/// Law: every image of a Qwen3-VL request is replaced by as many tokens as it has
/// features, each of them the declared image token, and by nothing else.
pub proof fn law_images_become_their_features<T: Tokenizer>(
    metadata: ModelMetadata<T>,
    preprocessed: PreprocessedEncoderInputs,
    id: u32,
    placeholder: Seq<char>,
)
    requires
        metadata.number("image_token_id"@) == Some(id),
        metadata.tokenizer.token_of(id) == Some(placeholder),
    ensures
        ({
            let r = qwen3_vl::image_replacements(metadata, preprocessed);
            let counts = preprocessed.feature_token_counts@;
            &&& r is Ok
            &&& r->Ok_0.len() == counts.len()
            &&& forall|i: int|
                0 <= i < counts.len() ==> {
                    let image = #[trigger] r->Ok_0[i];
                    &&& image.modality == Modality::Image
                    &&& image.placeholder_token == placeholder
                    &&& image.tokens.len() == counts[i]
                    &&& forall|k: int|
                        0 <= k < counts[i] ==> #[trigger] image.tokens[k] == id as TokenId
                    &&& image.structural_prefix == 0
                    &&& image.feature_ranges is None
                }
        }),
{
    lemma_id(id);
}

/// Law: what is missing is named: the configuration's field, or the id that the
/// vocabulary has no token for.
pub proof fn law_what_is_missing_is_named<T: Tokenizer>(
    metadata: ModelMetadata<T>,
    field: Seq<char>,
)
    ensures
        metadata.number(field) is None ==> {
            let e = RegistryErrorView::MissingConfigField { field };
            &&& qwen3_vl::declared(metadata, field) == Err::<TokenId, RegistryErrorView>(e)
            &&& qwen3_vl::declared_token(metadata, field) == Err::<Seq<char>, RegistryErrorView>(e)
        },
        metadata.number(field) matches Some(id) ==> {
            &&& qwen3_vl::declared(metadata, field) == Ok::<TokenId, RegistryErrorView>(
                id as TokenId,
            )
            &&& metadata.tokenizer.token_of(id) matches Some(token) ==> qwen3_vl::declared_token(
                metadata,
                field,
            ) == Ok::<Seq<char>, RegistryErrorView>(token)
            &&& metadata.tokenizer.token_of(id) is None ==> qwen3_vl::declared_token(metadata, field)
                == Err::<Seq<char>, RegistryErrorView>(
                RegistryErrorView::TokenNotFound {
                    token: field + ":"@ + decimal::signed_decimal(id as TokenId as int),
                },
            )
        },
{
    if let Some(id) = metadata.number(field) {
        lemma_id(id);
    }
}

/// Law: a Qwen3-VL request is refused with what is missing of its modality's
/// placeholder, and only then.
pub proof fn law_requests_are_refused_for_what_is_missing<T: Tokenizer>(
    metadata: ModelMetadata<T>,
    preprocessed: PreprocessedEncoderInputs,
)
    ensures
        ({
            let images = qwen3_vl::image_replacements(metadata, preprocessed);
            let token = qwen3_vl::declared_token(metadata, "image_token_id"@);
            &&& images is Ok <==> token is Ok
            &&& images is Err ==> images->Err_0 == token->Err_0
        }),
        ({
            let videos = qwen3_vl::video_replacements(metadata, preprocessed);
            let token = qwen3_vl::declared_token(metadata, "video_token_id"@);
            &&& videos is Ok <==> token is Ok
            &&& videos is Err ==> videos->Err_0 == token->Err_0
        }),
{
}

/// `patch` is how many source frames make a temporal frame: as declared, else two.
pub open spec fn is_patch<T: Tokenizer>(metadata: ModelMetadata<T>, patch: u32) -> bool {
    let declared = metadata.number_at(seq!["vision_config"@, "temporal_patch_size"@]);
    &&& declared is Some ==> patch == declared->Some_0
    &&& declared is None ==> patch == 2
}

/// `rate` is the rate that timestamps go by: as many source frames as make a
/// temporal frame in the seconds that one takes, where those are known; two a
/// second else.
pub open spec fn is_rate(
    preprocessed: PreprocessedEncoderInputs,
    patch: u32,
    rate: FloatValue,
) -> bool {
    let seconds = preprocessed.first_number_at("video_second_per_grid"@);
    let known = patch > 0 && seconds is Some && seconds->Some_0@.is_known();
    &&& known ==> rate == FloatValue::of(patch as int).over(seconds->Some_0@)
    &&& !known ==> rate == FloatValue::of(2)
}

/// The magnitude of a single that is finite and not zero.
proof fn lemma_single_bounds(s: Binary32)
    requires
        s@.is_known(),
    ensures
        s@ == order::plain(s@->units),
        pow2(925) <= s@->units < pow2(1202),
{
    let parts = binary32::decode(s.bits);
    let m = parts->significand as nat;
    let e = parts->exponent as nat;
    lemma2_to64();
    lemma_pow2_pos(e);
    assert(m > 0) by {
        if m == 0 {
            assert(0 * pow2(e) == 0);
        }
    }
    rounding::lemma_pow2_grows(925, e);
    rounding::lemma_pow2_grows(e, 1178);
    lemma_pow2_adds(24, 1178);
    assert(pow2(925) <= m * pow2(e) < pow2(24) * pow2(1178)) by (nonlinear_arith)
        requires
            1 <= m < pow2(24),
            0 < pow2(925) <= pow2(e) <= pow2(1178),
    ;
}

/// A rate of singles is finite, above zero and close to the exact one.
proof fn lemma_rate(patch: u32, s: Binary32) -> (rate: nat)
    requires
        patch > 0,
        s@.is_known(),
    ensures
        FloatValue::of(patch as int).over(s@) == order::plain(rate),
        pow2(900) <= rate <= pow2(1255),
        (pow2(53) - 1) * (patch * (value::one() * value::one())) <= pow2(53) * (rate * s@->units)
            <= (pow2(53) + 1) * (patch * (value::one() * value::one())),
{
    let one = value::one();
    let p = patch as nat;
    let u = s@->units;
    lemma_single_bounds(s);
    order::lemma_powers();
    lemma2_to64();
    order::lemma_of_exact(p);
    lemma_pow2_adds(1074, 1074);
    lemma_pow2_adds(946, 1202);
    lemma_pow2_adds(1255, 925);
    lemma_pow2_adds(32, 2148);
    rounding::lemma_pow2_grows(900, 946);
    let num = (p * one) * one;
    let rate = order::rounded(num, u);
    assert(num == p * (one * one)) by (nonlinear_arith)
        requires
            num == (p * one) * one,
    ;
    assert(1 * pow2(946) == pow2(946) && 1 * pow2(1255) == pow2(1255));
    assert(num >= u * pow2(946)) by (nonlinear_arith)
        requires
            num == p * (one * one),
            p >= 1,
            one * one == pow2(946) * pow2(1202),
            u <= pow2(1202),
    ;
    order::lemma_stays_above(num, u, 1, 946);
    assert(num <= u * pow2(1255)) by (nonlinear_arith)
        requires
            num == p * (one * one),
            p <= pow2(32),
            pow2(32) * (one * one) == pow2(1255) * pow2(925),
            u >= pow2(925),
    ;
    order::lemma_stays_below(num, u, 1, 1255);
    lemma_pow2_strictly_increases(1255, 2098);
    lemma_pow2_pos(925);
    rounding::lemma_pow2_grows(53, 946);
    assert(num >= u * pow2(53)) by (nonlinear_arith)
        requires
            num >= u * pow2(946),
            pow2(946) >= pow2(53),
    ;
    order::lemma_error(num, u);
    rate
}

/// Law: the rate that timestamps go by is the declared patch size over the seconds
/// per grid, wherever those are a finite positive number and the patch is not
/// empty; two only where there is no such number.
pub proof fn law_rate_is_patch_over_seconds<T: Tokenizer>(
    metadata: ModelMetadata<T>,
    preprocessed: PreprocessedEncoderInputs,
    patch: u32,
    rate: FloatValue,
)
    requires
        is_patch(metadata, patch),
        is_rate(preprocessed, patch, rate),
    ensures
        qwen3_vl::effective_fps(metadata, preprocessed) == rate,
        rate.is_known(),
{
    order::lemma_powers();
    order::lemma_of_exact(2);
    assert(2 * value::one() > 0);
    if let Some(s) = preprocessed.first_number_at("video_second_per_grid"@) {
        if s@.is_known() {
            if patch > 0 {
                let units = lemma_rate(patch, s);
                lemma_pow2_pos(900);
            } else {
                order::lemma_of_exact(0);
                lemma_single_bounds(s);
                lemma_pow2_pos(925);
                assert(0 * value::one() == 0);
                order::lemma_zero(s@->units);
                lemma_pow2_pos(2098);
                assert(FloatValue::of(0).over(s@) == order::plain(0));
            }
        }
    }
}

/// The time of temporal frame `i`: that of its mean source frame, at a rate.
pub open spec fn mean_time(patch: u32, rate: FloatValue, i: int) -> FloatValue {
    order::plain((2 * (patch * i) + patch - 1) as nat * pow2(1073)).over(rate)
}

/// The time that temporal frame `i` is given, worked out in double precision: the
/// middle of the `patch` source frames that make it, at a rate.
pub open spec fn clock(patch: u32, rate: FloatValue, i: int) -> FloatValue {
    let first = FloatValue::of(i).times(FloatValue::of(patch as int));
    let middle = FloatValue::of(patch as int).minus(FloatValue::of(1)).over(FloatValue::of(2));
    first.plus(middle).over(rate)
}

/// Law: below 2^53 the clock shows the exact time of the mean source frame, but
/// for the division by the rate.
pub proof fn law_clock_shows_the_mean_time(patch: u32, rate: FloatValue, i: usize)
    requires
        patch > 0,
        2 * (patch * i) + patch <= pow2(53),
    ensures
        clock(patch, rate, i as int) == mean_time(patch, rate, i as int),
{
    laws::law_qwen3_vl_times_are_of_mean_frames(patch, rate, i);
}

/// Law: with a temporal frame every `s` seconds, frame `i` is given the time
/// `i * s + s * (patch - 1) / (2 * patch)`, but for its 2^51st part.
pub proof fn law_times_follow_the_seconds_per_grid(patch: u32, s: Binary32, i: usize)
    requires
        patch > 0,
        s@.is_known(),
        2 * (patch * i) + patch <= pow2(53),
    ensures
        ({
            let time = clock(patch, FloatValue::of(patch as int).over(s@), i as int);
            let exact = (2 * (patch * i) + patch - 1) * s@->units;
            &&& time is Finite
            &&& !time->Finite_negative
            &&& pow2(51) * (2 * (patch * time->units) - exact) <= exact
            &&& pow2(51) * (exact - 2 * (patch * time->units)) <= exact
        }),
{
    let one = value::one();
    let half = pow2(1073);
    let w = pow2(53) as int;
    let p = patch as int;
    let n = 2 * (p * i) + p - 1;
    let u = s@->units as int;
    order::lemma_powers();
    lemma_single_bounds(s);
    let rate = lemma_rate(patch, s);
    law_clock_shows_the_mean_time(patch, order::plain(rate), i);
    assert(p * i >= 0) by (nonlinear_arith)
        requires
            p >= 0,
            i >= 0,
    ;
    lemma_pow2_pos(900);
    lemma_pow2_pos(2098);
    let num = (n as nat * half) * one;
    let time = order::rounded(num, rate);
    if n == 0 {
        assert(num == 0) by (nonlinear_arith)
            requires
                num == (0 * half) * one,
        ;
        order::lemma_zero(rate);
        assert(0 * u == 0 && p * 0 == 0);
    } else {
        lemma_pow2_adds(1073, 1074);
        lemma_pow2_adds(53, 1255);
        rounding::lemma_pow2_grows(1308, 2147);
        assert(num == n * (half * one)) by (nonlinear_arith)
            requires
                num == (n * half) * one,
        ;
        assert(num >= rate * pow2(53)) by (nonlinear_arith)
            requires
                num == n * (half * one),
                n >= 1,
                half * one >= pow2(53) * pow2(1255),
                rate <= pow2(1255),
        ;
        order::lemma_error(num, rate);
        // The time is in range.
        lemma_pow2_adds(53, 2147);
        lemma_pow2_adds(1300, 900);
        assert(num <= rate * pow2(1300)) by (nonlinear_arith)
            requires
                num == n * (half * one),
                n <= pow2(53),
                pow2(53) * (half * one) == pow2(1300) * pow2(900),
                rate >= pow2(900),
        ;
        assert(1 * pow2(1300) == pow2(1300));
        order::lemma_stays_below(num, rate, 1, 1300);
        lemma_pow2_strictly_increases(1300, 2098);
        // Two roundings, each off by a 2^53rd part at most.
        let oo = one * one;
        let a = rate * u;
        let b = p * oo;
        let t = time as int;
        let ho = half * one;
        let tr = t * rate;
        let nh = n * ho;
        assert(oo == 2 * ho) by (nonlinear_arith)
            requires
                oo == one * one,
                one == 2 * half,
                ho == half * one,
        ;
        assert(t * a == tr * u) by (nonlinear_arith)
            requires
                a == rate * u,
                tr == t * rate,
        ;
        assert((w - 1) * (t * b) <= w * (t * a) <= (w + 1) * (t * b)) by (nonlinear_arith)
            requires
                (w - 1) * b <= w * a <= (w + 1) * b,
                t >= 0,
        ;
        assert((w - 1) * (nh * u) <= w * (tr * u) <= (w + 1) * (nh * u)) by (nonlinear_arith)
            requires
                (w - 1) * nh <= w * tr <= (w + 1) * nh,
                u >= 0,
        ;
        let x = 2 * (p * t);
        let y = n * u;
        assert(t * b == x * ho) by (nonlinear_arith)
            requires
                b == p * oo,
                oo == 2 * ho,
                x == 2 * (p * t),
        ;
        assert(nh * u == y * ho) by (nonlinear_arith)
            requires
                nh == n * ho,
                y == n * u,
        ;
        assert(ho > 0) by (nonlinear_arith)
            requires
                ho == half * one,
                half > 0,
                one > 0,
        ;
        assert((w - 1) * x <= (w + 1) * y) by (nonlinear_arith)
            requires
                (w - 1) * (x * ho) <= (w + 1) * (y * ho),
                ho > 0,
        ;
        assert((w - 1) * y <= (w + 1) * x) by (nonlinear_arith)
            requires
                (w - 1) * (y * ho) <= (w + 1) * (x * ho),
                ho > 0,
        ;
        assert(y >= 0) by (nonlinear_arith)
            requires
                y == n * u,
                n >= 0,
                u >= 0,
        ;
        assert(pow2(51) * (x - y) <= y && pow2(51) * (y - x) <= y) by (nonlinear_arith)
            requires
                (w - 1) * x <= (w + 1) * y,
                (w - 1) * y <= (w + 1) * x,
                y >= 0,
                w == 0x20_0000_0000_0000,
                pow2(51) == 0x8_0000_0000_0000,
        ;
    }
}

/// The ids of a temporal frame's time; none where the tokenizer cannot encode it.
pub open spec fn time_ids<T: Tokenizer>(metadata: ModelMetadata<T>, time: FloatValue) -> Seq<
    TokenId,
> {
    let text = "<"@ + display::one_decimal(time) + " seconds>"@;
    match metadata.tokenizer.encoding_of(text) {
        Some(ids) => laws::in_prompt(ids),
        None => Seq::empty(),
    }
}

/// Temporal frame `i` in a prompt: the end of the frame before and the start of
/// this one around its time, where there is a frame before; then its features.
pub open spec fn frame<T: Tokenizer>(
    metadata: ModelMetadata<T>,
    start: u32,
    pad: TokenId,
    end: u32,
    per_frame: int,
    patch: u32,
    rate: FloatValue,
) -> spec_fn(int) -> Seq<TokenId> {
    |i: int|
        {
            let ids = time_ids(metadata, clock(patch, rate, i));
            let features = laws::run(pad, per_frame);
            if i == 0 {
                ids + features
            } else {
                seq![end as TokenId] + ids + seq![start as TokenId] + features
            }
        }
}

/// Law: a Qwen3-VL video of `depth` temporal frames, more than one, whose features
/// divide evenly among them, is replaced frame by frame: each frame's time, then
/// its share of the features, with an end and a start between one frame and the
/// next.
pub proof fn law_videos_are_laid_out_by_frame<T: Tokenizer>(
    metadata: ModelMetadata<T>,
    preprocessed: PreprocessedEncoderInputs,
    pad: u32,
    placeholder: Seq<char>,
    start: u32,
    end: u32,
    depth: usize,
    patch: u32,
    rate: FloatValue,
    i: int,
)
    requires
        metadata.number("video_token_id"@) == Some(pad),
        metadata.tokenizer.token_of(pad) == Some(placeholder),
        metadata.number("vision_start_token_id"@) == Some(start),
        metadata.number("vision_end_token_id"@) == Some(end),
        preprocessed.single_grid_t() == Some(depth),
        is_patch(metadata, patch),
        is_rate(preprocessed, patch, rate),
        0 <= i < preprocessed.feature_token_counts@.len(),
        depth > 1,
        preprocessed.feature_token_counts@[i] > 0,
        preprocessed.feature_token_counts@[i] % depth == 0,
    ensures
        ({
            let r = qwen3_vl::video_replacements(metadata, preprocessed);
            let count = preprocessed.feature_token_counts@[i];
            &&& r is Ok
            &&& r->Ok_0.len() == preprocessed.feature_token_counts@.len()
            &&& r->Ok_0[i].modality == Modality::Video
            &&& r->Ok_0[i].placeholder_token == placeholder
            &&& r->Ok_0[i].structural_prefix == 1
            &&& r->Ok_0[i].feature_ranges is None
            &&& r->Ok_0[i].tokens == Seq::new(
                depth as nat,
                frame(
                    metadata,
                    start,
                    pad as TokenId,
                    end,
                    (count / depth) as int,
                    patch,
                    rate,
                ),
            ).flatten()
        }),
{
    let count = preprocessed.feature_token_counts@[i];
    lemma_id(pad);
    law_rate_is_patch_over_seconds(metadata, preprocessed, patch, rate);
    law_layout_by_frame(metadata, pad as TokenId, count, depth, start, end, patch, rate);
    let item = qwen3_vl::video_item(
        metadata,
        preprocessed,
        placeholder,
        pad as TokenId,
        count,
    );
    assert(qwen3_vl::video_replacements(metadata, preprocessed)->Ok_0[i] == item);
}

/// Law: the frame-by-frame layout itself, at any rate.
pub proof fn law_layout_by_frame<T: Tokenizer>(
    metadata: ModelMetadata<T>,
    pad: TokenId,
    count: usize,
    depth: usize,
    start: u32,
    end: u32,
    patch: u32,
    rate: FloatValue,
)
    requires
        metadata.number("vision_start_token_id"@) == Some(start),
        metadata.number("vision_end_token_id"@) == Some(end),
        is_patch(metadata, patch),
        depth > 1,
        count > 0,
        count % depth == 0,
    ensures
        qwen3_vl::framed(metadata, pad, count, depth, rate) == Some(
            Seq::new(
                depth as nat,
                frame(metadata, start, pad, end, (count / depth) as int, patch, rate),
            ).flatten(),
        ),
{
    let per_frame = (count / depth) as nat;
    let blocks = qwen3_vl::frame_blocks(
        metadata,
        start as TokenId,
        pad,
        per_frame,
        end as TokenId,
        rate,
        depth as nat,
    );
    let f = frame(metadata, start, pad, end, per_frame as int, patch, rate);
    let frames = Seq::new(depth as nat, f);
    assert forall|i: int| 0 <= i < depth implies #[trigger] blocks[i] == frames[i] by {
        let text = qwen3_vl::timestamp(qwen3_vl::patch_seconds(patch as int, rate, i));
        assert(qwen3_vl::patch_seconds(patch as int, rate, i) == clock(patch, rate, i));
        if let Some(ids) = metadata.tokenizer.encoding_of(text) {
            laws::lemma_in_prompt(ids);
        }
        laws::lemma_run(pad, per_frame);
        assert(frames[i] == f(i));
    }
    assert(blocks =~= frames);
    laws::lemma_joined_is_flatten(blocks);
}

/// Law: the frame-by-frame layout applies to more than one temporal frame, with
/// features that divide evenly among them and a declared start and end; and to
/// nothing else.
pub proof fn law_when_the_layout_applies<T: Tokenizer>(
    metadata: ModelMetadata<T>,
    pad: TokenId,
    count: usize,
    depth: usize,
    rate: FloatValue,
)
    ensures
        qwen3_vl::framed(metadata, pad, count, depth, rate) is Some <==> {
            &&& depth > 1
            &&& count > 0
            &&& count % depth == 0
            &&& metadata.number("vision_start_token_id"@) is Some
            &&& metadata.number("vision_end_token_id"@) is Some
        },
{
}

/// Law: any other Qwen3-VL video that is served is replaced by its features alone:
/// one temporal frame or none known, features that do not divide evenly or none,
/// or an undeclared start or end.
pub proof fn law_other_videos_become_their_features<T: Tokenizer>(
    metadata: ModelMetadata<T>,
    preprocessed: PreprocessedEncoderInputs,
    pad: u32,
    placeholder: Seq<char>,
    i: int,
)
    requires
        metadata.number("video_token_id"@) == Some(pad),
        metadata.tokenizer.token_of(pad) == Some(placeholder),
        0 <= i < preprocessed.feature_token_counts@.len(),
        ({
            let depth = preprocessed.single_grid_t();
            let count = preprocessed.feature_token_counts@[i];
            ||| depth is None
            ||| depth->Some_0 <= 1
            ||| count == 0
            ||| count % depth->Some_0 != 0
            ||| metadata.number("vision_start_token_id"@) is None
            ||| metadata.number("vision_end_token_id"@) is None
        }),
    ensures
        ({
            let r = qwen3_vl::video_replacements(metadata, preprocessed);
            let count = preprocessed.feature_token_counts@[i];
            &&& r is Ok
            &&& r->Ok_0.len() == preprocessed.feature_token_counts@.len()
            &&& r->Ok_0[i].modality == Modality::Video
            &&& r->Ok_0[i].placeholder_token == placeholder
            &&& r->Ok_0[i].structural_prefix == 1
            &&& r->Ok_0[i].feature_ranges is None
            &&& r->Ok_0[i].tokens == laws::run(pad as TokenId, count as int)
        }),
{
    lemma_id(pad);
    let count = preprocessed.feature_token_counts@[i];
    laws::lemma_run(pad as TokenId, count as nat);
    let item = qwen3_vl::video_item(
        metadata,
        preprocessed,
        placeholder,
        pad as TokenId,
        count,
    );
    assert(qwen3_vl::video_replacements(metadata, preprocessed)->Ok_0[i] == item);
}

/// Law: plain text becomes the tokenizer's ids, in its order, or nothing where it
/// cannot be encoded.
pub proof fn law_plain_text_becomes_its_ids<T: Tokenizer>(metadata: ModelMetadata<T>, text: Seq<char>)
    ensures
        metadata.tokenizer.encoding_of(text) matches Some(ids) ==> qwen3_vl::plain_ids(
            metadata,
            text,
        ) == laws::in_prompt(ids),
        metadata.tokenizer.encoding_of(text) is None ==> qwen3_vl::plain_ids(metadata, text).len()
            == 0,
{
    if let Some(ids) = metadata.tokenizer.encoding_of(text) {
        laws::lemma_in_prompt(ids);
    }
}

/// Law: a checkpoint is laid out as Qwen3-VL is where its type is one of the
/// family's, or its name holds both `qwen3` and `vl`, or one of the later names;
/// and nowhere else.
pub proof fn law_which_checkpoints_are_qwen3_vl<T: Tokenizer>(metadata: ModelMetadata<T>)
    ensures
        ({
            let id = text::lowered(metadata.model_id@);
            let kind = metadata.model_type();
            qwen3_vl::is_qwen3_vl(metadata) <==> {
                ||| kind == Some("qwen3_vl"@)
                ||| kind == Some("qwen3_5"@)
                ||| kind == Some("qwen3_5_moe"@)
                ||| kind == Some("qwen4_exp"@)
                ||| text::contains(id, "qwen3.5"@)
                ||| text::contains(id, "qwen3.6"@)
                ||| text::contains(id, "qwen3"@) && text::contains(id, "vl"@)
            }
        }),
{
}

/// Law: a number that the preprocessor's configuration gives is the one that
/// fetching goes by; without it the default stands.
pub proof fn law_fetching_goes_by_the_given_numbers(config: PreProcessorConfig)
    ensures
        ({
            let r = qwen3_vl::fetch_config(Some(&config));
            &&& config.count_at("min_frames"@) matches Some(n) ==> r.min_frames == n
            &&& config.count_at("min_frames"@) is None ==> r.min_frames == 4
            &&& config.count_at("max_frames"@) matches Some(n) ==> r.max_frames == n
            &&& config.count_at("max_frames"@) is None ==> r.max_frames == 768
            &&& config.single_at("fps"@) matches Some(fps) ==> r.sample_fps == fps
            &&& config.single_at("fps"@) is None ==> r.sample_fps.bits == TWO_BITS
            &&& r.strategy is Qwen3Vl
            &&& r.max_long_side_pixel is None
        }),
        qwen3_vl::fetch_config(None) == (VideoFetchConfig {
            min_frames: 4,
            max_frames: 768,
            sample_fps: Binary32 { bits: TWO_BITS },
            strategy: VideoSamplingStrategy::Qwen3Vl,
            max_long_side_pixel: None,
        }),
{
}

/// Law: pixels are laid out patch after patch, with the number of patches beside
/// them; every other tensor has one row per item; and there are no others.
pub proof fn law_pixels_are_flat_and_the_rest_is_not(key: Seq<char>)
    ensures
        qwen3_vl::tensor_layouts().contains_key(key) <==> {
            ||| key == "pixel_values"@
            ||| key == "patches_per_image"@
            ||| key == "patches_per_video"@
            ||| key == "image_grid_thw"@
            ||| key == "video_grid_thw"@
            ||| key == "video_second_per_grid"@
        },
        key == "pixel_values"@ ==> qwen3_vl::tensor_layouts()[key] == (FieldLayoutView::Flat {
            sizes_key: "patches_per_image"@,
        }),
        qwen3_vl::tensor_layouts().contains_key(key) && key != "pixel_values"@
            ==> qwen3_vl::tensor_layouts()[key] is Batched,
{
    reveal_strlit("pixel_values");
    reveal_strlit("patches_per_image");
    reveal_strlit("patches_per_video");
    reveal_strlit("image_grid_thw");
    reveal_strlit("video_grid_thw");
    reveal_strlit("video_second_per_grid");
    assert("pixel_values"@.len() == 12);
    assert("patches_per_image"@.len() == 17);
    assert("patches_per_video"@.len() == 17);
    assert("image_grid_thw"@.len() == 14);
    assert("video_grid_thw"@.len() == 14);
    assert("video_second_per_grid"@.len() == 21);
}

} // verus!
