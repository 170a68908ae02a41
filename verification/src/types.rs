//! What a prompt is made of.
use vstd::prelude::*;

verus! {

/// A vocabulary id as a prompt holds it.
pub type TokenId = i32;

/// A kind of media.
#[derive(Debug, Clone, Copy, PartialEq, Eq, Hash, Structural)]
pub enum Modality {
    Image,
    Audio,
    Video,
}

/// A run of tokens.
#[derive(Debug, Clone, Copy, PartialEq, Eq, Structural)]
pub struct PlaceholderRange {
    pub offset: usize,
    pub length: usize,
}

/// How a tensor is laid out over the media items of a request.
#[derive(Debug, Clone, PartialEq, Eq)]
pub enum FieldLayout {
    /// One row per item.
    Batched,
    /// Rows of all items in sequence; the field `sizes_key` says how many each
    /// item has.
    Flat { sizes_key: String },
}

/// What a field layout says.
pub enum FieldLayoutView {
    Batched,
    Flat { sizes_key: Seq<char> },
}

impl View for FieldLayout {
    type V = FieldLayoutView;

    open spec fn view(&self) -> FieldLayoutView {
        match self {
            FieldLayout::Batched => FieldLayoutView::Batched,
            FieldLayout::Flat { sizes_key } => FieldLayoutView::Flat { sizes_key: sizes_key@ },
        }
    }
}

impl FieldLayout {
    pub fn flat(sizes_key: &str) -> (layout: FieldLayout)
        ensures
            layout@ == (FieldLayoutView::Flat { sizes_key: sizes_key@ }),
    {
        FieldLayout::Flat { sizes_key: sizes_key.to_owned() }
    }
}

/// What takes the place of one media item's placeholder in a prompt.
#[derive(Debug, Clone, PartialEq, Eq)]
pub struct PromptReplacement {
    pub modality: Modality,
    /// The placeholder that is replaced.
    pub placeholder_token: String,
    /// What it is replaced by.
    pub tokens: Vec<TokenId>,
    /// How many markers that the chat template emits before the placeholder
    /// belong to the range.
    pub structural_prefix: usize,
    /// Where in `tokens` the encoder features go; all of it where there is none.
    pub feature_ranges: Option<Vec<PlaceholderRange>>,
}

/// What a replacement holds.
pub struct PromptReplacementView {
    pub modality: Modality,
    pub placeholder_token: Seq<char>,
    pub tokens: Seq<TokenId>,
    pub structural_prefix: usize,
    pub feature_ranges: Option<Seq<PlaceholderRange>>,
}

impl View for PromptReplacement {
    type V = PromptReplacementView;

    open spec fn view(&self) -> PromptReplacementView {
        PromptReplacementView {
            modality: self.modality,
            placeholder_token: self.placeholder_token@,
            tokens: self.tokens@,
            structural_prefix: self.structural_prefix,
            feature_ranges: match self.feature_ranges {
                Some(ranges) => Some(ranges@),
                None => None,
            },
        }
    }
}

/// A sequence of one token.
pub open spec fn repeated(token: TokenId, count: nat) -> Seq<TokenId> {
    Seq::new(count, |i: int| token)
}

/// Appends `count` times the same token.
pub fn append_repeated(tokens: &mut Vec<TokenId>, token: TokenId, count: usize)
    ensures
        final(tokens)@ == old(tokens)@ + repeated(token, count as nat),
{
    let mut i: usize = 0;
    while i < count
        invariant
            i <= count,
            tokens@ =~= old(tokens)@ + repeated(token, i as nat),
        decreases count - i,
    {
        tokens.push(token);
        i = i + 1;
    }
}

impl PromptReplacementView {
    /// Tokens in place of a placeholder, with nothing else said of them.
    pub open spec fn plain(
        modality: Modality,
        placeholder_token: Seq<char>,
        tokens: Seq<TokenId>,
    ) -> PromptReplacementView {
        PromptReplacementView {
            modality,
            placeholder_token,
            tokens,
            structural_prefix: 0,
            feature_ranges: None,
        }
    }
}

impl PromptReplacement {
    /// `count` times the same token.
    pub fn repeated(
        modality: Modality,
        placeholder_token: &str,
        token_id: TokenId,
        count: usize,
    ) -> (r: PromptReplacement)
        ensures
            r@ == PromptReplacementView::plain(
                modality,
                placeholder_token@,
                repeated(token_id, count as nat),
            ),
    {
        let mut tokens: Vec<TokenId> = Vec::new();
        append_repeated(&mut tokens, token_id, count);
        proof {
            assert(tokens@ =~= repeated(token_id, count as nat));
        }
        PromptReplacement::sequence(modality, placeholder_token, tokens)
    }

    /// A given sequence of tokens.
    pub fn sequence(modality: Modality, placeholder_token: &str, tokens: Vec<TokenId>) -> (r:
        PromptReplacement)
        ensures
            r@ == PromptReplacementView::plain(modality, placeholder_token@, tokens@),
    {
        PromptReplacement {
            modality,
            placeholder_token: placeholder_token.to_owned(),
            tokens,
            structural_prefix: 0,
            feature_ranges: None,
        }
    }

    pub fn with_structural_prefix(self, structural_prefix: usize) -> (r: PromptReplacement)
        ensures
            r@ == (PromptReplacementView { structural_prefix, ..self@ }),
    {
        PromptReplacement {
            modality: self.modality,
            placeholder_token: self.placeholder_token,
            tokens: self.tokens,
            structural_prefix,
            feature_ranges: self.feature_ranges,
        }
    }

    pub fn with_feature_span(self, offset: usize, length: usize) -> (r: PromptReplacement)
        ensures
            r@ == (PromptReplacementView {
                feature_ranges: Some(seq![PlaceholderRange { offset, length }]),
                ..self@
            }),
    {
        let mut ranges: Vec<PlaceholderRange> = Vec::new();
        ranges.push(PlaceholderRange { offset, length });
        proof {
            assert(ranges@ =~= seq![PlaceholderRange { offset, length }]);
        }
        self.with_feature_ranges(ranges)
    }

    pub fn with_feature_ranges(self, ranges: Vec<PlaceholderRange>) -> (r: PromptReplacement)
        ensures
            r@ == (PromptReplacementView { feature_ranges: Some(ranges@), ..self@ }),
    {
        PromptReplacement {
            modality: self.modality,
            placeholder_token: self.placeholder_token,
            tokens: self.tokens,
            structural_prefix: self.structural_prefix,
            feature_ranges: Some(ranges),
        }
    }
}

/// How many items of each modality a request may hold.
#[derive(Debug, Clone, Copy, PartialEq, Eq)]
pub struct ModalityLimits {
    pub image: Option<usize>,
    pub audio: Option<usize>,
    pub video: Option<usize>,
}

impl ModalityLimits {
    pub open spec fn limit(self, modality: Modality) -> Option<usize> {
        match modality {
            Modality::Image => self.image,
            Modality::Audio => self.audio,
            Modality::Video => self.video,
        }
    }

    /// The limit on a modality, where the modality is advertised.
    pub fn get(&self, modality: &Modality) -> (limit: Option<usize>)
        ensures
            limit == self.limit(*modality),
    {
        match modality {
            Modality::Image => self.image,
            Modality::Audio => self.audio,
            Modality::Video => self.video,
        }
    }

    /// Whether a modality is advertised.
    pub fn contains_key(&self, modality: &Modality) -> (advertised: bool)
        ensures
            advertised == (self.limit(*modality) is Some),
    {
        self.get(modality).is_some()
    }

    /// Whether no modality is advertised.
    pub fn is_empty(&self) -> (empty: bool)
        ensures
            empty == (forall|modality: Modality| self.limit(modality) is None),
    {
        let empty = self.image.is_none() && self.audio.is_none() && self.video.is_none();
        proof {
            assert(self.limit(Modality::Image) == self.image);
            assert(self.limit(Modality::Audio) == self.audio);
            assert(self.limit(Modality::Video) == self.video);
        }
        empty
    }
}

} // verus!
