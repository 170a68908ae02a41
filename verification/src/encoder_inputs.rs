//! What an encoder's preprocessor hands over.
use crate::float::binary32::Binary32;
use vstd::hash_map::StringHashMap;
use vstd::prelude::*;

verus! {

/// A tensor that only some models have.
#[allow(inconsistent_fields)]
#[derive(Debug)]
pub enum ModelSpecificValue {
    /// Numbers of single precision.
    Tensor { data: Vec<Binary32>, shape: Vec<usize> },
    /// Integers.
    IntTensor { data: Vec<i64>, shape: Vec<usize> },
}

impl ModelSpecificValue {
    /// A matrix of integers.
    pub fn int_2d(data: Vec<i64>, rows: usize, cols: usize) -> (r: ModelSpecificValue)
        ensures
            r matches ModelSpecificValue::IntTensor { data: d, shape } && d == data && shape@
                == seq![rows, cols],
    {
        let mut shape: Vec<usize> = Vec::new();
        shape.push(rows);
        shape.push(cols);
        proof {
            assert(shape@ =~= seq![rows, cols]);
        }
        ModelSpecificValue::IntTensor { data, shape }
    }
}

/// The part of a preprocessor's output that prompts depend on.
pub struct PreprocessedEncoderInputs {
    /// How many feature tokens each media item takes.
    pub feature_token_counts: Vec<usize>,
    /// Further tensors by name.
    pub model_specific: StringHashMap<ModelSpecificValue>,
}

impl PreprocessedEncoderInputs {
    pub fn new(feature_token_counts: Vec<usize>) -> (r: PreprocessedEncoderInputs)
        ensures
            r.feature_token_counts == feature_token_counts,
            r.model_specific@ == Map::<Seq<char>, ModelSpecificValue>::empty(),
    {
        PreprocessedEncoderInputs { feature_token_counts, model_specific: StringHashMap::new() }
    }

    /// The same with one more tensor.
    pub fn with_extra(self, key: &str, value: ModelSpecificValue) -> (r: PreprocessedEncoderInputs)
        ensures
            r.feature_token_counts == self.feature_token_counts,
            r.model_specific@ == self.model_specific@.insert(key@, value),
    {
        let mut model_specific = self.model_specific;
        model_specific.insert(key.to_owned(), value);
        PreprocessedEncoderInputs {
            feature_token_counts: self.feature_token_counts,
            model_specific,
        }
    }
}

impl PreprocessedEncoderInputs {
    /// The integers of a tensor and its shape, where a tensor of that name holds
    /// integers.
    pub open spec fn integers_at(self, key: Seq<char>) -> Option<(Seq<i64>, Seq<usize>)> {
        if self.model_specific@.contains_key(key) {
            match self.model_specific@[key] {
                ModelSpecificValue::IntTensor { data, shape } => Some((data@, shape@)),
                _ => None,
            }
        } else {
            None
        }
    }

    /// The first number of a tensor, where a tensor of that name holds numbers.
    pub open spec fn first_number_at(self, key: Seq<char>) -> Option<Binary32> {
        if self.model_specific@.contains_key(key) {
            match self.model_specific@[key] {
                ModelSpecificValue::Tensor { data, .. } => if data@.len() > 0 {
                    Some(data@[0])
                } else {
                    None
                },
                _ => None,
            }
        } else {
            None
        }
    }

    /// The temporal depth of the one video of a request, where its grid is known.
    pub open spec fn single_grid_t(self) -> Option<usize> {
        match self.integers_at("video_grid_thw"@) {
            Some((data, shape)) => if shape == seq![1usize, 3usize] && data.len() > 0 {
                as_count(data[0])
            } else {
                None
            },
            None => None,
        }
    }

    /// The integers of a tensor and its shape.
    pub fn int_tensor(&self, key: &str) -> (r: Option<(&Vec<i64>, &Vec<usize>)>)
        ensures
            r is Some == self.integers_at(key@) is Some,
            r matches Some((data, shape)) ==> self.integers_at(key@) == Some((data@, shape@)),
    {
        match self.model_specific.get(key) {
            Some(ModelSpecificValue::IntTensor { data, shape }) => Some((data, shape)),
            _ => None,
        }
    }

    /// The first number of a tensor.
    pub fn first_number(&self, key: &str) -> (r: Option<Binary32>)
        ensures
            r == self.first_number_at(key@),
    {
        match self.model_specific.get(key) {
            Some(ModelSpecificValue::Tensor { data, .. }) => if data.len() > 0 {
                Some(data[0])
            } else {
                None
            },
            _ => None,
        }
    }

    /// The temporal depth of the one video of a request.
    pub fn video_grid_depth(&self) -> (r: Option<usize>)
        ensures
            r == self.single_grid_t(),
    {
        match self.int_tensor("video_grid_thw") {
            Some((data, shape)) => {
                proof {
                    if shape@.len() == 2 && shape@[0] == 1 && shape@[1] == 3 {
                        assert(shape@ =~= seq![1usize, 3usize]);
                    }
                }
                if shape.len() == 2 && shape[0] == 1 && shape[1] == 3 && data.len() > 0 {
                    to_count(data[0])
                } else {
                    None
                }
            },
            None => None,
        }
    }
}

/// An integer as a count, where it is one.
pub open spec fn as_count(n: i64) -> Option<usize> {
    if 0 <= n <= usize::MAX {
        Some(n as usize)
    } else {
        None
    }
}

/// An integer as a count.
pub fn to_count(n: i64) -> (r: Option<usize>)
    ensures
        r == as_count(n),
{
    if n >= 0 && n as u64 <= usize::MAX as u64 {
        Some(n as usize)
    } else {
        None
    }
}

/// Law: what is read of a preprocessor's tensors. Integers, and the first number,
/// come only of a tensor of that name and kind.
pub proof fn law_tensors_are_read_as_they_are(inputs: PreprocessedEncoderInputs, key: Seq<char>)
    ensures
        !inputs.model_specific@.contains_key(key) ==> inputs.integers_at(key) is None
            && inputs.first_number_at(key) is None,
        inputs.model_specific@.contains_key(key) ==> match inputs.model_specific@[key] {
            ModelSpecificValue::IntTensor { data, shape } => {
                &&& inputs.integers_at(key) == Some((data@, shape@))
                &&& inputs.first_number_at(key) is None
            },
            ModelSpecificValue::Tensor { data, shape } => {
                &&& inputs.integers_at(key) is None
                &&& data@.len() == 0 ==> inputs.first_number_at(key) is None
                &&& data@.len() > 0 ==> inputs.first_number_at(key) == Some(data@[0])
            },
        },
{
}

/// Law: the depth of a single video is the first entry of its grid, which is one
/// row of three.
pub proof fn law_single_depth_is_the_first_entry(inputs: PreprocessedEncoderInputs, depth: usize)
    ensures
        inputs.single_grid_t() == Some(depth) <==> {
            let grid = inputs.integers_at("video_grid_thw"@);
            &&& grid is Some
            &&& grid->Some_0.1.len() == 2
            &&& grid->Some_0.1[0] == 1
            &&& grid->Some_0.1[1] == 3
            &&& grid->Some_0.0.len() > 0
            &&& grid->Some_0.0[0] == depth
        },
{
    if let Some((data, shape)) = inputs.integers_at("video_grid_thw"@) {
        if shape.len() == 2 && shape[0] == 1 && shape[1] == 3 {
            assert(shape =~= seq![1usize, 3usize]);
        }
    }
}

} // verus!
