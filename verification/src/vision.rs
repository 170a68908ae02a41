//! A checkpoint's preprocessor configuration.
use crate::float::binary32::Binary32;
use crate::float::binary64::Binary64;
use vstd::hash_map::StringHashMap;
use vstd::prelude::*;

verus! {

/// A configuration field outside the common ones, read as each of the types
/// that a model may ask for; `None` where it is not of that type.
#[derive(Debug, Clone, Copy)]
pub struct ExtraField {
    pub as_count: Option<usize>,
    pub as_single: Option<Binary32>,
    pub as_double: Option<Binary64>,
}

/// The part of a preprocessor configuration that video sampling depends on.
pub struct PreProcessorConfig {
    /// Fields outside the common ones, by name.
    pub extra: StringHashMap<ExtraField>,
}

impl PreProcessorConfig {
    pub fn new() -> (r: PreProcessorConfig)
        ensures
            r.extra@ == Map::<Seq<char>, ExtraField>::empty(),
    {
        PreProcessorConfig { extra: StringHashMap::new() }
    }

    pub open spec fn count_at(self, key: Seq<char>) -> Option<usize> {
        if self.extra@.contains_key(key) {
            self.extra@[key].as_count
        } else {
            None
        }
    }

    pub open spec fn single_at(self, key: Seq<char>) -> Option<Binary32> {
        if self.extra@.contains_key(key) {
            self.extra@[key].as_single
        } else {
            None
        }
    }

    pub open spec fn double_at(self, key: Seq<char>) -> Option<Binary64> {
        if self.extra@.contains_key(key) {
            self.extra@[key].as_double
        } else {
            None
        }
    }

    /// A further field as a count.
    pub fn get_extra_count(&self, key: &str) -> (r: Option<usize>)
        ensures
            r == self.count_at(key@),
    {
        match self.extra.get(key) {
            Some(field) => field.as_count,
            None => None,
        }
    }

    /// A further field as a number of single precision.
    pub fn get_extra_single(&self, key: &str) -> (r: Option<Binary32>)
        ensures
            r == self.single_at(key@),
    {
        match self.extra.get(key) {
            Some(field) => field.as_single,
            None => None,
        }
    }

    /// A further field as a number of double precision.
    pub fn get_extra_double(&self, key: &str) -> (r: Option<Binary64>)
        ensures
            r == self.double_at(key@),
    {
        match self.extra.get(key) {
            Some(field) => field.as_double,
            None => None,
        }
    }
}

} // verus!
