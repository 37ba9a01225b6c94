//! Rewriting passes over surfaces.

pub mod clusters;
pub mod group_extracted;
pub mod laws;
pub mod relocation;
mod search;
mod tracer;

pub use self::group_extracted::{
    check_groups, extract_groups, find_extracted_groups, group_extracted, merge_extract_groups,
    ExtractError, ExtractGroup, GroupExtractor, ValueGroupData,
};
