//! Finds which samples of different GPS tracks lie at the same place: a
//! correspondence map between tracks built by exhaustive pairwise
//! comparison, its persisted text form, and nearest-neighbour queries over
//! the points of one track.

use vstd::prelude::*;

pub mod artifact;
pub mod builder;
pub mod coord;
pub mod corrmap;
pub mod error;
pub mod listing;
pub mod nearest;
pub mod pairs;
pub mod paths;
pub mod store;
mod text;
pub mod track;

pub use artifact::{load, save};
pub use builder::{build_correspondences, matches_for_pair};
pub use coord::Coord;
pub use corrmap::{find_common_coords_indexes, indexes_to_coords, CorrespondenceMap};
pub use error::TrackError;
pub use listing::{Mode, VecOrHashMap};
pub use nearest::{nearest, ranking};
pub use pairs::get_unique_pairs;
pub use paths::{file_name_to_path_buf, get_final_json_path, read_file_name};
pub use store::TrackStore;
pub use track::decode_track;

verus! {

} // verus!
