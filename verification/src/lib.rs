//! Approximate Network Matching, Integration, and Enrichment
//!
//! Source and target line strings are matched line by line: two lines match where they have a
//! similar direction, lie beside each other in part, and are not far apart. The length that they
//! share is then the weight with which attributes move from a source to a target.
pub mod anime;
pub mod direction_laws;
pub mod double;
pub mod geometry;
pub mod laws;
pub mod lines_array;
pub mod match_laws;
pub mod matches;
pub mod number_laws;
pub mod overlap;
pub mod py_anime;
pub mod rounding;
pub mod search_laws;
pub mod shape_laws;
pub mod table_laws;
pub mod tree;

pub use crate::anime::{Anime, AnimeError, Matches};
pub use crate::double::Double;
pub use crate::geometry::{Coord, Line, LineString, Rect};
pub use crate::matches::{MatchCandidate, MatchesMap, TargetIndex};
pub use crate::tree::{SourceTree, TarLine, TargetTree};
