//! Reconciles a surveyed list of mountain peaks with the peak nodes of a
//! crowd-sourced map, and says how the map has to be edited to reflect the
//! survey.
//!
//! The map nodes that have a position are put into a [`SpatialIndex`]. Each
//! survey record is then held against the nodes within the search radius
//! that bear its name: none makes a new node, one is updated, several leave
//! the record aside. The decisions become the node elements of a diff.
//!
//! All quantities are whole numbers: grid positions in metres, angles in
//! units of 1e-7 degree, heights in units of 1e-7 metre. Projecting
//! latitude and longitude onto the grid is left to the caller, who hands in
//! every node and every record with its grid position.

pub mod config;
pub mod emit;
pub mod error;
pub mod index;
pub mod markup;
pub mod node;
pub mod planar;
pub mod resolve;
pub mod sequences;
pub mod survey;
pub mod tags;
pub mod text;

pub use config::{Config, DEFAULT_PROJECTION_ZONE, DEFAULT_SEARCH_RADIUS};
pub use emit::{emit, reconcile, EditAction, NodeEdit};
pub use error::LoadError;
pub use index::{build_index, Candidate, IndexError, SpatialIndex};
pub use markup::{render, Attribute, MarkupEvent};
pub use node::{marks_peak, select_peaks, MapNode};
pub use planar::{integer_sqrt, PlanarPoint};
pub use resolve::{decide, resolve_all, MatchDecision, SkipReason};
pub use survey::{sort_by_name, SurveyPeak, MILLIFEET_PER_FOOT};
pub use tags::Tag;
pub use text::ANGLE_UNITS_PER_DEGREE;
