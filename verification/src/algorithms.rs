//! The coloring heuristics and the model of colorings they share.

pub mod candidates;
pub mod coloring;
pub mod conflicts;
pub mod construction;
pub mod grasp;
pub mod improvement;
pub mod local_search;
mod random;

pub use crate::algorithms::coloring::{
    check_viability, count_forbidden_per_vertex, get_coloring_from_class_list,
};
