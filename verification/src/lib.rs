//! Simulation of horizontal gene transfers on a dated binary species tree.
//!
//! A species tree with branch lengths is read as elapsed time from the root.
//! A transfer moves a gene from one lineage, the donor, to another that
//! exists at the same time, the recipient; in the tree of the gene the
//! recipient then branches off the donor at the time of the transfer. This
//! crate draws such transfers at random and applies them, and so turns one
//! species tree into as many gene trees as are asked for.
//!
//! Time is counted in whole ticks, a millionth of a branch length unit each,
//! so that every sum and difference of times is exact and a time is written
//! with six decimals without rounding.
//!
//! The modules, in the order of the work:
//! - [`input`] cuts the input texts into trees and transfer counts;
//! - [`parse`] reads one tree from its text;
//! - [`node`] holds the owned tree and its conversion to and from the arena;
//! - [`arena`] holds the index-based tree that every later step works on;
//! - [`dating`] derives depths from lengths and lengths from depths;
//! - [`timeline`] finds the breakpoints, the intervals between them, and the
//!   lineages alive in each interval;
//! - [`sampler`] draws transfer events;
//! - [`mutator`] applies transfer events to an arena;
//! - [`simulate`] runs these steps for a species tree;
//! - [`newick`] writes trees and times as text;
//! - [`report`] shows arenas and trees for the eye.

pub mod arena;
pub mod dating;
pub mod input;
pub mod mutator;
pub mod newick;
pub mod node;
pub mod parse;
pub mod report;
pub mod sampler;
pub mod simulate;
pub mod timeline;
