//! The decision core of a personal, operator-supervised knowledge base: a two-phase
//! proposal gate in front of every mutation, a deterministic confidence recalculation,
//! tag suggestion for recorded episodes, clustering of the relation graph, the operator's
//! command grammar and the text handling of fetched pages. The store, the terminal and
//! the external tools stay outside: this crate decides, its caller performs.
use vstd::prelude::*;

pub mod command;
pub mod confidence;
pub mod gaps;
pub mod graph;
pub mod order;
pub mod proposal;
pub mod records;
pub mod scan;
pub mod screen;
pub mod search;
pub mod tags;
pub mod text;
