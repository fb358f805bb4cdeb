//! A dialogue-graph library: an authored store of dialogue nodes keyed by
//! identifier, and a derived navigator that builds a directed graph of the
//! node transitions and checks it for cycles, unreachable nodes, and
//! dead-end paths.

pub mod data;
pub mod graph;
pub mod laws;
pub mod model;
pub mod pgraph;

pub use graph::{ChoiceInfo, DialogueGraphNavigator, ValidationError};
pub use data::{
    ChoiceId, DialogueChoice, DialogueContent, DialogueGraph, DialogueNext, DialogueNode, NodeId,
    SpeakerInfo,
};
