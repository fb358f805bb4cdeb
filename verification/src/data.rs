//! The authored dialogue content: nodes keyed by identifier, each holding
//! display content and a transition relation, plus a designated start node.

use vstd::prelude::*;

verus! {

broadcast use vstd::std_specs::hash::group_hash_axioms;

/// Unique identifier for dialogue nodes.
#[derive(Debug, Clone, Copy, PartialEq, Eq, Hash, Structural)]
pub struct NodeId(pub u64);

/// Unique identifier for dialogue choices, scoped within its owning node.
#[derive(Debug, Clone, Copy, PartialEq, Eq, Hash, Structural)]
pub struct ChoiceId(pub u64);

/// Information about who is speaking.
#[derive(Debug, Clone)]
pub struct SpeakerInfo {
    /// Name of the speaker.
    pub name: String,
    /// Portrait to display.
    pub portrait: String,
    /// Variation of the portrait (for example "angry" or "happy").
    pub variation: Option<String>,
}

/// The content displayed for a dialogue node.
#[derive(Debug, Clone)]
pub struct DialogueContent {
    /// The text to display.
    pub text: String,
    /// Speaker information, if any.
    pub speaker: Option<SpeakerInfo>,
}

/// A choice option in a dialogue.
#[derive(Debug, Clone)]
pub struct DialogueChoice {
    /// Unique identifier.
    pub id: ChoiceId,
    /// Text displayed for this choice.
    pub text: String,
    /// The node this choice leads to.
    pub next_node: NodeId,
}

/// What comes after a node: either a single successor (or none, meaning an
/// explicit ending) or a list of player-facing choices.
#[derive(Debug, Clone)]
pub enum DialogueNext {
    /// A single next node, or `None` for an explicit terminal.
    Single(Option<NodeId>),
    /// Multiple choices leading to different nodes.
    Choices(Vec<DialogueChoice>),
}

/// A single node in the dialogue graph.
#[derive(Debug, Clone)]
pub struct DialogueNode {
    /// Unique identifier.
    pub id: NodeId,
    /// Content of this node.
    pub content: DialogueContent,
    /// Transition relation: a single successor or a set of choices.
    pub next: DialogueNext,
}

/// A complete dialogue graph: all nodes, keyed by the `u64` value of their
/// `NodeId`, and the designated start node. Keys are unique; insertion order
/// is irrelevant.
#[derive(Debug, Clone)]
pub struct DialogueGraph {
    /// All nodes in the graph, keyed by `NodeId` value.
    pub nodes: std::collections::HashMap<u64, DialogueNode>,
    /// Starting node ID.
    pub start_node: NodeId,
}

impl DialogueGraph {
    /// Constructs an empty graph with the given start identifier.
    /// No validation is performed at construction.
    pub fn new(start_node: NodeId) -> (g: DialogueGraph)
        ensures
            g.nodes@ == Map::<u64, DialogueNode>::empty(),
            g.start_node == start_node,
    {
        DialogueGraph { nodes: std::collections::HashMap::new(), start_node }
    }

    /// Inserts or replaces the node keyed by its own identifier: re-adding a
    /// `NodeId` replaces the prior content.
    pub fn add_node(&mut self, node: DialogueNode)
        ensures
            final(self).nodes@ == old(self).nodes@.insert(node.id.0, node),
            final(self).start_node == old(self).start_node,
    {
        let key = node.id.0;
        self.nodes.insert(key, node);
    }

    /// Looks a node up by identifier; `None` means no node with that
    /// identifier exists. A missing id is not an error at this layer.
    pub fn get_node(&self, id: NodeId) -> (r: Option<&DialogueNode>)
        ensures
            match r {
                Some(n) => self.nodes@.contains_key(id.0) && *n == self.nodes@[id.0],
                None => !self.nodes@.contains_key(id.0),
            },
    {
        self.nodes.get(&id.0)
    }
}

} // verus!
