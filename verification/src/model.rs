//! The statistics-graph and positioned-scene documents.
//!
//! Ids are address strings (or a sentinel for unresolved hops); a node's view
//! carries the id as its UTF-8 bytes, which is also the order the ids sort in.
//! Round-trip times are carried in integer microseconds so that every derived
//! quantity is exact.

use vstd::prelude::*;
use vstd::utf8::encode_utf8;
use crate::vec3::Vec3q;

verus! {

/// A measured network node.
#[derive(Clone, Debug, PartialEq)]
pub struct Node {
    pub id: String,
    pub seen: u32,
    pub loss_probes: u32,
}

pub struct NodeView {
    pub id: Seq<u8>,
    pub seen: u32,
    pub loss_probes: u32,
}

impl View for Node {
    type V = NodeView;

    open spec fn view(&self) -> NodeView {
        NodeView { id: encode_utf8(self.id@), seen: self.seen, loss_probes: self.loss_probes }
    }
}

/// A measured directed link. `rtt_delta_us` is the average step delta in
/// microseconds (may be negative).
#[derive(Clone, Debug, PartialEq)]
pub struct Edge {
    pub from: String,
    pub to: String,
    pub seen: u32,
    pub rtt_delta_us: i64,
}

pub struct EdgeView {
    pub from: Seq<u8>,
    pub to: Seq<u8>,
    pub seen: u32,
    pub rtt_delta_us: i64,
}

impl View for Edge {
    type V = EdgeView;

    open spec fn view(&self) -> EdgeView {
        EdgeView {
            from: encode_utf8(self.from@),
            to: encode_utf8(self.to@),
            seen: self.seen,
            rtt_delta_us: self.rtt_delta_us,
        }
    }
}

/// One traceroute hop: its TTL, the responding address if any, and the
/// round-trip time of each probe in integer microseconds (None = loss).
#[derive(Clone, Debug, PartialEq)]
pub struct Hop {
    pub ttl: u32,
    pub ip: Option<String>,
    pub rtt_micros: Vec<Option<u64>>,
}

pub struct HopView {
    pub ttl: u32,
    pub ip: Option<Seq<char>>,
    pub rtt_micros: Seq<Option<u64>>,
}

impl View for Hop {
    type V = HopView;

    open spec fn view(&self) -> HopView {
        HopView {
            ttl: self.ttl,
            ip: match self.ip {
                Option::Some(s) => Option::Some(s@),
                Option::None => Option::None,
            },
            rtt_micros: self.rtt_micros@,
        }
    }
}

/// The versioned statistics-graph document.
#[derive(Clone, Debug, PartialEq)]
pub struct GraphFile {
    pub version: u32,
    pub nodes: Vec<Node>,
    pub edges: Vec<Edge>,
}

pub struct GraphView {
    pub version: u32,
    pub nodes: Seq<NodeView>,
    pub edges: Seq<EdgeView>,
}

impl View for GraphFile {
    type V = GraphView;

    open spec fn view(&self) -> GraphView {
        GraphView {
            version: self.version,
            nodes: Seq::new(self.nodes@.len(), |i: int| self.nodes@[i]@),
            edges: Seq::new(self.edges@.len(), |i: int| self.edges@[i]@),
        }
    }
}

/// A laid-out node: the source node plus its fixed-point position.
#[derive(Clone, Debug, PartialEq)]
pub struct SceneNode {
    pub id: String,
    pub position: Vec3q,
    pub seen: u32,
    pub loss_probes: u32,
}

pub struct SceneNodeView {
    pub id: Seq<u8>,
    pub position: Vec3q,
    pub seen: u32,
    pub loss_probes: u32,
}

impl View for SceneNode {
    type V = SceneNodeView;

    open spec fn view(&self) -> SceneNodeView {
        SceneNodeView {
            id: encode_utf8(self.id@),
            position: self.position,
            seen: self.seen,
            loss_probes: self.loss_probes,
        }
    }
}

/// A scene edge: a graph edge copied through the layout unchanged.
#[derive(Clone, Debug, PartialEq)]
pub struct SceneEdge {
    pub from: String,
    pub to: String,
    pub seen: u32,
    pub rtt_delta_us: i64,
}

pub struct SceneEdgeView {
    pub from: Seq<u8>,
    pub to: Seq<u8>,
    pub seen: u32,
    pub rtt_delta_us: i64,
}

impl View for SceneEdge {
    type V = SceneEdgeView;

    open spec fn view(&self) -> SceneEdgeView {
        SceneEdgeView {
            from: encode_utf8(self.from@),
            to: encode_utf8(self.to@),
            seen: self.seen,
            rtt_delta_us: self.rtt_delta_us,
        }
    }
}

/// The versioned positioned-scene document.
#[derive(Clone, Debug, PartialEq)]
pub struct SceneFile {
    pub version: u32,
    pub nodes: Vec<SceneNode>,
    pub edges: Vec<SceneEdge>,
}

pub struct SceneView {
    pub version: u32,
    pub nodes: Seq<SceneNodeView>,
    pub edges: Seq<SceneEdgeView>,
}

impl View for SceneFile {
    type V = SceneView;

    open spec fn view(&self) -> SceneView {
        SceneView {
            version: self.version,
            nodes: Seq::new(self.nodes@.len(), |i: int| self.nodes@[i]@),
            edges: Seq::new(self.edges@.len(), |i: int| self.edges@[i]@),
        }
    }
}

} // verus!
