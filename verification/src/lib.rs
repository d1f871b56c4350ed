//! # plato_engine
//!
//! The PLATO tile engine: tile lifecycle (submit, gate, store, query), room
//! management, and navigation between rooms over a tag-based adjacency graph.

pub mod engine;
pub mod gate;
pub mod graph;
pub mod ieee;
pub mod pathfinder;
pub mod room;
pub mod server;
pub mod text;
pub mod tile;

pub use engine::{EngineStats, GateRejection, HealthStatus, PlatoEngine};
pub use gate::{Gate, GateConfig, GateDecision};
pub use ieee::Real64;
pub use pathfinder::{Pathfinder, RoomHop};
pub use room::{Room, RoomStats};
pub use tile::{Provenance, TileBuildError, TileBuilder, TileHash, TileValidationError};

use vstd::prelude::*;

use crate::ieee::at_least_half;

verus! {

/// A PLATO tile with metadata and content.
#[derive(Debug, Clone)]
pub struct Tile {
    /// Unique tile identifier.
    pub id: u64,
    /// Room this tile belongs to.
    pub room: String,
    /// Tags for adjacency graph navigation.
    pub tags: Vec<String>,
    /// Quality score from gating pipeline.
    pub quality_score: Real64,
    /// Tile content as opaque bytes.
    pub content: Vec<u8>,
}

/// Quality gate result for a submitted tile.
#[derive(Debug, Clone)]
pub struct GateResult {
    pub passed: bool,
    pub score: Real64,
    pub reason: Option<String>,
}

/// Default quality gate: passes tiles with score >= 0.5.
pub fn default_gate(tile: &Tile) -> (r: GateResult)
    ensures
        r.passed == at_least_half(tile.quality_score.bits),
        r.score@ == tile.quality_score@,
        r.passed ==> r.reason is None,
        !r.passed ==> (r.reason matches Some(s) && s@ == "below threshold"@),
{
    let passed = tile.quality_score.is_at_least_half();
    GateResult {
        passed,
        score: tile.quality_score.duplicate(),
        reason: if passed {
            None
        } else {
            Some(String::from_str("below threshold"))
        },
    }
}

} // verus!
