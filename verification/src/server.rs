//! What the HTTP service decides: the shapes of its requests and responses,
//! and how a submission request becomes a tile and a response.

use vstd::prelude::*;

use crate::engine::{submit_effect, GateRejection, PlatoEngine};
use crate::gate::gate_verdict_with_hashes;
use crate::ieee::Real64;
use crate::tile::{content_hash_of, new_tile_id, unix_now, Provenance, Tile, TileHash, TileView};

verus! {

/// Provenance as a submission request carries it.
#[derive(Debug)]
pub struct ProvenanceInput {
    pub agent_id: String,
    pub session_id: String,
    pub chain_hash: String,
    pub signature: String,
}

/// Request body for submitting a tile.
#[derive(Debug)]
pub struct SubmitRequest {
    pub room_id: String,
    pub domain: String,
    pub question: String,
    pub answer: String,
    pub source: String,
    pub confidence: Real64,
    /// Tags (empty when the request gives none).
    pub tags: Vec<String>,
    pub provenance: ProvenanceInput,
}

/// Response for tile submission.
#[derive(Debug)]
pub enum SubmitResponse {
    Success { hash: String, room_id: String },
    Rejected { reason: String, tile_id: Option<uuid::Uuid> },
}

/// Query parameters for room listing.
#[derive(Debug)]
pub struct ListRoomsQuery {
    pub prefix: Option<String>,
}

/// Query parameters for tile query.
#[derive(Debug)]
pub struct QueryTilesQuery {
    pub tag: Option<String>,
    /// At most this many tiles (`default_limit()` when not given).
    pub limit: usize,
}

/// The tile limit of a query that gives none.
pub fn default_limit() -> (n: usize)
    ensures
        n == 100,
{
    100
}

/// HTTP status of a successful submission.
pub const STATUS_OK: u16 = 200;

/// HTTP status of a rejected submission.
pub const STATUS_UNPROCESSABLE: u16 = 422;

impl SubmitRequest {
    /// The tile a request describes, with the given id and creation time.
    pub open spec fn tile_view(&self, id: uuid::Uuid, created_at: i64) -> TileView {
        TileView {
            id,
            domain: self.domain@,
            question: self.question@,
            answer: self.answer@,
            source: self.source@,
            confidence: self.confidence@,
            tags: self.tags.deep_view(),
            created_at,
            provenance: (
                self.provenance.agent_id@,
                self.provenance.session_id@,
                self.provenance.chain_hash@,
                self.provenance.signature@,
            ),
        }
    }

    /// The tile the request describes, with a fresh random id and the
    /// current time; and the room it is for.
    pub fn into_tile(self) -> (r: (String, Tile))
        ensures
            r.0@ == self.room_id@,
            r.1@ == self.tile_view(r.1.id, r.1.created_at),
            r.1.created_at >= 0,
    {
        let tile = Tile {
            id: new_tile_id(),
            domain: self.domain,
            question: self.question,
            answer: self.answer,
            source: self.source,
            confidence: self.confidence,
            tags: self.tags,
            created_at: unix_now(),
            provenance: Provenance {
                agent_id: self.provenance.agent_id,
                session_id: self.provenance.session_id,
                chain_hash: self.provenance.chain_hash,
                signature: self.provenance.signature,
            },
        };
        (self.room_id, tile)
    }
}

/// The answer to a submission's result: success answers 200 with the
/// content hash and the room; a rejection answers 422 with its reason and
/// the id of the tile it refused.
pub open spec fn answers(res: Result<TileHash, GateRejection>, room_id: Seq<char>, r: (u16, SubmitResponse)) -> bool {
    match res {
        Ok(h) => {
            &&& r.0 == STATUS_OK
            &&& r.1 matches SubmitResponse::Success { hash, room_id: rid }
            &&& hash@ == h@
            &&& rid@ == room_id
        },
        Err(j) => {
            &&& r.0 == STATUS_UNPROCESSABLE
            &&& r.1 matches SubmitResponse::Rejected { reason, tile_id }
            &&& reason@ == j.reason@
            &&& tile_id == j.tile_id
        },
    }
}

/// Handles a submission: the request's tile, with a fresh id and the
/// current time, goes through the engine exactly as `PlatoEngine::submit`
/// takes it (stored or counted as rejected); success answers 200 with the
/// content hash and room, a rejection answers 422 with the reason and that
/// tile's id. (Neither the quality gate's verdict nor the content hash depends on
/// a tile's id or creation time, so the last clause states them of the
/// request's tile with any id and time.)
pub fn submit_tile(engine: &mut PlatoEngine, req: SubmitRequest) -> (r: (u16, SubmitResponse))
    ensures
        old(engine).wf() ==> final(engine).wf(),
        exists|id: uuid::Uuid, created_at: i64, res: Result<TileHash, GateRejection>|
            #[trigger] submit_effect(
                *old(engine),
                req.room_id@,
                req.tile_view(id, created_at),
                *final(engine),
                res,
            ) && created_at >= 0 && answers(res, req.room_id@, r),
        ({
            let verdict = gate_verdict_with_hashes(
                &old(engine).config(),
                req.tile_view(arbitrary(), 0),
                old(engine).existing_hashes(req.room_id@),
            );
            match verdict {
                None => {
                    &&& r.0 == STATUS_OK
                    &&& r.1 matches SubmitResponse::Success { hash, room_id }
                    &&& room_id@ == req.room_id@
                    &&& hash@ == content_hash_of(req.tile_view(arbitrary(), 0))
                },
                Some(reason) => {
                    &&& r.0 == STATUS_UNPROCESSABLE
                    &&& r.1 matches SubmitResponse::Rejected { reason: rs, tile_id }
                    &&& rs@ == reason
                    &&& tile_id is Some
                },
            }
        }),
{
    let ghost rv = req.tile_view(arbitrary(), 0);
    let ghost rid = req.room_id@;
    let (room_id, tile) = req.into_tile();
    let ghost tv = tile@;
    assert(gate_verdict_with_hashes(&engine.config(), tv, engine.existing_hashes(rid))
        == gate_verdict_with_hashes(&engine.config(), rv, engine.existing_hashes(rid)));
    assert(content_hash_of(tv) == content_hash_of(rv));
    let ghost id = tile.id;
    let ghost created_at = tile.created_at;
    let ghost before = *engine;
    let res = engine.submit(room_id.as_str(), tile);
    let ghost res0 = res;
    proof {
        assert(tv == req.tile_view(id, created_at));
        assert(submit_effect(before, req.room_id@, req.tile_view(id, created_at), *engine, res0));
    }
    match res {
        Ok(hash) => (STATUS_OK, SubmitResponse::Success { hash, room_id }),
        Err(GateRejection { reason, tile_id }) => (
            STATUS_UNPROCESSABLE,
            SubmitResponse::Rejected { reason, tile_id },
        ),
    }
}

} // verus!
