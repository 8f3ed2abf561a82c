//! The loader boundary: walks a decoded adventure and turns every entry into
//! exactly one scene-construction request — a pure fan-out with no coupling
//! between entries. Performing the requests (placing tiles in a scene) is the
//! caller's concern.

use vstd::prelude::*;

use crate::adventure::Adventure;
use crate::adventure::AdventureNode;
use crate::adventure::ElemModel;
use crate::adventure::MapElement;
use crate::adventure::NodeDetails;
use crate::adventure::entries_map;
use crate::adventure::keys_distinct;
use crate::codec::CodecError;
use crate::codec::dec_entries;
use crate::codec::from_text;
use crate::pos::Pos;

verus! {

/// One scene-construction request: place a connective road tile, or a content
/// node tile tagged with the node's name and details, at a position.
#[derive(Clone, Debug, PartialEq, Eq)]
pub enum TileRequest {
    RoadTile(Pos),
    NodeTile(Pos, AdventureNode),
}

/// The graph entry that a request stands for.
pub open spec fn request_entry(r: TileRequest) -> (Pos, ElemModel) {
    match r {
        TileRequest::RoadTile(p) => (p, ElemModel::Road),
        TileRequest::NodeTile(p, n) => (
            p,
            ElemModel::Node { name: n.name@, details: n.details@ },
        ),
    }
}

pub open spec fn request_entries(rs: Seq<TileRequest>) -> Seq<(Pos, ElemModel)> {
    rs.map_values(|r: TileRequest| request_entry(r))
}

fn clone_details(d: &NodeDetails) -> (r: NodeDetails)
    ensures
        r@ == d@,
{
    match d {
        NodeDetails::Adventure(s) => NodeDetails::Adventure(s.clone()),
        NodeDetails::Level(s) => NodeDetails::Level(s.clone()),
    }
}

fn clone_node(n: &AdventureNode) -> (r: AdventureNode)
    ensures
        r.name@ == n.name@,
        r.details@ == n.details@,
{
    AdventureNode { name: n.name.clone(), details: clone_details(&n.details) }
}

/// Fan out a graph into requests: one request per entry, in entry order, each
/// carrying exactly its entry's position and content.
#[verifier::loop_isolation(false)]
pub fn plan_requests(a: &Adventure) -> (r: Vec<TileRequest>)
    ensures
        request_entries(r@) == a.entry_seq(),
{
    let es = a.entries();
    let n = es.len();
    let mut out: Vec<TileRequest> = Vec::new();
    let mut i: usize = 0;
    while i < n
        invariant
            n == es.len(),
            i <= n,
            request_entries(out@) == a.entry_seq().take(i as int),
        decreases n - i,
    {
        let ghost out0 = out@;
        proof {
            assert(a.entry_seq()[i as int] == (es@[i as int].0, es@[i as int].1@));
        }
        let p = es[i].0;
        match &es[i].1 {
            MapElement::Road => {
                out.push(TileRequest::RoadTile(p));
            },
            MapElement::Node(node) => {
                out.push(TileRequest::NodeTile(p, clone_node(node)));
            },
        }
        proof {
            assert(request_entries(out@) =~= a.entry_seq().take(i + 1)) by {
                assert(out@.drop_last() =~= out0);
                assert(request_entry(out@.last()) == a.entry_seq()[i as int]);
            }
        }
        i += 1;
    }
    proof {
        assert(a.entry_seq().take(n as int) =~= a.entry_seq());
    }
    out
}

/// Load an adventure from its text form and fan it out into one request per
/// entry. A file that does not parse is a format error, surfaced before any
/// request is produced: either the whole graph loads, or nothing does.
pub fn load_adventure(text: &Vec<char>) -> (r: Result<Vec<TileRequest>, CodecError>)
    ensures
        match (r, dec_entries(text@)) {
            (Ok(reqs), Some(es)) => entries_map(request_entries(reqs@)) == entries_map(es) && (
            keys_distinct(es) ==> request_entries(reqs@) == es),
            (Err(e), None) => e == CodecError::Format,
            _ => false,
        },
{
    match from_text(text) {
        Ok(a) => Ok(plan_requests(&a)),
        Err(e) => Err(e),
    }
}

} // verus!
