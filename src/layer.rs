use crate::codec::{be_u32, read_be_u32};
use crate::graph::{first_distance, node_bound, NdGraph, NO_EDGE};
use crate::stream::{out_of_memory, RandomAccess};
use crate::vio;
use std::io;
use vstd::prelude::*;

verus! {

/// One level of the index: a proximity graph and its level number.
pub struct HnswLayer {
    graph: NdGraph,
    level: u32,
}

/// An edge as it stands in a layer: two nodes and the bits of the distance.
pub type Edge = (u32, u32, u32);

/// The edges of one layer at `p` and the offset after its terminator, where
/// the bytes hold a whole edge list.
pub open spec fn edges_from(c: Seq<u8>, p: int) -> Option<(Seq<Edge>, int)>
    decreases c.len() - p,
{
    if p < 0 || p + 8 > c.len() {
        None
    } else {
        let a = be_u32(c.subrange(p, p + 4)) as u32;
        let b = be_u32(c.subrange(p + 4, p + 8)) as u32;
        if a == 0 && b == 0 {
            Some((Seq::empty(), p + 8))
        } else if p + 12 > c.len() {
            None
        } else {
            let d = be_u32(c.subrange(p + 8, p + 12)) as u32;
            match edges_from(c, p + 12) {
                Some((rest, end)) => Some((seq![(a, b, d)] + rest, end)),
                None => None,
            }
        }
    }
}

/// Whether no edge names the largest `u32`, which no dense id can reach.
pub open spec fn ids_in_range(s: Seq<Edge>) -> bool {
    forall|i: int| 0 <= i < s.len() ==> #[trigger] s[i].0 < u32::MAX && s[i].1 < u32::MAX
}

/// Whether `g` is the graph that `from_adj_list` builds from `s`.
pub open spec fn built_from(g: NdGraph, s: Seq<Edge>) -> bool {
    &&& g.wf()
    &&& g.spec_len() == node_bound(s)
    &&& g.spec_capacity() == node_bound(s)
    &&& forall|x: int, y: int|
        0 <= x < g.spec_len() && 0 <= y < g.spec_len() ==> #[trigger] g.cell(x, y) == match first_distance(
            s,
            x,
            y,
        ) {
            Some(d) => d,
            None => NO_EDGE,
        }
}

impl HnswLayer {
    pub closed spec fn spec_graph(&self) -> NdGraph {
        self.graph
    }

    pub closed spec fn spec_level(&self) -> u32 {
        self.level
    }

    pub fn new(graph: NdGraph, level: u32) -> (r: HnswLayer)
        ensures
            r.spec_graph() == graph,
            r.spec_level() == level,
    {
        HnswLayer { graph, level }
    }

    pub fn level(&self) -> (r: u32)
        ensures
            r == self.spec_level(),
    {
        self.level
    }

    pub fn graph(&self) -> (r: &NdGraph)
        ensures
            *r == self.spec_graph(),
    {
        &self.graph
    }

    pub fn is_empty(&self) -> (r: bool)
        ensures
            r == (self.spec_graph().spec_len() == 0),
    {
        self.graph.is_empty()
    }
}

fn read_u32<S: RandomAccess>(fd: &mut S) -> (r: Result<u32, io::Error>)
    requires
        0 <= old(fd).cursor(),
    ensures
        final(fd).content() == old(fd).content(),
        final(fd).infallible() == old(fd).infallible(),
        0 <= final(fd).cursor(),
        r is Ok ==> {
            &&& old(fd).cursor() + 4 <= old(fd).content().len()
            &&& r->Ok_0 == be_u32(old(fd).content().subrange(old(fd).cursor(), old(fd).cursor() + 4))
            &&& final(fd).cursor() == old(fd).cursor() + 4
        },
        old(fd).infallible() && old(fd).cursor() + 4 <= old(fd).content().len() ==> r is Ok,
{
    let ghost c = fd.content();
    let ghost p = fd.cursor();
    let bytes = fd.read_exact(4)?;
    assert(bytes@ =~= c.subrange(p, p + 4));
    Ok(read_be_u32(bytes.as_slice()))
}

/// Reads one layer at the stream's position: its level, then edges up to the
/// `0, 0` terminator. A level of 0 ends the layer section: `EOF`.
pub fn read<S: RandomAccess>(fd: &mut S) -> (r: Result<HnswLayer, vio::Error>)
    requires
        0 <= old(fd).cursor(),
    ensures
        final(fd).content() == old(fd).content(),
        final(fd).infallible() == old(fd).infallible(),
        0 <= final(fd).cursor(),
        r is Ok ==> {
            let c = old(fd).content();
            let p = old(fd).cursor();
            &&& p + 4 <= c.len()
            &&& be_u32(c.subrange(p, p + 4)) != 0
            &&& r->Ok_0.spec_level() == be_u32(c.subrange(p, p + 4))
            &&& edges_from(c, p + 4) is Some
            &&& final(fd).cursor() == edges_from(c, p + 4)->Some_0.1
            &&& built_from(r->Ok_0.spec_graph(), edges_from(c, p + 4)->Some_0.0)
        },
        r matches Err(vio::Error::EOF) ==> {
            let c = old(fd).content();
            let p = old(fd).cursor();
            p + 4 <= c.len() && be_u32(c.subrange(p, p + 4)) == 0 && final(fd).cursor() == p + 4
        },
        old(fd).infallible() ==> ({
            let c = old(fd).content();
            let p = old(fd).cursor();
            r is Ok <==> (p + 4 <= c.len() && be_u32(c.subrange(p, p + 4)) != 0 && edges_from(
                c,
                p + 4,
            ) is Some && ids_in_range(edges_from(c, p + 4)->Some_0.0))
        }),
        old(fd).infallible() ==> ({
            let c = old(fd).content();
            let p = old(fd).cursor();
            r matches Err(vio::Error::EOF) <==> (p + 4 <= c.len() && be_u32(c.subrange(p, p + 4))
                == 0)
        }),
{
    let ghost c = fd.content();
    let ghost p = fd.cursor();
    let level = match read_u32(fd) {
        Ok(l) => l,
        Err(e) => return Err(vio::Error::IO(e)),
    };
    if level == 0 {
        return Err(vio::Error::EOF);
    }
    let mut adj_list: Vec<Edge> = Vec::new();
    loop
        invariant_except_break
            edges_from(c, p + 4) == match edges_from(c, fd.cursor()) {
                Some((rest, end)) => Some((adj_list@ + rest, end)),
                None => None,
            },
        invariant
            fd.content() == c,
            c == old(fd).content(),
            p == old(fd).cursor(),
            0 <= p,
            fd.infallible() == old(fd).infallible(),
            p + 4 <= fd.cursor() <= c.len(),
            be_u32(c.subrange(p, p + 4)) == level,
            level != 0,
            ids_in_range(adj_list@),
        ensures
            edges_from(c, p + 4) == Some((adj_list@, fd.cursor())),
            fd.content() == c,
            fd.infallible() == old(fd).infallible(),
            0 <= fd.cursor(),
            ids_in_range(adj_list@),
        decreases c.len() - fd.cursor(),
    {
        let ghost q = fd.cursor();
        let a = match read_u32(fd) {
            Ok(v) => v,
            Err(e) => return Err(vio::Error::IO(e)),
        };
        let b = match read_u32(fd) {
            Ok(v) => v,
            Err(e) => return Err(vio::Error::IO(e)),
        };
        if a == 0 && b == 0 {
            assert(adj_list@ + Seq::<Edge>::empty() =~= adj_list@);
            break;
        }
        let distance = match read_u32(fd) {
            Ok(v) => v,
            Err(e) => return Err(vio::Error::IO(e)),
        };
        if a == u32::MAX || b == u32::MAX {
            proof {
                match edges_from(c, q + 12) {
                    Some((rest, end)) => {
                        let whole = adj_list@ + (seq![(a, b, distance)] + rest);
                        assert(whole[adj_list@.len() as int] == (a, b, distance));
                        assert(whole[adj_list@.len() as int].0 == a);
                        assert(whole[adj_list@.len() as int].1 == b);
                        assert(!ids_in_range(whole));
                    },
                    None => {},
                }
            }
            return Err(vio::Error::IO(out_of_memory()));
        }
        let ghost before = adj_list@;
        adj_list.push((a, b, distance));
        proof {
            match edges_from(c, q + 12) {
                Some((rest, end)) => {
                    assert(before + (seq![(a, b, distance)] + rest) =~= adj_list@ + rest);
                },
                None => {},
            }
        }
    }
    let graph = NdGraph::from_adj_list(adj_list);
    Ok(HnswLayer::new(graph, level))
}

} // verus!
