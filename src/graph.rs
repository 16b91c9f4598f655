use std::collections::HashMap;
use vstd::prelude::*;

verus! {

/// Bit pattern of single-precision positive infinity: the mark of a missing
/// edge.
pub const NO_EDGE: u32 = 0x7f80_0000;

/// Whether the single-precision value with these bits is below positive
/// infinity: neither +inf nor a NaN.
pub open spec fn below_infinity(bits: u32) -> bool {
    bits != NO_EDGE && bits % 0x8000_0000 <= NO_EDGE
}

fn is_below_infinity(bits: u32) -> (r: bool)
    ensures
        r == below_infinity(bits),
{
    bits != NO_EDGE && bits % 0x8000_0000 <= NO_EDGE
}

/// An edge list: two nodes and the bits of their distance.
pub type AdjList = Vec<(u32, u32, u32)>;

#[derive(Debug, PartialEq, Eq, Structural)]
pub enum NdgError {
    /// The smallest length that the ids asked for need, and the length.
    ExceedBoundary(u64, u32),
}

/// A weighted non-directional graph over the dense ids `0..len`, kept as a
/// lower-triangular matrix: the pair `(a, b)` lives in row `max(a, b)`,
/// column `min(a, b)`.
pub struct NdGraph {
    len: u32,
    capacity: u32,
    adjacent_matrix: Vec<Vec<u32>>,
}

pub open spec fn spec_max(a: int, b: int) -> int {
    if a >= b {
        a
    } else {
        b
    }
}

pub open spec fn spec_min(a: int, b: int) -> int {
    if a >= b {
        b
    } else {
        a
    }
}

/// Whether `{x, y}` and `{a, b}` are the same unordered pair.
pub open spec fn same_pair(x: int, y: int, a: int, b: int) -> bool {
    (x == a && y == b) || (x == b && y == a)
}

/// One more than the largest node that an edge list names; 0 for no edges.
pub open spec fn node_bound(s: Seq<(u32, u32, u32)>) -> nat
    decreases s.len(),
{
    if s.len() == 0 {
        0
    } else {
        let e = s.last();
        let top = (spec_max(e.0 as int, e.1 as int) + 1) as nat;
        let rest = node_bound(s.drop_last());
        if rest >= top {
            rest
        } else {
            top
        }
    }
}

/// The distance of the first edge in the list that joins `x` and `y`.
pub open spec fn first_distance(s: Seq<(u32, u32, u32)>, x: int, y: int) -> Option<u32>
    decreases s.len(),
{
    if s.len() == 0 {
        None
    } else if same_pair(x, y, s[0].0 as int, s[0].1 as int) {
        Some(s[0].2)
    } else {
        first_distance(s.subrange(1, s.len() as int), x, y)
    }
}

/// The distance of the last edge in the list that joins `x` and `y`.
pub open spec fn last_distance(s: Seq<(u32, u32, u32)>, x: int, y: int) -> Option<u32>
    decreases s.len(),
{
    if s.len() == 0 {
        None
    } else if same_pair(x, y, s.last().0 as int, s.last().1 as int) {
        Some(s.last().2)
    } else {
        last_distance(s.drop_last(), x, y)
    }
}

/// Whether some edge of the list has `x` at one end.
pub open spec fn endpoint(s: Seq<(u32, u32, u32)>, x: u32) -> bool {
    exists|i: int| 0 <= i < s.len() && (#[trigger] s[i].0 == x || s[i].1 == x)
}

proof fn lemma_last_distance_symmetric(s: Seq<(u32, u32, u32)>, x: int, y: int)
    ensures
        last_distance(s, x, y) == last_distance(s, y, x),
    decreases s.len(),
{
    if s.len() > 0 {
        lemma_last_distance_symmetric(s.drop_last(), x, y);
    }
}

proof fn lemma_no_edge_without_endpoint(s: Seq<(u32, u32, u32)>, x: u32, y: int)
    requires
        !endpoint(s, x),
    ensures
        last_distance(s, x as int, y) is None,
    decreases s.len(),
{
    if s.len() > 0 {
        assert(!(s[s.len() - 1].0 == x || s[s.len() - 1].1 == x));
        assert forall|i: int| 0 <= i < s.drop_last().len() implies !(#[trigger] s.drop_last()[i].0 == x
            || s.drop_last()[i].1 == x) by {
            assert(s.drop_last()[i] == s[i]);
        }
        lemma_no_edge_without_endpoint(s.drop_last(), x, y);
    }
}

/// What `connect(a, b, d)` makes of a graph: the pair `{a, b}` holds `d`
/// and every other pair keeps its bits.
pub open spec fn connected(before: NdGraph, after: NdGraph, a: int, b: int, d: u32) -> bool {
    &&& after.wf()
    &&& after.spec_len() == before.spec_len()
    &&& after.spec_capacity() == before.spec_capacity()
    &&& after.cell(a, b) == d
    &&& forall|x: int, y: int|
        0 <= x < before.spec_len() && 0 <= y < before.spec_len() && !same_pair(x, y, a, b)
            ==> #[trigger] after.cell(x, y) == before.cell(x, y)
}

/// After `connect(a, b, d)` with a distance below infinity, the distance
/// from `a` to `b` and from `b` to `a` are both `d`.
pub proof fn lemma_connect_symmetric(before: NdGraph, after: NdGraph, a: u32, b: u32, d: u32)
    requires
        connected(before, after, a as int, b as int, d),
        below_infinity(d),
    ensures
        after.edge(a as int, b as int) == Some(d),
        after.edge(b as int, a as int) == Some(d),
{
    NdGraph::lemma_cell_symmetric(after, a as int, b as int);
}

impl NdGraph {
    pub closed spec fn spec_len(&self) -> nat {
        self.len as nat
    }

    pub closed spec fn spec_capacity(&self) -> nat {
        self.capacity as nat
    }

    /// The bits stored for the pair `{a, b}`.
    pub closed spec fn cell(&self, a: int, b: int) -> u32 {
        self.adjacent_matrix@[spec_max(a, b)]@[spec_min(a, b)]
    }

    /// The distance between two nodes, if they are joined.
    pub open spec fn edge(&self, a: int, b: int) -> Option<u32> {
        if below_infinity(self.cell(a, b)) {
            Some(self.cell(a, b))
        } else {
            None
        }
    }

    pub proof fn lemma_cell_symmetric(g: NdGraph, a: int, b: int)
        ensures
            g.cell(a, b) == g.cell(b, a),
    {
    }

    pub closed spec fn wf(&self) -> bool {
        &&& self.len <= self.capacity
        &&& self.adjacent_matrix@.len() == self.capacity
        &&& forall|r: int|
            0 <= r < self.capacity ==> #[trigger] self.adjacent_matrix@[r]@.len() == r + 1
        &&& forall|r: int, c: int|
            0 <= c <= r < self.capacity && r >= self.len ==> #[trigger] self.adjacent_matrix@[r]@[c]
                == NO_EDGE
    }

    fn infinite_row(n: usize) -> (r: Vec<u32>)
        ensures
            r@.len() == n,
            forall|i: int| 0 <= i < n ==> r@[i] == NO_EDGE,
    {
        let mut row: Vec<u32> = Vec::with_capacity(n);
        let mut i: usize = 0;
        while i < n
            invariant
                0 <= i <= n,
                row@.len() == i,
                forall|j: int| 0 <= j < i ==> row@[j] == NO_EDGE,
            decreases n - i,
        {
            row.push(NO_EDGE);
            i = i + 1;
        }
        row
    }

    pub fn new() -> (r: NdGraph)
        ensures
            r.wf(),
            r.spec_len() == 0,
            r.spec_capacity() == 0,
    {
        NdGraph { len: 0, capacity: 0, adjacent_matrix: Vec::new() }
    }

    /// An empty graph with room for `capacity` nodes.
    pub fn with_capacity(capacity: u32) -> (r: NdGraph)
        ensures
            r.wf(),
            r.spec_len() == 0,
            r.spec_capacity() == capacity,
            forall|a: int, b: int|
                0 <= a < capacity && 0 <= b < capacity ==> #[trigger] r.cell(a, b) == NO_EDGE,
    {
        let mut g = NdGraph { len: 0, capacity: 0, adjacent_matrix: Vec::new() };
        g.grow_rows(capacity);
        g
    }

    /// Appends rows of missing edges until there are `capacity` of them.
    fn grow_rows(&mut self, capacity: u32)
        requires
            old(self).wf(),
            old(self).capacity <= capacity,
        ensures
            final(self).wf(),
            final(self).len == old(self).len,
            final(self).capacity == capacity,
            forall|a: int, b: int|
                0 <= a < old(self).capacity && 0 <= b < old(self).capacity ==> #[trigger] final(
                    self).cell(a, b) == old(self).cell(a, b),
            forall|a: int, b: int|
                0 <= a < capacity && 0 <= b < capacity && !(a < old(self).capacity && b < old(
                    self).capacity) ==> #[trigger] final(self).cell(a, b) == NO_EDGE,
    {
        let ghost start = self.capacity;
        while self.capacity < capacity
            invariant
                self.wf(),
                start <= self.capacity <= capacity,
                self.len == old(self).len,
                start == old(self).capacity,
                forall|r: int| 0 <= r < start ==> #[trigger] self.adjacent_matrix@[r] == old(
                    self).adjacent_matrix@[r],
                forall|r: int, c: int|
                    start <= r < self.capacity && 0 <= c <= r ==> #[trigger] self.adjacent_matrix@[r]@[c]
                        == NO_EDGE,
            decreases capacity - self.capacity,
        {
            let row = Self::infinite_row(self.capacity as usize + 1);
            self.adjacent_matrix.push(row);
            self.capacity = self.capacity + 1;
        }
    }

    pub fn len(&self) -> (r: u32)
        ensures
            r == self.spec_len(),
    {
        self.len
    }

    pub fn capacity(&self) -> (r: u32)
        ensures
            r == self.spec_capacity(),
    {
        self.capacity
    }

    pub fn is_empty(&self) -> (r: bool)
        ensures
            r == (self.spec_len() == 0),
    {
        self.len == 0
    }

    /// Sets the distance between `a` and `b`, in either direction.
    pub fn connect(&mut self, a: u32, b: u32, distance: u32) -> (r: Result<(), NdgError>)
        requires
            old(self).wf(),
        ensures
            final(self).wf(),
            final(self).spec_len() == old(self).spec_len(),
            final(self).spec_capacity() == old(self).spec_capacity(),
            (a >= old(self).spec_len() || b >= old(self).spec_len()) ==> {
                &&& r == Err::<(), NdgError>(
                    NdgError::ExceedBoundary((spec_max(a as int, b as int) + 1) as u64, old(self).spec_len() as u32),
                )
                &&& *final(self) == *old(self)
            },
            (a < old(self).spec_len() && b < old(self).spec_len()) ==> {
                &&& r is Ok
                &&& connected(*old(self), *final(self), a as int, b as int, distance)
            },
    {
        if a >= self.len || b >= self.len {
            let top: u64 = if a > b { a as u64 } else { b as u64 };
            return Err(NdgError::ExceedBoundary(top + 1, self.len));
        }
        let (hi, lo) = if a > b { (a, b) } else { (b, a) };
        self.adjacent_matrix[hi as usize].set(lo as usize, distance);
        Ok(())
    }

    /// The distance between `a` and `b`, `None` where they are not joined.
    pub fn get_vertice(&self, a: u32, b: u32) -> (r: Result<Option<u32>, NdgError>)
        requires
            self.wf(),
        ensures
            (a >= self.spec_len() || b >= self.spec_len()) ==> r == Err::<Option<u32>, NdgError>(
                NdgError::ExceedBoundary((spec_max(a as int, b as int) + 1) as u64, self.spec_len() as u32),
            ),
            (a < self.spec_len() && b < self.spec_len()) ==> r == Ok::<Option<u32>, NdgError>(
                self.edge(a as int, b as int),
            ),
    {
        if a >= self.len || b >= self.len {
            let top: u64 = if a > b { a as u64 } else { b as u64 };
            return Err(NdgError::ExceedBoundary(top + 1, self.len));
        }
        let (hi, lo) = if a > b { (a, b) } else { (b, a) };
        let dis = self.adjacent_matrix[hi as usize][lo as usize];
        Ok(if is_below_infinity(dis) { Some(dis) } else { None })
    }

    fn cell_at(&self, a: u32, b: u32) -> (r: u32)
        requires
            self.wf(),
            a < self.spec_len(),
            b < self.spec_len(),
        ensures
            r == self.cell(a as int, b as int),
    {
        if a > b {
            self.adjacent_matrix[a as usize][b as usize]
        } else {
            self.adjacent_matrix[b as usize][a as usize]
        }
    }

    /// The nodes joined to `query_node`, in ascending order; none for a node
    /// out of range.
    pub fn get_neighbors(&self, query_node: u32) -> (r: Vec<u32>)
        requires
            self.wf(),
        ensures
            query_node >= self.spec_len() ==> r@.len() == 0,
            forall|i: int|
                0 <= i < r@.len() ==> #[trigger] r@[i] < self.spec_len() && self.edge(
                    query_node as int,
                    r@[i] as int,
                ) is Some,
            query_node < self.spec_len() ==> forall|n: int|
                0 <= n < self.spec_len() && #[trigger] self.edge(query_node as int, n) is Some
                    ==> r@.contains(n as u32),
            forall|i: int, j: int| 0 <= i < j < r@.len() ==> r@[i] < r@[j],
    {
        let mut out: Vec<u32> = Vec::new();
        if query_node >= self.len {
            return out;
        }
        let mut n: u32 = 0;
        while n < self.len
            invariant
                self.wf(),
                query_node < self.spec_len(),
                0 <= n <= self.spec_len(),
                forall|i: int|
                    0 <= i < out@.len() ==> #[trigger] out@[i] < n && self.edge(
                        query_node as int,
                        out@[i] as int,
                    ) is Some,
                forall|m: int|
                    0 <= m < n && #[trigger] self.edge(query_node as int, m) is Some
                        ==> out@.contains(m as u32),
                forall|i: int, j: int| 0 <= i < j < out@.len() ==> out@[i] < out@[j],
            decreases self.spec_len() - n,
        {
            let ghost prev = out@;
            if is_below_infinity(self.cell_at(query_node, n)) {
                out.push(n);
                assert(out@[out@.len() - 1] == n);
            }
            proof {
                assert forall|m: int|
                    0 <= m < n + 1 && #[trigger] self.edge(query_node as int, m) is Some
                        implies out@.contains(m as u32) by {
                    if m == n {
                        assert(out@[out@.len() - 1] == n);
                    } else {
                        assert(prev.contains(m as u32));
                        let i = choose|i: int| 0 <= i < prev.len() && prev[i] == m as u32;
                        assert(out@[i] == m as u32);
                    }
                }
            }
            n = n + 1;
        }
        out
    }

    /// The nodes joined to `query_node` with their distances, in ascending
    /// node order; none for a node out of range.
    pub fn get_vertices(&self, query_node: u32) -> (r: Vec<(u32, u32)>)
        requires
            self.wf(),
        ensures
            query_node >= self.spec_len() ==> r@.len() == 0,
            forall|i: int|
                0 <= i < r@.len() ==> #[trigger] r@[i].0 < self.spec_len() && self.edge(
                    query_node as int,
                    r@[i].0 as int,
                ) == Some(r@[i].1),
            query_node < self.spec_len() ==> forall|n: int|
                0 <= n < self.spec_len() && #[trigger] self.edge(query_node as int, n) is Some
                    ==> exists|i: int| 0 <= i < r@.len() && #[trigger] r@[i].0 == n,
            forall|i: int, j: int| 0 <= i < j < r@.len() ==> r@[i].0 < r@[j].0,
    {
        let mut out: Vec<(u32, u32)> = Vec::new();
        if query_node >= self.len {
            return out;
        }
        let mut n: u32 = 0;
        while n < self.len
            invariant
                self.wf(),
                query_node < self.spec_len(),
                0 <= n <= self.spec_len(),
                forall|i: int|
                    0 <= i < out@.len() ==> #[trigger] out@[i].0 < n && self.edge(
                        query_node as int,
                        out@[i].0 as int,
                    ) == Some(out@[i].1),
                forall|m: int|
                    0 <= m < n && #[trigger] self.edge(query_node as int, m) is Some
                        ==> exists|i: int| 0 <= i < out@.len() && #[trigger] out@[i].0 == m,
                forall|i: int, j: int| 0 <= i < j < out@.len() ==> out@[i].0 < out@[j].0,
            decreases self.spec_len() - n,
        {
            let ghost prev = out@;
            let d = self.cell_at(query_node, n);
            if is_below_infinity(d) {
                out.push((n, d));
                assert(out@[out@.len() - 1].0 == n);
            }
            proof {
                assert forall|m: int|
                    0 <= m < n + 1 && #[trigger] self.edge(query_node as int, m) is Some
                        implies exists|i: int| 0 <= i < out@.len() && #[trigger] out@[i].0 == m by {
                    if m == n {
                        assert(out@[out@.len() - 1].0 == n);
                    } else {
                        let i = choose|i: int| 0 <= i < prev.len() && #[trigger] prev[i].0 == m;
                        assert(out@[i].0 == m);
                    }
                }
            }
            n = n + 1;
        }
        out
    }

    /// Adds `count` nodes, joined to nothing, growing the room by exactly
    /// what is missing; returns the highest id.
    pub fn push_many(&mut self, count: u32) -> (r: u32)
        requires
            old(self).wf(),
            old(self).spec_len() + count <= u32::MAX,
            old(self).spec_len() + count >= 1,
        ensures
            final(self).wf(),
            final(self).spec_len() == old(self).spec_len() + count,
            final(self).spec_capacity() == if old(self).spec_capacity() < old(self).spec_len()
                + count {
                old(self).spec_len() + count
            } else {
                old(self).spec_capacity() as int
            },
            r == final(self).spec_len() - 1,
            forall|a: int, b: int|
                0 <= a < old(self).spec_len() && 0 <= b < old(self).spec_len() ==> #[trigger] final(
                    self).cell(a, b) == old(self).cell(a, b),
            forall|a: int, b: int|
                0 <= a < final(self).spec_len() && 0 <= b < final(self).spec_len() && !(a < old(
                    self).spec_len() && b < old(self).spec_len()) ==> #[trigger] final(self).cell(
                    a,
                    b,
                ) == NO_EDGE,
    {
        if self.capacity < self.len + count {
            self.grow_rows(self.len + count);
        }
        let ghost grown = *self;
        self.len = self.len + count;
        assert forall|a: int, b: int| 0 <= a < old(self).spec_len() && 0 <= b < old(
            self).spec_len() implies #[trigger] self.cell(a, b) == old(self).cell(a, b) by {
            assert(self.cell(a, b) == grown.cell(a, b));
        }
        self.len - 1
    }

    pub fn push_one(&mut self) -> (r: u32)
        requires
            old(self).wf(),
            old(self).spec_len() < u32::MAX,
        ensures
            final(self).wf(),
            final(self).spec_len() == old(self).spec_len() + 1,
            r == old(self).spec_len(),
            forall|a: int, b: int|
                0 <= a < old(self).spec_len() && 0 <= b < old(self).spec_len() ==> #[trigger] final(
                    self).cell(a, b) == old(self).cell(a, b),
            forall|a: int| 0 <= a <= r ==> #[trigger] final(self).cell(a, r as int) == NO_EDGE,
    {
        self.push_many(1)
    }

    /// A graph over `0..n`, `n` one more than the largest node named, where
    /// each pair holds the distance of the first edge that joins it.
    pub fn from_adj_list(adj_list: AdjList) -> (r: NdGraph)
        requires
            forall|i: int|
                0 <= i < adj_list@.len() ==> #[trigger] adj_list@[i].0 < u32::MAX && adj_list@[i].1
                    < u32::MAX,
        ensures
            r.wf(),
            r.spec_len() == node_bound(adj_list@),
            r.spec_capacity() == node_bound(adj_list@),
            forall|x: int, y: int|
                0 <= x < r.spec_len() && 0 <= y < r.spec_len() ==> #[trigger] r.cell(x, y)
                    == match first_distance(adj_list@, x, y) {
                    Some(d) => d,
                    None => NO_EDGE,
                },
    {
        let ghost s = adj_list@;
        let mut len: u32 = 0;
        let mut i: usize = 0;
        while i < adj_list.len()
            invariant
                s == adj_list@,
                0 <= i <= s.len(),
                len == node_bound(s.subrange(0, i as int)),
                forall|k: int| 0 <= k < s.len() ==> #[trigger] s[k].0 < u32::MAX && s[k].1 < u32::MAX,
            decreases s.len() - i,
        {
            let (a, b, _) = adj_list[i];
            let top = if a > b { a + 1 } else { b + 1 };
            assert(s.subrange(0, i + 1).drop_last() =~= s.subrange(0, i as int));
            if top > len {
                len = top;
            }
            i = i + 1;
        }
        assert(s.subrange(0, s.len() as int) =~= s);
        let mut graph = NdGraph::with_capacity(len);
        graph.len = len;
        let mut j: usize = adj_list.len();
        assert(s.subrange(s.len() as int, s.len() as int).len() == 0);
        while j > 0
            invariant
                s == adj_list@,
                0 <= j <= s.len(),
                graph.wf(),
                graph.spec_len() == len,
                graph.spec_capacity() == len,
                len == node_bound(s),
                forall|x: int, y: int|
                    0 <= x < len && 0 <= y < len ==> #[trigger] graph.cell(x, y) == match first_distance(
                        s.subrange(j as int, s.len() as int),
                        x,
                        y,
                    ) {
                        Some(d) => d,
                        None => NO_EDGE,
                    },
            decreases j,
        {
            let (a, b, d) = adj_list[j - 1];
            proof {
                NdGraph::lemma_in_bound(s, j - 1);
            }
            let ghost before = graph;
            let _ = graph.connect(a, b, d);
            proof {
                let tail = s.subrange(j - 1, s.len() as int);
                assert(tail.subrange(1, tail.len() as int) =~= s.subrange(j as int, s.len() as int));
                assert forall|x: int, y: int| 0 <= x < len && 0 <= y < len implies #[trigger] graph.cell(
                    x,
                    y,
                ) == match first_distance(tail, x, y) {
                    Some(d) => d,
                    None => NO_EDGE,
                } by {
                    if same_pair(x, y, a as int, b as int) {
                        NdGraph::lemma_cell_symmetric(graph, a as int, b as int);
                    }
                }
            }
            j = j - 1;
        }
        graph
    }

    proof fn lemma_in_bound(s: Seq<(u32, u32, u32)>, k: int)
        requires
            0 <= k < s.len(),
        ensures
            s[k].0 < node_bound(s),
            s[k].1 < node_bound(s),
        decreases s.len(),
    {
        if k < s.len() - 1 {
            NdGraph::lemma_in_bound(s.drop_last(), k);
        }
    }
}

#[derive(Debug, PartialEq, Eq, Structural)]
pub enum AcndgError {
    NodeNonexistence(u32),
}

/// A graph over arbitrary node numbers: each number is given a dense id of
/// an [NdGraph] the first time an edge names it.
pub struct AnyCastNdGraph {
    graph: NdGraph,
    mapping: HashMap<u32, u32>,
}

impl AnyCastNdGraph {
    /// The dense id of each node number that has one.
    pub closed spec fn ids(&self) -> Map<u32, u32> {
        self.mapping@
    }

    /// The dense graph underneath.
    pub closed spec fn dense(&self) -> NdGraph {
        self.graph
    }

    /// The bits stored between two mapped node numbers.
    pub open spec fn cell(&self, a: u32, b: u32) -> u32 {
        self.dense().cell(self.ids()[a] as int, self.ids()[b] as int)
    }

    /// Dense ids are in range, and no two node numbers share one.
    pub closed spec fn wf(&self) -> bool {
        &&& self.graph.wf()
        &&& forall|k: u32| #[trigger] self.mapping@.contains_key(k) ==> self.mapping@[k] < self.graph.len
        &&& forall|k1: u32, k2: u32|
            #[trigger] self.mapping@.contains_key(k1) && #[trigger] self.mapping@.contains_key(k2)
                && k1 != k2 ==> self.mapping@[k1] != self.mapping@[k2]
    }

    /// The dense id of `node`, given one if it has none.
    fn get_mapping_or_insert(&mut self, node: u32) -> (r: u32)
        requires
            old(self).wf(),
            old(self).dense().spec_len() < u32::MAX,
        ensures
            final(self).wf(),
            final(self).ids().contains_key(node),
            final(self).ids()[node] == r,
            r < final(self).dense().spec_len(),
            old(self).ids().contains_key(node) ==> *final(self) == *old(self),
            !old(self).ids().contains_key(node) ==> {
                &&& r == old(self).dense().spec_len()
                &&& final(self).ids() == old(self).ids().insert(node, r)
                &&& final(self).dense().spec_len() == old(self).dense().spec_len() + 1
            },
            forall|a: int, b: int|
                0 <= a < old(self).dense().spec_len() && 0 <= b < old(self).dense().spec_len()
                    ==> #[trigger] final(self).dense().cell(a, b) == old(self).dense().cell(a, b),
            forall|a: int, b: int|
                old(self).dense().spec_len() <= a < final(self).dense().spec_len() && 0 <= b
                    < final(self).dense().spec_len() ==> #[trigger] final(self).dense().cell(a, b)
                    == NO_EDGE,
    {
        broadcast use vstd::std_specs::hash::group_hash_axioms;

        match self.mapping.get(&node) {
            Some(m) => *m,
            None => {
                let pushed = self.graph.push_one();
                self.mapping.insert(node, pushed);
                proof {
                    assert forall|a: int, b: int|
                        old(self).dense().spec_len() <= a < self.dense().spec_len() && 0 <= b
                            < self.dense().spec_len() implies #[trigger] self.dense().cell(a, b)
                            == NO_EDGE by {
                        NdGraph::lemma_cell_symmetric(self.graph, a, b);
                    }
                }
                pushed
            },
        }
    }

    pub fn new() -> (r: AnyCastNdGraph)
        ensures
            r.wf(),
            r.ids() == Map::<u32, u32>::empty(),
            r.dense().spec_len() == 0,
            r.dense().spec_capacity() == 0,
    {
        broadcast use vstd::std_specs::hash::group_hash_axioms;

        AnyCastNdGraph { graph: NdGraph::new(), mapping: HashMap::new() }
    }

    pub fn with_capacity(capacity: u32) -> (r: AnyCastNdGraph)
        ensures
            r.wf(),
            r.ids() == Map::<u32, u32>::empty(),
            r.dense().spec_len() == 0,
            r.dense().spec_capacity() == capacity,
    {
        broadcast use vstd::std_specs::hash::group_hash_axioms;

        AnyCastNdGraph {
            graph: NdGraph::with_capacity(capacity),
            mapping: HashMap::with_capacity(capacity as usize),
        }
    }

    pub fn len(&self) -> (r: u32)
        ensures
            r == self.dense().spec_len(),
    {
        self.graph.len()
    }

    pub fn capacity(&self) -> (r: u32)
        ensures
            r == self.dense().spec_capacity(),
    {
        self.graph.capacity()
    }

    pub fn is_empty(&self) -> (r: bool)
        ensures
            r == (self.dense().spec_len() == 0),
    {
        self.graph.is_empty()
    }

    /// Joins two node numbers, giving each a dense id first if it has none.
    pub fn connect(&mut self, a: u32, b: u32, distance: u32) -> (r: Result<(), AcndgError>)
        requires
            old(self).wf(),
            old(self).dense().spec_len() + 2 <= u32::MAX,
        ensures
            r is Ok,
            final(self).wf(),
            final(self).ids().contains_key(a),
            final(self).ids().contains_key(b),
            forall|k: u32| #[trigger] old(self).ids().contains_key(k) ==> final(self).ids().contains_key(k)
                && final(self).ids()[k] == old(self).ids()[k],
            forall|k: u32|
                #[trigger] final(self).ids().contains_key(k) ==> old(self).ids().contains_key(k) || k == a
                    || k == b,
            final(self).cell(a, b) == distance,
            forall|x: u32, y: u32|
                old(self).ids().contains_key(x) && old(self).ids().contains_key(y) && !same_pair(
                    x as int,
                    y as int,
                    a as int,
                    b as int,
                ) ==> #[trigger] final(self).cell(x, y) == old(self).cell(x, y),
            forall|x: u32, y: u32|
                final(self).ids().contains_key(x) && final(self).ids().contains_key(y) && !same_pair(
                    x as int,
                    y as int,
                    a as int,
                    b as int,
                ) && !(old(self).ids().contains_key(x) && old(self).ids().contains_key(y))
                    ==> #[trigger] final(self).cell(x, y) == NO_EDGE,
            final(self).dense().spec_len() <= old(self).dense().spec_len() + 2,
    {
        let ghost g0 = *self;
        let da = self.get_mapping_or_insert(a);
        let db = self.get_mapping_or_insert(b);
        let ghost g1 = *self;
        let _ = self.graph.connect(da, db, distance);
        proof {
            assert forall|x: u32, y: u32|
                g0.ids().contains_key(x) && g0.ids().contains_key(y) && !same_pair(
                    x as int,
                    y as int,
                    a as int,
                    b as int,
                ) implies #[trigger] self.cell(x, y) == g0.cell(x, y) by {
                let (dx, dy) = (g0.ids()[x] as int, g0.ids()[y] as int);
                assert(g1.ids()[x] == dx && g1.ids()[y] == dy);
                if same_pair(dx, dy, da as int, db as int) {
                    assert(false);
                }
            }
            assert forall|x: u32, y: u32|
                self.ids().contains_key(x) && self.ids().contains_key(y) && !same_pair(
                    x as int,
                    y as int,
                    a as int,
                    b as int,
                ) && !(g0.ids().contains_key(x) && g0.ids().contains_key(y)) implies #[trigger] self.cell(
                x,
                y,
            ) == NO_EDGE by {
                let (dx, dy) = (self.ids()[x] as int, self.ids()[y] as int);
                assert(g1.ids()[x] == dx && g1.ids()[y] == dy);
                if same_pair(dx, dy, da as int, db as int) {
                    assert(false);
                }
                if !g0.ids().contains_key(x) {
                    assert(dx >= g0.dense().spec_len());
                    assert(g1.dense().cell(dx, dy) == NO_EDGE);
                } else {
                    assert(dy >= g0.dense().spec_len());
                    NdGraph::lemma_cell_symmetric(g1.dense(), dx, dy);
                    assert(g1.dense().cell(dy, dx) == NO_EDGE);
                }
            }
        }
        Ok(())
    }

    /// The dense ids joined to the dense id of `query_node`; none for a
    /// number that has no dense id.
    pub fn get_neighbors(&self, query_node: u32) -> (r: Vec<u32>)
        requires
            self.wf(),
        ensures
            !self.ids().contains_key(query_node) ==> r@.len() == 0,
            self.ids().contains_key(query_node) ==> {
                &&& forall|i: int|
                    0 <= i < r@.len() ==> #[trigger] r@[i] < self.dense().spec_len()
                        && self.dense().edge(self.ids()[query_node] as int, r@[i] as int) is Some
                &&& forall|n: int|
                    0 <= n < self.dense().spec_len() && #[trigger] self.dense().edge(
                        self.ids()[query_node] as int,
                        n,
                    ) is Some ==> r@.contains(n as u32)
                &&& forall|i: int, j: int| 0 <= i < j < r@.len() ==> r@[i] < r@[j]
            },
    {
        broadcast use vstd::std_specs::hash::group_hash_axioms;

        match self.mapping.get(&query_node) {
            None => Vec::new(),
            Some(m) => self.graph.get_neighbors(*m),
        }
    }

    /// The dense ids joined to the dense id of `query_node`, with their
    /// distances; none for a number that has no dense id.
    pub fn get_vertices(&self, query_node: u32) -> (r: Vec<(u32, u32)>)
        requires
            self.wf(),
        ensures
            !self.ids().contains_key(query_node) ==> r@.len() == 0,
            self.ids().contains_key(query_node) ==> {
                &&& forall|i: int|
                    0 <= i < r@.len() ==> #[trigger] r@[i].0 < self.dense().spec_len()
                        && self.dense().edge(self.ids()[query_node] as int, r@[i].0 as int) == Some(
                        r@[i].1,
                    )
                &&& forall|n: int|
                    0 <= n < self.dense().spec_len() && #[trigger] self.dense().edge(
                        self.ids()[query_node] as int,
                        n,
                    ) is Some ==> exists|i: int| 0 <= i < r@.len() && #[trigger] r@[i].0 == n
                &&& forall|i: int, j: int| 0 <= i < j < r@.len() ==> r@[i].0 < r@[j].0
            },
    {
        broadcast use vstd::std_specs::hash::group_hash_axioms;

        match self.mapping.get(&query_node) {
            None => Vec::new(),
            Some(m) => self.graph.get_vertices(*m),
        }
    }

    /// The distance between two node numbers; a number without a dense id
    /// is refused, `a` checked first.
    pub fn get_vertice(&self, a: u32, b: u32) -> (r: Result<Option<u32>, AcndgError>)
        requires
            self.wf(),
        ensures
            !self.ids().contains_key(a) ==> r == Err::<Option<u32>, AcndgError>(
                AcndgError::NodeNonexistence(a),
            ),
            self.ids().contains_key(a) && !self.ids().contains_key(b) ==> r == Err::<
                Option<u32>,
                AcndgError,
            >(AcndgError::NodeNonexistence(b)),
            self.ids().contains_key(a) && self.ids().contains_key(b) ==> r == Ok::<
                Option<u32>,
                AcndgError,
            >(self.dense().edge(self.ids()[a] as int, self.ids()[b] as int)),
    {
        broadcast use vstd::std_specs::hash::group_hash_axioms;

        match self.mapping.get(&a) {
            None => Err(AcndgError::NodeNonexistence(a)),
            Some(da) => match self.mapping.get(&b) {
                None => Err(AcndgError::NodeNonexistence(b)),
                Some(db) => match self.graph.get_vertice(*da, *db) {
                    Ok(d) => Ok(d),
                    Err(_) => Err(AcndgError::NodeNonexistence(b)),
                },
            },
        }
    }

    /// A graph with a dense id for every node number the list names, each
    /// pair holding the distance of the last edge that joins it.
    pub fn from_adj_list(adj_list: AdjList) -> (r: AnyCastNdGraph)
        requires
            2 * adj_list@.len() + 2 <= u32::MAX,
        ensures
            r.wf(),
            forall|k: u32| #[trigger] r.ids().contains_key(k) <==> endpoint(adj_list@, k),
            forall|x: u32, y: u32|
                r.ids().contains_key(x) && r.ids().contains_key(y) ==> #[trigger] r.cell(x, y)
                    == match last_distance(adj_list@, x as int, y as int) {
                    Some(d) => d,
                    None => NO_EDGE,
                },
    {
        let ghost s = adj_list@;
        let mut graph = AnyCastNdGraph::new();
        let mut i: usize = 0;
        while i < adj_list.len()
            invariant
                s == adj_list@,
                2 * s.len() + 2 <= u32::MAX,
                0 <= i <= s.len(),
                graph.wf(),
                graph.dense().spec_len() <= 2 * i,
                forall|k: u32|
                    #[trigger] graph.ids().contains_key(k) <==> endpoint(s.subrange(0, i as int), k),
                forall|x: u32, y: u32|
                    graph.ids().contains_key(x) && graph.ids().contains_key(y) ==> #[trigger] graph.cell(
                        x,
                        y,
                    ) == match last_distance(s.subrange(0, i as int), x as int, y as int) {
                        Some(d) => d,
                        None => NO_EDGE,
                    },
            decreases s.len() - i,
        {
            let (a, b, dist) = adj_list[i];
            let ghost g0 = graph;
            let ghost pre = s.subrange(0, i as int);
            let ghost next = s.subrange(0, i + 1);
            let _ = graph.connect(a, b, dist);
            proof {
                assert(next.drop_last() =~= pre);
                assert(next.last() == (a, b, dist));
                assert forall|k: u32| #[trigger] graph.ids().contains_key(k) <==> endpoint(next, k) by {
                    if endpoint(next, k) {
                        let j = choose|j: int| 0 <= j < next.len() && (#[trigger] next[j].0 == k || next[j].1 == k);
                        if j < i {
                            assert(pre[j] == next[j]);
                            assert(endpoint(pre, k));
                            assert(g0.ids().contains_key(k));
                        } else {
                            assert(k == a || k == b);
                        }
                    }
                    if endpoint(pre, k) {
                        let j = choose|j: int| 0 <= j < pre.len() && (#[trigger] pre[j].0 == k || pre[j].1 == k);
                        assert(next[j].0 == pre[j].0 && next[j].1 == pre[j].1);
                        assert(endpoint(next, k));
                    }
                    if k == a {
                        assert(next[i as int].0 == k);
                        assert(endpoint(next, k));
                    }
                    if k == b {
                        assert(next[i as int].1 == k);
                        assert(endpoint(next, k));
                    }
                    if graph.ids().contains_key(k) {
                        if g0.ids().contains_key(k) {
                            assert(endpoint(pre, k));
                        }
                        assert(endpoint(next, k));
                    }
                    if endpoint(next, k) {
                        assert(graph.ids().contains_key(k));
                    }
                }
                assert forall|x: u32, y: u32|
                    graph.ids().contains_key(x) && graph.ids().contains_key(y) implies #[trigger] graph.cell(
                        x,
                        y,
                    ) == match last_distance(next, x as int, y as int) {
                        Some(d) => d,
                        None => NO_EDGE,
                    } by {
                    if same_pair(x as int, y as int, a as int, b as int) {
                        NdGraph::lemma_cell_symmetric(
                            graph.dense(),
                            graph.ids()[a] as int,
                            graph.ids()[b] as int,
                        );
                    } else if g0.ids().contains_key(x) && g0.ids().contains_key(y) {
                    } else if !g0.ids().contains_key(x) {
                        lemma_no_edge_without_endpoint(pre, x, y as int);
                    } else {
                        lemma_no_edge_without_endpoint(pre, y, x as int);
                        assert(last_distance(pre, x as int, y as int) == last_distance(
                            pre,
                            y as int,
                            x as int,
                        )) by {
                            lemma_last_distance_symmetric(pre, x as int, y as int);
                        }
                    }
                }
            }
            i = i + 1;
        }
        assert(s.subrange(0, s.len() as int) =~= s);
        graph
    }

    /// A scattered graph over a dense one: each node that has a neighbour
    /// keeps its own id as its number.
    pub fn from(value: NdGraph) -> (r: AnyCastNdGraph)
        requires
            value.wf(),
        ensures
            r.wf(),
            r.dense() == value,
            forall|k: u32|
                #[trigger] r.ids().contains_key(k) <==> (k < value.spec_len() && exists|m: int|
                    0 <= m < value.spec_len() && #[trigger] value.edge(k as int, m) is Some),
            forall|k: u32| #[trigger] r.ids().contains_key(k) ==> r.ids()[k] == k,
    {
        broadcast use vstd::std_specs::hash::group_hash_axioms;

        let mut mapping: HashMap<u32, u32> = HashMap::new();
        let len = value.len();
        let mut node: u32 = 0;
        while node < len
            invariant
                value.wf(),
                len == value.spec_len(),
                0 <= node <= len,
                forall|k: u32|
                    #[trigger] mapping@.contains_key(k) <==> (k < node && exists|m: int|
                        0 <= m < len && #[trigger] value.edge(k as int, m) is Some),
                forall|k: u32| #[trigger] mapping@.contains_key(k) ==> mapping@[k] == k,
            decreases len - node,
        {
            let mut m: u32 = 0;
            let mut any = false;
            while m < len && !any
                invariant
                    value.wf(),
                    len == value.spec_len(),
                    node < len,
                    0 <= m <= len,
                    any ==> exists|j: int| 0 <= j < len && #[trigger] value.edge(node as int, j) is Some,
                    !any ==> forall|j: int| 0 <= j < m ==> #[trigger] value.edge(node as int, j) is None,
                decreases len - m,
            {
                if is_below_infinity(value.cell_at(node, m)) {
                    any = true;
                    assert(value.edge(node as int, m as int) is Some);
                }
                m = m + 1;
            }
            if any {
                mapping.insert(node, node);
            }
            node = node + 1;
        }
        AnyCastNdGraph { graph: value, mapping }
    }
}

} // verus!
