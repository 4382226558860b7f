//! Channel geometry and the spatial neighbor relation.

use vstd::prelude::*;

verus! {

use crate::events::DetectError;
use crate::model::graph_wf;

/// The square of an integer.
pub open spec fn sq(x: int) -> int {
    x * x
}

/// Squared Euclidean distance between two planar points.
pub open spec fn dist2(a: (int, int), b: (int, int)) -> int {
    sq(a.0 - b.0) + sq(a.1 - b.1)
}

/// Two points lie within `radius` of each other. Distances are compared
/// squared, so no root is ever taken.
pub open spec fn within_radius(a: (int, int), b: (int, int), radius: int) -> bool {
    dist2(a, b) <= radius * radius
}

/// The spatial neighbor relation induced by a geometry and a radius:
/// channels `i` and `j` are neighbors when their Euclidean distance is at
/// most `radius`.
pub open spec fn neighbor_rel(coords: Seq<(int, int)>, radius: int, i: int, j: int) -> bool {
    within_radius(coords[i], coords[j], radius)
}

/// For a nonnegative radius the neighbor relation is reflexive (every
/// channel is its own neighbor) and symmetric, whatever the geometry.
pub proof fn lemma_neighbor_rel_reflexive_symmetric(
    coords: Seq<(int, int)>,
    radius: int,
    i: int,
    j: int,
)
    requires
        radius >= 0,
        0 <= i < coords.len(),
        0 <= j < coords.len(),
    ensures
        neighbor_rel(coords, radius, i, i),
        neighbor_rel(coords, radius, i, j) == neighbor_rel(coords, radius, j, i),
{
    assert(radius * radius >= 0) by (nonlinear_arith)
        requires
            radius >= 0,
    ;
    let a = coords[i];
    let b = coords[j];
    assert((a.0 - b.0) * (a.0 - b.0) == (b.0 - a.0) * (b.0 - a.0)) by (nonlinear_arith);
    assert((a.1 - b.1) * (a.1 - b.1) == (b.1 - a.1) * (b.1 - a.1)) by (nonlinear_arith);
}

/// Per-channel planar coordinates, one `(x, y)` pair per channel, in
/// fixed-point integer units; static for a recording session.
pub struct ChannelGeometry {
    coords: Vec<(i32, i32)>,
}

impl View for ChannelGeometry {
    type V = Seq<(int, int)>;

    closed spec fn view(&self) -> Seq<(int, int)> {
        Seq::new(
            self.coords@.len(),
            |i: int| (self.coords@[i].0 as int, self.coords@[i].1 as int),
        )
    }
}

impl ChannelGeometry {
    pub fn new(coords: Vec<(i32, i32)>) -> (g: ChannelGeometry)
        ensures
            g@.len() == coords@.len(),
            forall|i: int|
                0 <= i < coords@.len() ==> #[trigger] g@[i] == (
                    coords@[i].0 as int,
                    coords@[i].1 as int,
                ),
    {
        ChannelGeometry { coords }
    }

    pub fn len(&self) -> (n: usize)
        ensures
            n == self@.len(),
    {
        self.coords.len()
    }

    pub fn get(&self, i: usize) -> (p: (i32, i32))
        requires
            i < self@.len(),
        ensures
            self@[i as int] == (p.0 as int, p.1 as int),
    {
        self.coords[i]
    }
}

/// The deep view of a boolean matrix indexes into its rows' views.
proof fn lemma_mask_deep_view(m: &Vec<Vec<bool>>)
    ensures
        m.deep_view().len() == m@.len(),
        forall|p: int| 0 <= p < m@.len() ==> #[trigger] m.deep_view()[p] == m@[p]@,
{
    assert forall|p: int| 0 <= p < m@.len() implies #[trigger] m.deep_view()[p] == m@[p]@ by {
        assert(m.deep_view()[p] =~= m@[p]@);
    }
}

/// The spatial adjacency relation over channels: a square boolean matrix,
/// reflexive and symmetric by construction, computed once per recording
/// session and shared read-only across chunks.
pub struct NeighborGraph {
    mask: Vec<Vec<bool>>,
}

impl View for NeighborGraph {
    type V = Seq<Seq<bool>>;

    closed spec fn view(&self) -> Seq<Seq<bool>> {
        self.mask.deep_view()
    }
}

impl NeighborGraph {
    /// Square, reflexive and symmetric.
    pub open spec fn wf(&self) -> bool {
        graph_wf(self@)
    }

    pub open spec fn spec_channels(&self) -> int {
        self@.len() as int
    }

    /// Whether `a` and `b` lie within `radius` of each other, compared on
    /// squared distances in wide intermediate arithmetic.
    fn check_within_radius(a: (i32, i32), b: (i32, i32), radius: i64) -> (r: bool)
        ensures
            r == within_radius(
                (a.0 as int, a.1 as int),
                (b.0 as int, b.1 as int),
                radius as int,
            ),
    {
        let dx: i64 = a.0 as i64 - b.0 as i64;
        let dy: i64 = a.1 as i64 - b.1 as i64;
        proof {
            assert(dx as i128 * dx as i128 <= 0x1_0000_0000_0000_0000i128 && dx as i128 * dx
                as i128 >= 0) by (nonlinear_arith)
                requires
                    -0x1_0000_0000 <= dx as i128 <= 0x1_0000_0000,
            ;
            assert(dy as i128 * dy as i128 <= 0x1_0000_0000_0000_0000i128 && dy as i128 * dy
                as i128 >= 0) by (nonlinear_arith)
                requires
                    -0x1_0000_0000 <= dy as i128 <= 0x1_0000_0000,
            ;
            assert(0 <= radius as i128 * radius as i128 && radius as i128 * radius as i128
                <= 0x8000_0000_0000_0000i128 * 0x8000_0000_0000_0000i128) by (nonlinear_arith)
                requires
                    -0x8000_0000_0000_0000 <= radius as i128 <= 0x7FFF_FFFF_FFFF_FFFF,
            ;
        }
        let d2: i128 = (dx as i128) * (dx as i128) + (dy as i128) * (dy as i128);
        let r2: i128 = (radius as i128) * (radius as i128);
        d2 <= r2
    }

    /// Builds the neighbor relation from channel geometry. A negative
    /// radius is an `InvalidArgument`; any nonnegative radius yields a
    /// well-formed (reflexive, symmetric) graph.
    #[verifier::loop_isolation(false)]
    pub fn from_geometry(geometry: &ChannelGeometry, radius: i64) -> (r: Result<
        NeighborGraph,
        DetectError,
    >)
        ensures
            radius < 0 ==> r == Err::<NeighborGraph, DetectError>(DetectError::InvalidArgument),
            radius >= 0 ==> {
                &&& r matches Ok(g)
                &&& g.wf()
                &&& g@.len() == geometry@.len()
                &&& forall|i: int, j: int|
                    0 <= i < geometry@.len() && 0 <= j < geometry@.len() ==> #[trigger] g@[i][j]
                        == neighbor_rel(geometry@, radius as int, i, j)
            },
    {
        if radius < 0 {
            return Err(DetectError::InvalidArgument);
        }
        let n = geometry.len();
        let mut mask: Vec<Vec<bool>> = Vec::new();
        for i in 0..n
            invariant
                mask@.len() == i,
                forall|p: int| 0 <= p < i ==> (#[trigger] mask@[p])@.len() == n,
                forall|p: int, q: int|
                    0 <= p < i && 0 <= q < n ==> #[trigger] mask@[p]@[q] == neighbor_rel(
                        geometry@,
                        radius as int,
                        p,
                        q,
                    ),
        {
            let pi = geometry.get(i);
            let mut row: Vec<bool> = Vec::new();
            for j in 0..n
                invariant
                    geometry@[i as int] == (pi.0 as int, pi.1 as int),
                    row@.len() == j,
                    forall|q: int|
                        0 <= q < j ==> #[trigger] row@[q] == neighbor_rel(
                            geometry@,
                            radius as int,
                            i as int,
                            q,
                        ),
            {
                let pj = geometry.get(j);
                row.push(Self::check_within_radius(pi, pj, radius));
            }
            mask.push(row);
        }
        let g = NeighborGraph { mask };
        proof {
            lemma_mask_deep_view(&g.mask);
            assert forall|i: int, j: int|
                0 <= i < geometry@.len() && 0 <= j < geometry@.len() implies #[trigger] g@[i][j]
                == neighbor_rel(geometry@, radius as int, i, j) by {
                assert(g@[i] == g.mask@[i]@);
            }
            assert forall|i: int| 0 <= i < g@.len() implies #[trigger] g@[i][i] by {
                lemma_neighbor_rel_reflexive_symmetric(geometry@, radius as int, i, i);
            }
            assert forall|i: int, j: int|
                0 <= i < g@.len() && 0 <= j < g@.len() implies #[trigger] g@[i][j]
                == #[trigger] g@[j][i] by {
                lemma_neighbor_rel_reflexive_symmetric(geometry@, radius as int, i, j);
            }
            assert forall|i: int| 0 <= i < g@.len() implies (#[trigger] g@[i]).len()
                == g@.len() by {
                assert(g@[i] == g.mask@[i]@);
            }
        }
        Ok(g)
    }

    /// Wraps an externally supplied adjacency matrix, validating the graph
    /// invariant: an adjacency that is not square, reflexive and symmetric
    /// is an `InvalidArgument`.
    #[verifier::loop_isolation(false)]
    pub fn from_mask(mask: Vec<Vec<bool>>) -> (r: Result<NeighborGraph, DetectError>)
        ensures
            graph_wf(mask.deep_view()) ==> {
                &&& r matches Ok(g)
                &&& g@ == mask.deep_view()
                &&& g.wf()
            },
            !graph_wf(mask.deep_view()) ==> r == Err::<NeighborGraph, DetectError>(
                DetectError::InvalidArgument,
            ),
    {
        proof {
            lemma_mask_deep_view(&mask);
        }
        let n = mask.len();
        for j in 0..n
            invariant
                forall|p: int|
                    0 <= p < j ==> (#[trigger] mask@[p])@.len() == n && mask@[p]@[p],
        {
            proof {
                assert(mask.deep_view()[j as int] == mask@[j as int]@);
            }
            if mask[j].len() != n {
                return Err(DetectError::InvalidArgument);
            }
            if !mask[j][j] {
                return Err(DetectError::InvalidArgument);
            }
        }
        for j in 0..n
            invariant
                forall|p: int, q: int|
                    0 <= p < j && 0 <= q < n ==> #[trigger] mask@[p]@[q] == mask@[q]@[p],
        {
            for k in 0..n
                invariant
                    forall|p: int, q: int|
                        0 <= p < j && 0 <= q < n ==> #[trigger] mask@[p]@[q] == mask@[q]@[p],
                    forall|q: int|
                        0 <= q < k ==> #[trigger] mask@[j as int]@[q] == mask@[q]@[j as int],
            {
                proof {
                    assert(mask.deep_view()[j as int] == mask@[j as int]@);
                    assert(mask.deep_view()[k as int] == mask@[k as int]@);
                }
                if mask[j][k] != mask[k][j] {
                    return Err(DetectError::InvalidArgument);
                }
            }
        }
        let g = NeighborGraph { mask };
        proof {
            lemma_mask_deep_view(&g.mask);
            assert forall|p: int| 0 <= p < g@.len() implies (#[trigger] g@[p]).len() == g@.len()
                && g@[p][p] by {
                assert(g@[p] == g.mask@[p]@);
            }
            assert forall|p: int, q: int|
                0 <= p < g@.len() && 0 <= q < g@.len() implies #[trigger] g@[p][q]
                == #[trigger] g@[q][p] by {
                assert(g@[p] == g.mask@[p]@);
                assert(g@[q] == g.mask@[q]@);
            }
        }
        Ok(g)
    }

    pub fn channel_count(&self) -> (c: usize)
        ensures
            c == self.spec_channels(),
    {
        self.mask.len()
    }

    /// Whether channel `k` is a neighbor of channel `j`.
    pub fn is_neighbor(&self, j: usize, k: usize) -> (r: bool)
        requires
            j < self@.len(),
            k < self@.len(),
            self.wf(),
        ensures
            r == self@[j as int][k as int],
    {
        proof {
            assert(self@[j as int] == self.mask@[j as int]@);
        }
        self.mask[j][k]
    }
}

} // verus!
