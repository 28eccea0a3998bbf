//! The cells of a uniform spatial grid: a cube of `cell_count` cells along
//! each axis, each cell listing the nodes that overlap it.
use std::ops::Range;
use thunderdome::Index;
use vstd::prelude::*;

verus! {

/// Arena handles of the `thunderdome` crate, carried by value.
#[verifier::external_type_specification]
#[verifier::external_body]
pub struct ExIndex(Index);

/// Compares two `thunderdome::Index` handles with their `==`, which the
/// crate derives, so it holds exactly when slot and generation agree, that
/// is when the two handles are the same value.
#[verifier::external_body]
fn same_index(a: &Index, b: &Index) -> (r: bool)
    ensures
        r == (*a == *b),
{
    *a == *b
}

/// The position of cell `(x, y, z)` in a grid of `n` cells per axis.
pub open spec fn cell_index(n: int, x: int, y: int, z: int) -> int {
    x + y * n + z * n * n
}

/// The cells `(x, y, z0)`, `(x, y, z0 + 1)`, ... up to but without `z1`.
pub open spec fn row_cells(n: int, x: int, y: int, z0: int, z1: int) -> Seq<int>
    decreases z1 - z0,
{
    if z1 <= z0 {
        Seq::empty()
    } else {
        row_cells(n, x, y, z0, z1 - 1).push(cell_index(n, x, y, z1 - 1))
    }
}

/// The rows of cells `(x, y0..y1, z0..z1)`, `y` by `y`.
pub open spec fn plane_cells(n: int, x: int, y0: int, y1: int, z0: int, z1: int) -> Seq<int>
    decreases y1 - y0,
{
    if y1 <= y0 {
        Seq::empty()
    } else {
        plane_cells(n, x, y0, y1 - 1, z0, z1) + row_cells(n, x, y1 - 1, z0, z1)
    }
}

/// The cells of the box `x0..x1 × y0..y1 × z0..z1`, in the order x, then
/// y, then z, the last varying fastest.
pub open spec fn box_cells(n: int, x0: int, x1: int, y0: int, y1: int, z0: int, z1: int) -> Seq<int>
    decreases x1 - x0,
{
    if x1 <= x0 {
        Seq::empty()
    } else {
        box_cells(n, x0, x1 - 1, y0, y1, z0, z1) + plane_cells(n, x1 - 1, y0, y1, z0, z1)
    }
}

/// How often `c` occurs in `s`.
pub open spec fn occurrences(s: Seq<int>, c: int) -> nat
    decreases s.len(),
{
    if s.len() == 0 {
        0
    } else {
        occurrences(s.drop_last(), c) + if s.last() == c {
            1nat
        } else {
            0nat
        }
    }
}

/// Every cell of the box lies in the grid.
pub open spec fn box_in_grid(n: int, xs: Range<usize>, ys: Range<usize>, zs: Range<usize>) -> bool {
    forall|c: int|
        #![trigger box_cells(n, xs.start as int, xs.end as int, ys.start as int, ys.end as int, zs.start as int, zs.end as int).contains(c)]
        box_cells(
            n,
            xs.start as int,
            xs.end as int,
            ys.start as int,
            ys.end as int,
            zs.start as int,
            zs.end as int,
        ).contains(c) ==> 0 <= c < n * n * n
}

/// The cells of a grid, each listing the nodes that overlap it.
pub struct CellGrid {
    cell_count: usize,
    cells: Vec<Vec<Index>>,
}

impl CellGrid {
    /// Cells per axis.
    pub closed spec fn count(&self) -> int {
        self.cell_count as int
    }

    /// The node lists, cell by cell.
    pub closed spec fn cells(&self) -> Seq<Seq<Index>> {
        self.cells@.map_values(|c: Vec<Index>| c@)
    }

    /// There is one list per cell.
    pub open spec fn wf(&self) -> bool {
        self.cells().len() == self.count() * self.count() * self.count()
    }

    /// A grid of `cell_count` cells along each axis, all empty.
    pub fn new(cell_count: usize) -> (g: Self)
        requires
            cell_count * cell_count * cell_count <= usize::MAX,
        ensures
            g.wf(),
            g.count() == cell_count,
            forall|c: int| 0 <= c < g.cells().len() ==> #[trigger] g.cells()[c] == Seq::<Index>::empty(),
    {
        proof {
            assert(0 <= cell_count * cell_count) by (nonlinear_arith);
            assert(cell_count * cell_count <= cell_count * cell_count * cell_count || cell_count == 0)
                by (nonlinear_arith);
        }
        let grid_size = cell_count * cell_count * cell_count;
        let mut cells: Vec<Vec<Index>> = Vec::new();
        let mut i: usize = 0;
        while i < grid_size
            invariant
                0 <= i <= grid_size,
                cells@.len() == i,
                forall|c: int| 0 <= c < i ==> (#[trigger] cells@[c])@ == Seq::<Index>::empty(),
            decreases grid_size - i,
        {
            cells.push(Vec::new());
            i = i + 1;
        }
        let g = CellGrid { cell_count, cells };
        proof {
            assert forall|c: int| 0 <= c < g.cells().len() implies #[trigger] g.cells()[c] == Seq::<
                Index,
            >::empty() by {
                assert(g.cells()[c] == cells@[c]@);
            }
        }
        g
    }

    /// The position of cell `(x, y, z)` in the list of cells.
    pub fn get_cell_inx(&self, x: usize, y: usize, z: usize) -> (r: usize)
        requires
            cell_index(self.count(), x as int, y as int, z as int) <= usize::MAX,
        ensures
            r == cell_index(self.count(), x as int, y as int, z as int),
    {
        let n = self.cell_count;
        proof {
            assert(0 <= y * n && 0 <= z * n * n) by (nonlinear_arith);
            assert(z * n <= z * n * n || n == 0) by (nonlinear_arith);
        }
        x + y * n + z * n * n
    }

    /// Whether every cell of the box `xs × ys × zs` lies in the grid, so that
    /// the box can be added; an empty box always fits.
    pub fn box_fits(&self, xs: &Range<usize>, ys: &Range<usize>, zs: &Range<usize>) -> (r: bool)
        requires
            self.wf(),
        ensures
            r == box_in_grid(self.count(), *xs, *ys, *zs),
    {
        let ghost n = self.count();
        let ghost bx = box_cells(n, xs.start as int, xs.end as int, ys.start as int, ys.end as int, zs.start as int, zs.end as int);
        proof {
            lemma_box_bounds(n, xs.start as int, xs.end as int, ys.start as int, ys.end as int, zs.start as int, zs.end as int);
            assert(self.cells.len() == n * n * n);
        }
        if xs.start >= xs.end || ys.start >= ys.end || zs.start >= zs.end {
            proof {
                assert forall|c: int| #![trigger bx.contains(c)] bx.contains(c) implies 0 <= c < n * n * n by {
                    let k = choose|k: int| 0 <= k < bx.len() && bx[k] == c;
                }
            }
            return true;
        }
        let cn = self.cell_count;
        let total = self.cells.len();
        let x = xs.end - 1;
        let y = ys.end - 1;
        let z = zs.end - 1;
        let ghost corner = cell_index(n, x as int, y as int, z as int);
        proof {
            lemma_box_contains(n, *xs, *ys, *zs, x as int, y as int, z as int);
            assert(0 <= y * n && 0 <= z * n * n && 0 <= z * n) by (nonlinear_arith)
                requires
                    n >= 0,
                    y >= 0,
                    z >= 0,
            ;
        }
        let zn = match z.checked_mul(cn) {
            Some(v) => v,
            None => {
                proof {
                    assert(z * n <= z * n * n) by (nonlinear_arith)
                        requires
                            z * n > 0,
                            n >= 0,
                            z >= 0,
                    ;
                }
                return false;
            },
        };
        let znn = match zn.checked_mul(cn) {
            Some(v) => v,
            None => return false,
        };
        let yn = match y.checked_mul(cn) {
            Some(v) => v,
            None => return false,
        };
        let a = match znn.checked_add(yn) {
            Some(v) => v,
            None => return false,
        };
        let m = match a.checked_add(x) {
            Some(v) => v,
            None => return false,
        };
        assert(m == corner);
        m < total
    }

    /// The nodes listed in cell `(x, y, z)`.
    pub fn get_cell(&self, x: usize, y: usize, z: usize) -> (r: &Vec<Index>)
        requires
            0 <= cell_index(self.count(), x as int, y as int, z as int) < self.cells().len(),
        ensures
            r@ == self.cells()[cell_index(self.count(), x as int, y as int, z as int)],
    {
        proof {
            assert(self.cells.len() == self.cells@.len());
        }
        let i = self.get_cell_inx(x, y, z);
        &self.cells[i]
    }

    /// All node lists, cell by cell.
    pub fn get_cells(&self) -> (r: &Vec<Vec<Index>>)
        ensures
            r@.map_values(|c: Vec<Index>| c@) == self.cells(),
    {
        &self.cells
    }

    /// Lists `node` in every cell of the box `xs × ys × zs` and returns the
    /// positions of those cells in the order they were visited (x, then y,
    /// then z fastest). A cell reached more than once lists the node that
    /// many times.
    pub fn add_node(&mut self, node: Index, xs: Range<usize>, ys: Range<usize>, zs: Range<usize>) -> (r: Vec<usize>)
        requires
            old(self).wf(),
            box_in_grid(old(self).count(), xs, ys, zs),
        ensures
            final(self).wf(),
            final(self).count() == old(self).count(),
            r@.map_values(|c: usize| c as int) == box_cells(
                old(self).count(),
                xs.start as int,
                xs.end as int,
                ys.start as int,
                ys.end as int,
                zs.start as int,
                zs.end as int,
            ),
            forall|c: int|
                0 <= c < final(self).cells().len() ==> #[trigger] final(self).cells()[c] == old(self).cells()[c]
                    + Seq::new(occurrences(r@.map_values(|c: usize| c as int), c), |k: int| node),
    {
        let ghost n = self.count();
        let ghost bx = box_cells(n, xs.start as int, xs.end as int, ys.start as int, ys.end as int, zs.start as int, zs.end as int);
        let mut node_cells: Vec<usize> = Vec::new();
        let mut x = xs.start;
        while x < xs.end
            invariant
                self.wf(),
                self.count() == n,
                n == old(self).count(),
                bx == box_cells(n, xs.start as int, xs.end as int, ys.start as int, ys.end as int, zs.start as int, zs.end as int),
                box_in_grid(n, xs, ys, zs),
                xs.start <= x <= xs.end || (x == xs.start && xs.end <= xs.start),
                node_cells@.map_values(|c: usize| c as int) == box_cells(n, xs.start as int, x as int, ys.start as int, ys.end as int, zs.start as int, zs.end as int),
                forall|c: int|
                    0 <= c < self.cells().len() ==> #[trigger] self.cells()[c] == old(self).cells()[c]
                        + Seq::new(occurrences(node_cells@.map_values(|c: usize| c as int), c), |k: int| node),
            decreases xs.end - x,
        {
            let mut y = ys.start;
            let ghost before_x = node_cells@.map_values(|c: usize| c as int);
            while y < ys.end
                invariant
                    self.wf(),
                    self.count() == n,
                    n == old(self).count(),
                    bx == box_cells(n, xs.start as int, xs.end as int, ys.start as int, ys.end as int, zs.start as int, zs.end as int),
                    box_in_grid(n, xs, ys, zs),
                    xs.start <= x < xs.end,
                    ys.start <= y <= ys.end || (y == ys.start && ys.end <= ys.start),
                    before_x == box_cells(n, xs.start as int, x as int, ys.start as int, ys.end as int, zs.start as int, zs.end as int),
                    node_cells@.map_values(|c: usize| c as int) == before_x + plane_cells(n, x as int, ys.start as int, y as int, zs.start as int, zs.end as int),
                    forall|c: int|
                        0 <= c < self.cells().len() ==> #[trigger] self.cells()[c] == old(self).cells()[c]
                            + Seq::new(occurrences(node_cells@.map_values(|c: usize| c as int), c), |k: int| node),
                decreases ys.end - y,
            {
                let mut z = zs.start;
                let ghost before_y = node_cells@.map_values(|c: usize| c as int);
                while z < zs.end
                    invariant
                        self.wf(),
                        self.count() == n,
                        n == old(self).count(),
                        bx == box_cells(n, xs.start as int, xs.end as int, ys.start as int, ys.end as int, zs.start as int, zs.end as int),
                        box_in_grid(n, xs, ys, zs),
                        xs.start <= x < xs.end,
                        ys.start <= y < ys.end,
                        zs.start <= z <= zs.end || (z == zs.start && zs.end <= zs.start),
                        before_x == box_cells(n, xs.start as int, x as int, ys.start as int, ys.end as int, zs.start as int, zs.end as int),
                        before_y == before_x + plane_cells(n, x as int, ys.start as int, y as int, zs.start as int, zs.end as int),
                        node_cells@.map_values(|c: usize| c as int) == before_y + row_cells(n, x as int, y as int, zs.start as int, z as int),
                        forall|c: int|
                            0 <= c < self.cells().len() ==> #[trigger] self.cells()[c] == old(self).cells()[c]
                                + Seq::new(occurrences(node_cells@.map_values(|c: usize| c as int), c), |k: int| node),
                    decreases zs.end - z,
                {
                    let ghost c0 = cell_index(n, x as int, y as int, z as int);
                    proof {
                        lemma_box_contains(n, xs, ys, zs, x as int, y as int, z as int);
                        assert(0 <= c0 < n * n * n);
                        assert(self.cells.len() == self.cells@.len());
                    }
                    let cell_inx = self.get_cell_inx(x, y, z);
                    let ghost prev = node_cells@.map_values(|c: usize| c as int);
                    let ghost before_cells = self.cells();
                    self.cells[cell_inx].push(node);
                    node_cells.push(cell_inx);
                    proof {
                        let now = node_cells@.map_values(|c: usize| c as int);
                        assert(now =~= prev.push(c0));
                        assert(now.drop_last() =~= prev);
                        assert(row_cells(n, x as int, y as int, zs.start as int, z + 1) == row_cells(n, x as int, y as int, zs.start as int, z as int).push(c0));
                        assert(now =~= before_y + row_cells(n, x as int, y as int, zs.start as int, z + 1));
                        assert forall|c: int| 0 <= c < self.cells().len() implies #[trigger] self.cells()[c] == old(self).cells()[c]
                            + Seq::new(occurrences(now, c), |k: int| node) by {
                            if c == c0 {
                                assert(self.cells()[c] == before_cells[c].push(node));
                                assert(old(self).cells()[c] + Seq::new(occurrences(now, c), |k: int| node)
                                    =~= (old(self).cells()[c] + Seq::new(occurrences(prev, c), |k: int| node)).push(node));
                            } else {
                                assert(self.cells()[c] == before_cells[c]);
                                assert(occurrences(now, c) == occurrences(prev, c));
                            }
                        }
                    }
                    z = z + 1;
                }
                proof {
                    if zs.end < zs.start {
                        assert(row_cells(n, x as int, y as int, zs.start as int, zs.start as int) == row_cells(n, x as int, y as int, zs.start as int, zs.end as int));
                    }
                    assert(plane_cells(n, x as int, ys.start as int, y + 1, zs.start as int, zs.end as int)
                        == plane_cells(n, x as int, ys.start as int, y as int, zs.start as int, zs.end as int) + row_cells(n, x as int, y as int, zs.start as int, zs.end as int));
                    assert(node_cells@.map_values(|c: usize| c as int) =~= before_x + plane_cells(n, x as int, ys.start as int, y + 1, zs.start as int, zs.end as int));
                }
                y = y + 1;
            }
            proof {
                assert(box_cells(n, xs.start as int, x + 1, ys.start as int, ys.end as int, zs.start as int, zs.end as int)
                    == box_cells(n, xs.start as int, x as int, ys.start as int, ys.end as int, zs.start as int, zs.end as int) + plane_cells(n, x as int, ys.start as int, ys.end as int, zs.start as int, zs.end as int));
                if ys.end < ys.start {
                    assert(plane_cells(n, x as int, ys.start as int, ys.start as int, zs.start as int, zs.end as int) == plane_cells(n, x as int, ys.start as int, ys.end as int, zs.start as int, zs.end as int));
                }
            }
            x = x + 1;
        }
        node_cells
    }

    /// Takes `node` out of every cell.
    pub fn rem_node(&mut self, node: Index)
        requires
            old(self).wf(),
        ensures
            final(self).wf(),
            final(self).count() == old(self).count(),
            final(self).cells().len() == old(self).cells().len(),
            forall|c: int|
                0 <= c < final(self).cells().len() ==> #[trigger] final(self).cells()[c] == old(self).cells()[c].filter(
                    |i: Index| i != node,
                ),
    {
        let n = self.cells.len();
        let mut c: usize = 0;
        while c < n
            invariant
                n == self.cells@.len(),
                n == old(self).cells().len(),
                self.count() == old(self).count(),
                0 <= c <= n,
                forall|k: int|
                    0 <= k < n ==> #[trigger] self.cells()[k] == if k < c {
                        old(self).cells()[k].filter(|i: Index| i != node)
                    } else {
                        old(self).cells()[k]
                    },
            decreases n - c,
        {
            let ghost before = self.cells();
            let kept = without(&self.cells[c], node);
            self.cells.set(c, kept);
            proof {
                assert forall|k: int| 0 <= k < n implies #[trigger] self.cells()[k] == if k < c + 1 {
                    old(self).cells()[k].filter(|i: Index| i != node)
                } else {
                    old(self).cells()[k]
                } by {
                    if k == c {
                        assert(self.cells()[k] == kept@);
                        assert(before[k] == old(self).cells()[k]);
                    } else {
                        assert(self.cells()[k] == before[k]);
                    }
                }
            }
            c = c + 1;
        }
    }

    /// Takes every node of `nodes` out of every cell.
    pub fn rem_nodes(&mut self, nodes: &Vec<Index>)
        requires
            old(self).wf(),
        ensures
            final(self).wf(),
            final(self).count() == old(self).count(),
            final(self).cells().len() == old(self).cells().len(),
            forall|c: int|
                0 <= c < final(self).cells().len() ==> #[trigger] final(self).cells()[c] == old(self).cells()[c].filter(
                    |i: Index| !nodes@.contains(i),
                ),
    {
        let n = self.cells.len();
        let mut c: usize = 0;
        while c < n
            invariant
                n == self.cells@.len(),
                n == old(self).cells().len(),
                self.count() == old(self).count(),
                0 <= c <= n,
                forall|k: int|
                    0 <= k < n ==> #[trigger] self.cells()[k] == if k < c {
                        old(self).cells()[k].filter(|i: Index| !nodes@.contains(i))
                    } else {
                        old(self).cells()[k]
                    },
            decreases n - c,
        {
            let ghost before = self.cells();
            let kept = without_any(&self.cells[c], nodes);
            self.cells.set(c, kept);
            proof {
                assert forall|k: int| 0 <= k < n implies #[trigger] self.cells()[k] == if k < c + 1 {
                    old(self).cells()[k].filter(|i: Index| !nodes@.contains(i))
                } else {
                    old(self).cells()[k]
                } by {
                    if k == c {
                        assert(self.cells()[k] == kept@);
                        assert(before[k] == old(self).cells()[k]);
                    } else {
                        assert(self.cells()[k] == before[k]);
                    }
                }
            }
            c = c + 1;
        }
    }
}

/// The position of a cell grows with each of its coordinates.
proof fn lemma_cell_index_mono(n: int, x: int, y: int, z: int, x2: int, y2: int, z2: int)
    requires
        n >= 0,
        x <= x2,
        y <= y2,
        z <= z2,
    ensures
        cell_index(n, x, y, z) <= cell_index(n, x2, y2, z2),
{
    assert(y * n <= y2 * n) by (nonlinear_arith)
        requires
            n >= 0,
            y <= y2,
    ;
    assert(z * n * n <= z2 * n * n) by (nonlinear_arith)
        requires
            n >= 0,
            z <= z2,
    ;
}

/// The cells of a row lie between its first and its last cell; the row is
/// empty exactly when its range is.
proof fn lemma_row_bounds(n: int, x: int, y: int, z0: int, z1: int)
    requires
        n >= 0,
    ensures
        row_cells(n, x, y, z0, z1).len() == 0 <==> z1 <= z0,
        forall|k: int|
            0 <= k < row_cells(n, x, y, z0, z1).len() ==> cell_index(n, x, y, z0) <= #[trigger] row_cells(
                n,
                x,
                y,
                z0,
                z1,
            )[k] <= cell_index(n, x, y, z1 - 1),
    decreases z1 - z0,
{
    if z1 > z0 {
        lemma_row_bounds(n, x, y, z0, z1 - 1);
        lemma_cell_index_mono(n, x, y, z0, x, y, z1 - 1);
        let r = row_cells(n, x, y, z0, z1);
        let a = row_cells(n, x, y, z0, z1 - 1);
        assert forall|k: int| 0 <= k < r.len() implies cell_index(n, x, y, z0) <= #[trigger] r[k] <= cell_index(
            n,
            x,
            y,
            z1 - 1,
        ) by {
            if k < a.len() {
                assert(r[k] == a[k]);
                lemma_cell_index_mono(n, x, y, z1 - 2, x, y, z1 - 1);
            }
        }
    }
}

/// The cells of a plane lie between its first and its last cell; the plane
/// is empty exactly when one of its ranges is.
proof fn lemma_plane_bounds(n: int, x: int, y0: int, y1: int, z0: int, z1: int)
    requires
        n >= 0,
    ensures
        plane_cells(n, x, y0, y1, z0, z1).len() == 0 <==> (y1 <= y0 || z1 <= z0),
        forall|k: int|
            0 <= k < plane_cells(n, x, y0, y1, z0, z1).len() ==> cell_index(n, x, y0, z0) <= #[trigger] plane_cells(
                n,
                x,
                y0,
                y1,
                z0,
                z1,
            )[k] <= cell_index(n, x, y1 - 1, z1 - 1),
    decreases y1 - y0,
{
    if y1 > y0 {
        lemma_plane_bounds(n, x, y0, y1 - 1, z0, z1);
        lemma_row_bounds(n, x, y1 - 1, z0, z1);
        let p = plane_cells(n, x, y0, y1, z0, z1);
        let a = plane_cells(n, x, y0, y1 - 1, z0, z1);
        let r = row_cells(n, x, y1 - 1, z0, z1);
        assert forall|k: int| 0 <= k < p.len() implies cell_index(n, x, y0, z0) <= #[trigger] p[k] <= cell_index(
            n,
            x,
            y1 - 1,
            z1 - 1,
        ) by {
            if k < a.len() {
                assert(p[k] == a[k]);
                lemma_cell_index_mono(n, x, y1 - 2, z1 - 1, x, y1 - 1, z1 - 1);
            } else {
                assert(p[k] == r[k - a.len()]);
                lemma_cell_index_mono(n, x, y0, z0, x, y1 - 1, z0);
            }
        }
    }
}

/// The cells of a box lie between its first and its last cell; the box is
/// empty exactly when one of its ranges is.
proof fn lemma_box_bounds(n: int, x0: int, x1: int, y0: int, y1: int, z0: int, z1: int)
    requires
        n >= 0,
    ensures
        box_cells(n, x0, x1, y0, y1, z0, z1).len() == 0 <==> (x1 <= x0 || y1 <= y0 || z1 <= z0),
        forall|k: int|
            0 <= k < box_cells(n, x0, x1, y0, y1, z0, z1).len() ==> cell_index(n, x0, y0, z0) <= #[trigger] box_cells(
                n,
                x0,
                x1,
                y0,
                y1,
                z0,
                z1,
            )[k] <= cell_index(n, x1 - 1, y1 - 1, z1 - 1),
    decreases x1 - x0,
{
    if x1 > x0 {
        lemma_box_bounds(n, x0, x1 - 1, y0, y1, z0, z1);
        lemma_plane_bounds(n, x1 - 1, y0, y1, z0, z1);
        let b = box_cells(n, x0, x1, y0, y1, z0, z1);
        let a = box_cells(n, x0, x1 - 1, y0, y1, z0, z1);
        let p = plane_cells(n, x1 - 1, y0, y1, z0, z1);
        assert forall|k: int| 0 <= k < b.len() implies cell_index(n, x0, y0, z0) <= #[trigger] b[k] <= cell_index(
            n,
            x1 - 1,
            y1 - 1,
            z1 - 1,
        ) by {
            if k < a.len() {
                assert(b[k] == a[k]);
                lemma_cell_index_mono(n, x1 - 2, y1 - 1, z1 - 1, x1 - 1, y1 - 1, z1 - 1);
            } else {
                assert(b[k] == p[k - a.len()]);
                lemma_cell_index_mono(n, x0, y0, z0, x1 - 1, y0, z0);
            }
        }
    }
}

/// A cell of the box at `(x, y, z)` is one of the box's cells.
proof fn lemma_box_contains(n: int, xs: Range<usize>, ys: Range<usize>, zs: Range<usize>, x: int, y: int, z: int)
    requires
        xs.start <= x < xs.end,
        ys.start <= y < ys.end,
        zs.start <= z < zs.end,
    ensures
        box_cells(n, xs.start as int, xs.end as int, ys.start as int, ys.end as int, zs.start as int, zs.end as int).contains(
            cell_index(n, x, y, z),
        ),
{
    lemma_row_contains(n, x, y, zs.start as int, zs.end as int, z);
    lemma_plane_contains(n, x, ys.start as int, ys.end as int, zs.start as int, zs.end as int, y, z);
    lemma_box_contains_rec(n, xs.start as int, xs.end as int, ys.start as int, ys.end as int, zs.start as int, zs.end as int, x, y, z);
}

proof fn lemma_row_contains(n: int, x: int, y: int, z0: int, z1: int, z: int)
    requires
        z0 <= z < z1,
    ensures
        row_cells(n, x, y, z0, z1).contains(cell_index(n, x, y, z)),
    decreases z1 - z0,
{
    let r = row_cells(n, x, y, z0, z1);
    if z == z1 - 1 {
        assert(r[r.len() - 1] == cell_index(n, x, y, z));
    } else {
        lemma_row_contains(n, x, y, z0, z1 - 1, z);
        let r0 = row_cells(n, x, y, z0, z1 - 1);
        let k = choose|k: int| 0 <= k < r0.len() && r0[k] == cell_index(n, x, y, z);
        assert(r[k] == r0[k]);
    }
}

proof fn lemma_plane_contains(n: int, x: int, y0: int, y1: int, z0: int, z1: int, y: int, z: int)
    requires
        y0 <= y < y1,
        row_cells(n, x, y, z0, z1).contains(cell_index(n, x, y, z)),
    ensures
        plane_cells(n, x, y0, y1, z0, z1).contains(cell_index(n, x, y, z)),
    decreases y1 - y0,
{
    let p = plane_cells(n, x, y0, y1, z0, z1);
    let c = cell_index(n, x, y, z);
    if y == y1 - 1 {
        let a = plane_cells(n, x, y0, y1 - 1, z0, z1);
        let r = row_cells(n, x, y, z0, z1);
        let k = choose|k: int| 0 <= k < r.len() && r[k] == c;
        assert(p[a.len() + k] == c);
    } else {
        lemma_plane_contains(n, x, y0, y1 - 1, z0, z1, y, z);
        let a = plane_cells(n, x, y0, y1 - 1, z0, z1);
        let k = choose|k: int| 0 <= k < a.len() && a[k] == c;
        assert(p[k] == c);
    }
}

proof fn lemma_box_contains_rec(n: int, x0: int, x1: int, y0: int, y1: int, z0: int, z1: int, x: int, y: int, z: int)
    requires
        x0 <= x < x1,
        plane_cells(n, x, y0, y1, z0, z1).contains(cell_index(n, x, y, z)),
    ensures
        box_cells(n, x0, x1, y0, y1, z0, z1).contains(cell_index(n, x, y, z)),
    decreases x1 - x0,
{
    let b = box_cells(n, x0, x1, y0, y1, z0, z1);
    let c = cell_index(n, x, y, z);
    if x == x1 - 1 {
        let a = box_cells(n, x0, x1 - 1, y0, y1, z0, z1);
        let p = plane_cells(n, x, y0, y1, z0, z1);
        let k = choose|k: int| 0 <= k < p.len() && p[k] == c;
        assert(b[a.len() + k] == c);
    } else {
        lemma_box_contains_rec(n, x0, x1 - 1, y0, y1, z0, z1, x, y, z);
        let a = box_cells(n, x0, x1 - 1, y0, y1, z0, z1);
        let k = choose|k: int| 0 <= k < a.len() && a[k] == c;
        assert(b[k] == c);
    }
}

/// Whether `nodes` lists `node`.
fn lists(nodes: &Vec<Index>, node: &Index) -> (r: bool)
    ensures
        r == nodes@.contains(*node),
{
    let mut i: usize = 0;
    while i < nodes.len()
        invariant
            0 <= i <= nodes@.len(),
            forall|k: int| 0 <= k < i ==> nodes@[k] != *node,
        decreases nodes@.len() - i,
    {
        if same_index(&nodes[i], node) {
            return true;
        }
        i = i + 1;
    }
    false
}

/// `cell` without `node`.
fn without(cell: &Vec<Index>, node: Index) -> (r: Vec<Index>)
    ensures
        r@ == cell@.filter(|i: Index| i != node),
{
    let ghost pred = |i: Index| i != node;
    let mut r: Vec<Index> = Vec::new();
    let mut k: usize = 0;
    while k < cell.len()
        invariant
            0 <= k <= cell@.len(),
            pred == (|i: Index| i != node),
            r@ == cell@.take(k as int).filter(pred),
        decreases cell@.len() - k,
    {
        let e = cell[k];
        proof {
            assert(cell@.take(k + 1).drop_last() =~= cell@.take(k as int));
            assert(cell@.take(k + 1).last() == e);
            reveal_with_fuel(Seq::filter, 1);
        }
        if !same_index(&e, &node) {
            r.push(e);
        }
        k = k + 1;
    }
    proof {
        assert(cell@.take(cell@.len() as int) =~= cell@);
    }
    r
}

/// `cell` without any node of `nodes`.
fn without_any(cell: &Vec<Index>, nodes: &Vec<Index>) -> (r: Vec<Index>)
    ensures
        r@ == cell@.filter(|i: Index| !nodes@.contains(i)),
{
    let ghost pred = |i: Index| !nodes@.contains(i);
    let mut r: Vec<Index> = Vec::new();
    let mut k: usize = 0;
    while k < cell.len()
        invariant
            0 <= k <= cell@.len(),
            pred == (|i: Index| !nodes@.contains(i)),
            r@ == cell@.take(k as int).filter(pred),
        decreases cell@.len() - k,
    {
        let e = cell[k];
        proof {
            assert(cell@.take(k + 1).drop_last() =~= cell@.take(k as int));
            assert(cell@.take(k + 1).last() == e);
            reveal_with_fuel(Seq::filter, 1);
        }
        if !lists(nodes, &e) {
            r.push(e);
        }
        k = k + 1;
    }
    proof {
        assert(cell@.take(cell@.len() as int) =~= cell@);
    }
    r
}

/// A cell's own filter keeps everything when nothing matches.
proof fn lemma_filter_keeps_all(s: Seq<Index>, node: Index)
    requires
        !s.contains(node),
    ensures
        s.filter(|i: Index| i != node) == s,
    decreases s.len(),
{
    reveal_with_fuel(Seq::filter, 1);
    if s.len() > 0 {
        assert(!s.drop_last().contains(node)) by {
            if s.drop_last().contains(node) {
                let k = choose|k: int| 0 <= k < s.drop_last().len() && s.drop_last()[k] == node;
                assert(s[k] == node);
            }
        }
        lemma_filter_keeps_all(s.drop_last(), node);
        assert(s.last() != node) by {
            assert(s[s.len() - 1] == s.last());
        }
        assert(s.drop_last().push(s.last()) =~= s);
    }
}

/// A filter that rejects everything leaves nothing.
proof fn lemma_filter_drops_all(k: nat, node: Index)
    ensures
        Seq::new(k, |j: int| node).filter(|i: Index| i != node) == Seq::<Index>::empty(),
    decreases k,
{
    reveal_with_fuel(Seq::filter, 1);
    if k > 0 {
        assert(Seq::new(k, |j: int| node).drop_last() =~= Seq::new((k - 1) as nat, |j: int| node));
        lemma_filter_drops_all((k - 1) as nat, node);
    }
}

/// Taking a node out undoes listing it: a cell that did not list `node`,
/// after `node` was added any number of times and then taken out, is as it
/// was.
pub proof fn law_remove_undoes_add(cell: Seq<Index>, node: Index, times: nat)
    requires
        !cell.contains(node),
    ensures
        (cell + Seq::new(times, |j: int| node)).filter(|i: Index| i != node) == cell,
{
    let extra = Seq::new(times, |j: int| node);
    Seq::filter_distributes_over_add(cell, extra, |i: Index| i != node);
    lemma_filter_keeps_all(cell, node);
    lemma_filter_drops_all(times, node);
    assert(cell + Seq::<Index>::empty() =~= cell);
}

/// Adding a node lists it in exactly the cells of the box.
pub proof fn law_add_lists_in_box_cells(bx: Seq<int>, c: int)
    ensures
        occurrences(bx, c) > 0 <==> bx.contains(c),
    decreases bx.len(),
{
    if bx.len() > 0 {
        law_add_lists_in_box_cells(bx.drop_last(), c);
        if bx.drop_last().contains(c) {
            let k = choose|k: int| 0 <= k < bx.drop_last().len() && bx.drop_last()[k] == c;
            assert(bx[k] == c);
        }
        if bx.contains(c) && bx.last() != c {
            let k = choose|k: int| 0 <= k < bx.len() && bx[k] == c;
            assert(k != bx.len() - 1);
            assert(bx.drop_last()[k] == c);
        }
    }
}

} // verus!
