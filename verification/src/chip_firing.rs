use vstd::prelude::*;

use crate::rng::gen_below;
use crate::sums::{
    sum, to_int32, to_intu32, lemma_sum_take_step, lemma_sum_take_all, lemma_sum_take_le,
    lemma_sum_nonneg, lemma_sum_elem_bound, lemma_sum_congruence, lemma_sum_update,
    lemma_sum_pointwise_add, lemma_sum_unit, lemma_sum_zero, lemma_sum_two_units, lemma_sum_le,
    lemma_sum_const,
};

verus! {

/// Error cases for chip-firing graphs.
#[derive(Clone, Copy, Debug, PartialEq, Eq, Structural)]
pub enum ChipFiringError {
    DimensionMismatch,
    InvalidGraphStructure,
    NegativeChips,
    NoActiveVertices,
}

/// Update mode for the chip-firing dynamics.
#[derive(Clone, Copy, Debug, PartialEq, Eq, Structural)]
pub enum UpdateMode {
    /// Fire one active vertex at a time.
    Sequential,
    /// Fire all active vertices simultaneously.
    Parallel,
}

/// Vertex selection strategy for the Sequential update mode.
#[derive(Clone, Copy, Debug, PartialEq, Eq, Structural)]
pub enum VertexSelectionStrategy {
    /// Select the active vertex of lowest index.
    FirstActive,
    /// Select an active vertex at random.
    RandomActive,
}

/// A graph whose vertices carry chips.  A vertex is active when it has at
/// least as many chips as its degree; firing it sends one chip along each
/// incident edge.
#[derive(Debug)]
pub struct ChipFiringGraph {
    /// Number of vertices in the graph.
    pub num_vertices: usize,
    /// Adjacency matrix: entry (i, j) is the number of edges from i to j.
    /// Immutable after construction.
    pub adjacency_matrix: Vec<Vec<u32>>,
    /// Current number of chips at each vertex.
    pub configuration: Vec<i32>,
    /// Vertex degrees: row sums of the adjacency matrix.
    pub degrees: Vec<u32>,
    /// Log of configurations: the initial one and one per successful
    /// step.  It grows without bound across repeated stepping; callers
    /// manage it through `clear_history` and `reset`.
    pub history: Vec<Vec<i32>>,
    /// Whether steps fire one vertex or all active vertices at once.
    pub update_mode: UpdateMode,
    /// How the Sequential mode picks the vertex to fire.
    pub selection_strategy: VertexSelectionStrategy,
}

/// Every row of the matrix has as many entries as there are rows.
pub open spec fn rows_square(a: Seq<Seq<int>>) -> bool {
    forall|i: int| 0 <= i < a.len() ==> (#[trigger] a[i]).len() == a.len()
}

/// All entries of the sequence are non-negative.
pub open spec fn all_nonneg(c: Seq<int>) -> bool {
    forall|j: int| 0 <= j < c.len() ==> c[j] >= 0
}

/// Integer view of a vector of rows of `u32` entries.
pub open spec fn mat_view(m: Seq<Vec<u32>>) -> Seq<Seq<int>> {
    m.map_values(|row: Vec<u32>| to_intu32(row@))
}

/// The sums of the rows of a matrix.
pub open spec fn row_sums(a: Seq<Seq<int>>) -> Seq<int> {
    Seq::new(a.len(), |i: int| sum(a[i]))
}

/// The sum of all entries of a matrix.
pub open spec fn mat_total(a: Seq<Seq<int>>) -> int {
    sum(row_sums(a))
}

/// How many edges of the list connect `a` to `b`, counting both
/// directions, so that a loop edge counts twice on the diagonal.
pub open spec fn edge_count(edges: Seq<(usize, usize)>, a: int, b: int) -> int
    decreases edges.len(),
{
    if edges.len() == 0 {
        0
    } else {
        edge_count(edges.drop_last(), a, b) + (if edges.last().0 == a && edges.last().1 == b {
            1int
        } else {
            0
        }) + (if edges.last().0 == b && edges.last().1 == a {
            1int
        } else {
            0
        })
    }
}

/// How many edge endpoints of the list touch vertex `v`.
pub open spec fn endpoint_count(edges: Seq<(usize, usize)>, v: int) -> int
    decreases edges.len(),
{
    if edges.len() == 0 {
        0
    } else {
        endpoint_count(edges.drop_last(), v) + (if edges.last().0 == v {
            1int
        } else {
            0
        }) + (if edges.last().1 == v {
            1int
        } else {
            0
        })
    }
}

/// Every edge of the list stays within the first `n` vertices.
pub open spec fn edges_in_range(edges: Seq<(usize, usize)>, n: int) -> bool {
    forall|k: int| 0 <= k < edges.len() ==> (#[trigger] edges[k]).0 < n && edges[k].1 < n
}

/// The adjacency matrix described by an edge list.
pub open spec fn mat_of_edges(edges: Seq<(usize, usize)>, n: int) -> Seq<Seq<int>> {
    Seq::new(n as nat, |a: int| Seq::new(n as nat, |b: int| edge_count(edges, a, b)))
}

/// Whether two cells of a `width`-wide grid are 4-neighbours.
pub open spec fn grid_adjacent(w: int, a: int, b: int) -> bool {
    w >= 1 && ((a / w == b / w && (b == a + 1 || b == a - 1)) || b == a + w || b == a - w)
}

/// The inputs on which construction succeeds: a square matrix, a
/// configuration of matching length, and no negative chip count.
pub open spec fn new_ok(a: Seq<Seq<int>>, c: Seq<int>) -> bool {
    rows_square(a) && c.len() == a.len() && all_nonneg(c)
}

impl ChipFiringGraph {
    /// The number of vertices, as a mathematical integer.
    pub open spec fn n(self) -> int {
        self.num_vertices as int
    }

    /// Integer view of the adjacency matrix.
    pub open spec fn adj(self) -> Seq<Seq<int>> {
        mat_view(self.adjacency_matrix@)
    }

    /// Integer view of the current configuration.
    pub open spec fn cfg(self) -> Seq<int> {
        to_int32(self.configuration@)
    }

    /// Integer view of the vertex degrees.
    pub open spec fn degs(self) -> Seq<int> {
        to_intu32(self.degrees@)
    }

    /// Integer view of the history of configurations.
    pub open spec fn hist(self) -> Seq<Seq<int>> {
        self.history@.map_values(|c: Vec<i32>| to_int32(c@))
    }

    /// A configuration this graph can hold: right length, no negative
    /// entry, and a total that fits an `i32`.
    pub open spec fn valid_cfg(self, c: Seq<int>) -> bool {
        &&& c.len() == self.n()
        &&& all_nonneg(c)
        &&& sum(c) <= i32::MAX
    }

    /// Well-formedness: the shapes agree, the degrees are the row sums of
    /// the adjacency matrix, the total degree and the total chip count fit
    /// an `i32`, and every logged configuration is valid.
    pub open spec fn wf(self) -> bool {
        &&& self.adj().len() == self.n()
        &&& rows_square(self.adj())
        &&& forall|i: int, j: int|
            0 <= i < self.n() && 0 <= j < self.n() ==> 0 <= #[trigger] self.adj()[i][j]
        &&& self.degs().len() == self.n()
        &&& forall|i: int| 0 <= i < self.n() ==> #[trigger] self.degs()[i] == sum(self.adj()[i])
        &&& sum(self.degs()) <= i32::MAX
        &&& self.valid_cfg(self.cfg())
        &&& self.hist().len() >= 1
        &&& forall|k: int| 0 <= k < self.hist().len() ==> self.valid_cfg(#[trigger] self.hist()[k])
    }

    /// Vertex `v` is active in configuration `c`.
    pub open spec fn active_in(self, c: Seq<int>, v: int) -> bool {
        c[v] >= self.degs()[v]
    }

    /// Vertex `v` is active in the current configuration.
    pub open spec fn is_active(self, v: int) -> bool {
        self.active_in(self.cfg(), v)
    }

    /// Some vertex is active in configuration `c`.
    pub open spec fn has_active(self, c: Seq<int>) -> bool {
        exists|v: int| 0 <= v < self.n() && self.active_in(c, v)
    }

    /// The change at vertex `j` when vertex `v` fires.
    pub open spec fn fire_delta(self, v: int, j: int) -> int {
        self.adj()[v][j] - if j == v { self.degs()[v] } else { 0 }
    }

    /// The configuration after vertex `v` fires from configuration `c`.
    pub open spec fn fired_from(self, c: Seq<int>, v: int) -> Seq<int> {
        Seq::new(self.n() as nat, |j: int| c[j] + self.fire_delta(v, j))
    }

    /// Chips received by vertex `j` from the active vertices below `k` when
    /// all of them fire from configuration `c` at once.
    pub open spec fn gain_upto(self, c: Seq<int>, j: int, k: int) -> int
        decreases k,
    {
        if k <= 0 {
            0
        } else {
            self.gain_upto(c, j, k - 1) + if self.active_in(c, k - 1) {
                self.adj()[k - 1][j]
            } else {
                0
            }
        }
    }

    /// Chips received by vertex `j` when every active vertex fires at once.
    pub open spec fn gain(self, c: Seq<int>, j: int) -> int {
        self.gain_upto(c, j, self.n())
    }

    /// One chip per incident edge leaves each active vertex in a parallel step.
    pub open spec fn act_deg(self, c: Seq<int>) -> Seq<int> {
        Seq::new(
            self.n() as nat,
            |v: int|
                if self.active_in(c, v) {
                    self.degs()[v]
                } else {
                    0
                },
        )
    }

    /// The configuration after one parallel step from `c`: every active
    /// vertex fires against the same pre-step configuration.
    pub open spec fn parallel_from(self, c: Seq<int>) -> Seq<int> {
        Seq::new(
            self.n() as nat,
            |j: int| c[j] + self.gain(c, j) - if self.active_in(c, j) {
                self.degs()[j]
            } else {
                0
            },
        )
    }

    /// How one successful step turns configuration `a` into `b`, given the
    /// graph's update mode and selection strategy.
    pub open spec fn step_rel(self, a: Seq<int>, b: Seq<int>) -> bool {
        match self.update_mode {
            UpdateMode::Sequential => exists|v: int|
                0 <= v < self.n() && #[trigger] self.active_in(a, v) && b == self.fired_from(a, v)
                    && (self.selection_strategy == VertexSelectionStrategy::FirstActive
                    ==> forall|u: int| 0 <= u < v ==> !self.active_in(a, u)),
            UpdateMode::Parallel => b == self.parallel_from(a),
        }
    }

    /// Creates a chip-firing graph from an adjacency matrix and an initial
    /// configuration.  The degrees are the row sums of the matrix.
    pub fn new(adjacency_matrix: Vec<Vec<u32>>, initial_configuration: Vec<i32>) -> (r: Result<
        Self,
        ChipFiringError,
    >)
        requires
            mat_total(mat_view(adjacency_matrix@)) <= i32::MAX,
            sum(to_int32(initial_configuration@)) <= i32::MAX,
        ensures
            r is Ok <==> new_ok(mat_view(adjacency_matrix@), to_int32(initial_configuration@)),
            !rows_square(mat_view(adjacency_matrix@)) ==> r == Err::<Self, ChipFiringError>(
                ChipFiringError::DimensionMismatch,
            ),
            rows_square(mat_view(adjacency_matrix@)) && to_int32(initial_configuration@).len()
                != adjacency_matrix@.len() ==> r == Err::<Self, ChipFiringError>(
                ChipFiringError::DimensionMismatch,
            ),
            rows_square(mat_view(adjacency_matrix@)) && to_int32(initial_configuration@).len()
                == adjacency_matrix@.len() && !all_nonneg(to_int32(initial_configuration@)) ==> r
                == Err::<Self, ChipFiringError>(ChipFiringError::NegativeChips),
            r is Ok ==> r->Ok_0.wf(),
            r is Ok ==> r->Ok_0.num_vertices == adjacency_matrix@.len(),
            r is Ok ==> r->Ok_0.adj() == mat_view(adjacency_matrix@),
            r is Ok ==> r->Ok_0.cfg() == to_int32(initial_configuration@),
            r is Ok ==> r->Ok_0.hist() =~= seq![to_int32(initial_configuration@)],
            r is Ok ==> r->Ok_0.update_mode == UpdateMode::Sequential,
            r is Ok ==> r->Ok_0.selection_strategy == VertexSelectionStrategy::FirstActive,
    {
        let num_vertices = adjacency_matrix.len();
        let ghost a = mat_view(adjacency_matrix@);
        let ghost c = to_int32(initial_configuration@);

        let mut i: usize = 0;
        while i < num_vertices
            invariant
                num_vertices == adjacency_matrix@.len(),
                a == mat_view(adjacency_matrix@),
                i <= num_vertices,
                forall|k: int| 0 <= k < i ==> (#[trigger] a[k]).len() == num_vertices,
            decreases num_vertices - i,
        {
            if adjacency_matrix[i].len() != num_vertices {
                proof {
                    assert(!rows_square(a)) by {
                        assert(a[i as int].len() != a.len());
                    }
                }
                return Err(ChipFiringError::DimensionMismatch);
            }
            i += 1;
        }
        assert(rows_square(a));

        if initial_configuration.len() != num_vertices {
            return Err(ChipFiringError::DimensionMismatch);
        }

        let mut j: usize = 0;
        while j < num_vertices
            invariant
                num_vertices == initial_configuration@.len(),
                num_vertices == adjacency_matrix@.len(),
                a == mat_view(adjacency_matrix@),
                rows_square(a),
                c == to_int32(initial_configuration@),
                j <= num_vertices,
                forall|k: int| 0 <= k < j ==> c[k] >= 0,
            decreases num_vertices - j,
        {
            if initial_configuration[j] < 0 {
                proof {
                    assert(!all_nonneg(c)) by {
                        assert(c[j as int] < 0);
                    }
                }
                return Err(ChipFiringError::NegativeChips);
            }
            j += 1;
        }
        assert(all_nonneg(c));

        // The degrees are the row sums of the adjacency matrix; each row sum
        // is bounded by the matrix total, so the additions stay in range.
        let mut degrees: Vec<u32> = Vec::new();
        let mut i: usize = 0;
        while i < num_vertices
            invariant
                num_vertices == adjacency_matrix@.len(),
                a == mat_view(adjacency_matrix@),
                rows_square(a),
                mat_total(a) <= i32::MAX,
                i <= num_vertices,
                degrees@.len() == i,
                forall|k: int| 0 <= k < i ==> #[trigger] degrees@[k] as int == sum(a[k]),
            decreases num_vertices - i,
        {
            proof {
                assert forall|k: int| 0 <= k < a.len() implies #[trigger] row_sums(a)[k] >= 0 by {
                    lemma_sum_nonneg(a[k]);
                }
                lemma_sum_elem_bound(row_sums(a), i as int);
            }
            let row_len = adjacency_matrix[i].len();
            let mut acc: u32 = 0;
            let mut k: usize = 0;
            while k < row_len
                invariant
                    num_vertices == adjacency_matrix@.len(),
                    a == mat_view(adjacency_matrix@),
                    i < num_vertices,
                    row_len == a[i as int].len(),
                    sum(a[i as int]) <= i32::MAX,
                    k <= row_len,
                    acc as int == sum(a[i as int].take(k as int)),
                    forall|t: int| 0 <= t < a[i as int].len() ==> #[trigger] a[i as int][t] >= 0,
                decreases row_len - k,
            {
                proof {
                    lemma_sum_take_step(a[i as int], k as int);
                    lemma_sum_take_le(a[i as int], k as int + 1);
                }
                acc = acc + adjacency_matrix[i][k];
                k += 1;
            }
            proof {
                lemma_sum_take_all(a[i as int]);
            }
            degrees.push(acc);
            i += 1;
        }

        let history_entry = copy_vec_i32(&initial_configuration);
        let mut history: Vec<Vec<i32>> = Vec::new();
        history.push(history_entry);

        let graph = ChipFiringGraph {
            num_vertices,
            adjacency_matrix,
            configuration: initial_configuration,
            degrees,
            history,
            update_mode: UpdateMode::Sequential,
            selection_strategy: VertexSelectionStrategy::FirstActive,
        };
        proof {
            assert(graph.degs() =~= row_sums(a));
            lemma_sum_congruence(graph.degs(), row_sums(a));
            assert(graph.hist() =~= seq![c]);
        }
        Ok(graph)
    }

    /// Creates an undirected graph from an edge list: each edge adds one
    /// to both directed entries, so the resulting matrix is symmetric.
    pub fn from_edge_list(
        edges: &Vec<(usize, usize)>,
        num_vertices: usize,
        initial_configuration: Vec<i32>,
    ) -> (r: Result<Self, ChipFiringError>)
        requires
            2 * edges@.len() <= i32::MAX,
            sum(to_int32(initial_configuration@)) <= i32::MAX,
        ensures
            r is Ok <==> to_int32(initial_configuration@).len() == num_vertices && edges_in_range(
                edges@,
                num_vertices as int,
            ) && all_nonneg(to_int32(initial_configuration@)),
            to_int32(initial_configuration@).len() != num_vertices ==> r == Err::<
                Self,
                ChipFiringError,
            >(ChipFiringError::DimensionMismatch),
            to_int32(initial_configuration@).len() == num_vertices && !edges_in_range(
                edges@,
                num_vertices as int,
            ) ==> r == Err::<Self, ChipFiringError>(ChipFiringError::InvalidGraphStructure),
            to_int32(initial_configuration@).len() == num_vertices && edges_in_range(
                edges@,
                num_vertices as int,
            ) && !all_nonneg(to_int32(initial_configuration@)) ==> r == Err::<
                Self,
                ChipFiringError,
            >(ChipFiringError::NegativeChips),
            r is Ok ==> r->Ok_0.wf(),
            r is Ok ==> r->Ok_0.num_vertices == num_vertices,
            r is Ok ==> r->Ok_0.adj() == mat_of_edges(edges@, num_vertices as int),
            r is Ok ==> forall|x: int, y: int|
                0 <= x < num_vertices && 0 <= y < num_vertices ==> r->Ok_0.adj()[x][y]
                    == #[trigger] r->Ok_0.adj()[y][x],
            r is Ok ==> r->Ok_0.cfg() == to_int32(initial_configuration@),
            r is Ok ==> r->Ok_0.hist() =~= seq![to_int32(initial_configuration@)],
            r is Ok ==> r->Ok_0.update_mode == UpdateMode::Sequential,
            r is Ok ==> r->Ok_0.selection_strategy == VertexSelectionStrategy::FirstActive,
    {
        if initial_configuration.len() != num_vertices {
            return Err(ChipFiringError::DimensionMismatch);
        }

        let n = num_vertices;
        let mut k: usize = 0;
        while k < edges.len()
            invariant
                n == num_vertices,
                initial_configuration@.len() == num_vertices,
                k <= edges@.len(),
                forall|t: int|
                    0 <= t < k ==> (#[trigger] edges@[t]).0 < n && edges@[t].1 < n,
            decreases edges@.len() - k,
        {
            let e = edges[k];
            if e.0 >= n || e.1 >= n {
                proof {
                    assert(!edges_in_range(edges@, n as int)) by {
                        assert(!(edges@[k as int].0 < n && edges@[k as int].1 < n));
                    }
                }
                return Err(ChipFiringError::InvalidGraphStructure);
            }
            k += 1;
        }
        assert(edges_in_range(edges@, n as int));

        // Build the adjacency matrix entry by entry, counting for each pair
        // how many edges of the list connect it, in either direction.
        let mut matrix: Vec<Vec<u32>> = Vec::new();
        let mut a: usize = 0;
        while a < n
            invariant
                n == num_vertices,
                2 * edges@.len() <= i32::MAX,
                a <= n,
                matrix@.len() == a,
                forall|x: int| 0 <= x < a ==> (#[trigger] matrix@[x])@.len() == n,
                forall|x: int, y: int|
                    0 <= x < a && 0 <= y < n ==> #[trigger] matrix@[x]@[y] as int == edge_count(
                        edges@,
                        x,
                        y,
                    ),
            decreases n - a,
        {
            let mut row: Vec<u32> = Vec::new();
            let mut b: usize = 0;
            while b < n
                invariant
                    n == num_vertices,
                    2 * edges@.len() <= i32::MAX,
                    a < n,
                    b <= n,
                    row@.len() == b,
                    forall|y: int|
                        0 <= y < b ==> #[trigger] row@[y] as int == edge_count(
                            edges@,
                            a as int,
                            y,
                        ),
                decreases n - b,
            {
                let mut acc: u32 = 0;
                let mut t: usize = 0;
                while t < edges.len()
                    invariant
                        2 * edges@.len() <= i32::MAX,
                        t <= edges@.len(),
                        acc as int == edge_count(edges@.take(t as int), a as int, b as int),
                        acc as int <= 2 * t,
                    decreases edges@.len() - t,
                {
                    proof {
                        let taken = edges@.take(t as int + 1);
                        assert(taken.drop_last() =~= edges@.take(t as int));
                        assert(taken.last() == edges@[t as int]);
                    }
                    let e = edges[t];
                    if e.0 == a && e.1 == b {
                        acc = acc + 1;
                    }
                    if e.0 == b && e.1 == a {
                        acc = acc + 1;
                    }
                    t += 1;
                }
                proof {
                    assert(edges@.take(edges@.len() as int) =~= edges@);
                }
                row.push(acc);
                b += 1;
            }
            matrix.push(row);
            a += 1;
        }

        proof {
            assert(mat_view(matrix@) =~~= mat_of_edges(edges@, n as int));
            lemma_mat_of_edges_total(edges@, n as int);
        }
        let result = Self::new(matrix, initial_configuration);
        proof {
            if result is Ok {
                let g = result->Ok_0;
                assert forall|x: int, y: int|
                    0 <= x < num_vertices && 0 <= y < num_vertices implies g.adj()[x][y]
                    == #[trigger] g.adj()[y][x] by {
                    lemma_edge_count_sym(edges@, x, y);
                }
            }
        }
        result
    }

    /// Creates a grid graph with 4-connectivity: vertex `y * width + x`
    /// is the cell at column `x` and row `y`, and neighbouring cells are
    /// joined by a single edge.
    pub fn new_grid(width: usize, height: usize, initial_configuration: Vec<i32>) -> (r: Result<
        Self,
        ChipFiringError,
    >)
        requires
            4 * (width * height) <= i32::MAX,
            sum(to_int32(initial_configuration@)) <= i32::MAX,
        ensures
            r is Ok <==> to_int32(initial_configuration@).len() == width * height && all_nonneg(
                to_int32(initial_configuration@),
            ),
            to_int32(initial_configuration@).len() != width * height ==> r == Err::<
                Self,
                ChipFiringError,
            >(ChipFiringError::DimensionMismatch),
            to_int32(initial_configuration@).len() == width * height && !all_nonneg(
                to_int32(initial_configuration@),
            ) ==> r == Err::<Self, ChipFiringError>(ChipFiringError::NegativeChips),
            r is Ok ==> r->Ok_0.wf(),
            r is Ok ==> r->Ok_0.num_vertices == width * height,
            r is Ok ==> forall|x: int, y: int|
                0 <= x < width * height && 0 <= y < width * height
                    ==> #[trigger] r->Ok_0.adj()[x][y] == (if grid_adjacent(width as int, x, y) {
                    1int
                } else {
                    0
                }),
            r is Ok ==> r->Ok_0.cfg() == to_int32(initial_configuration@),
            r is Ok ==> r->Ok_0.hist() =~= seq![to_int32(initial_configuration@)],
            r is Ok ==> r->Ok_0.update_mode == UpdateMode::Sequential,
            r is Ok ==> r->Ok_0.selection_strategy == VertexSelectionStrategy::FirstActive,
    {
        let num_vertices = width * height;

        if initial_configuration.len() != num_vertices {
            return Err(ChipFiringError::DimensionMismatch);
        }

        // Build the grid adjacency matrix entry by entry: two cells are
        // joined when they sit side by side in a row or in a column.
        let mut matrix: Vec<Vec<u32>> = Vec::new();
        let mut a: usize = 0;
        while a < num_vertices
            invariant
                num_vertices == width * height,
                4 * num_vertices <= i32::MAX,
                a <= num_vertices,
                matrix@.len() == a,
                forall|x: int| 0 <= x < a ==> (#[trigger] matrix@[x])@.len() == num_vertices,
                forall|x: int, y: int|
                    0 <= x < a && 0 <= y < num_vertices ==> #[trigger] matrix@[x]@[y] as int == (
                    if grid_adjacent(width as int, x, y) {
                        1int
                    } else {
                        0
                    }),
            decreases num_vertices - a,
        {
            proof {
                assert(width >= 1 && height >= 1) by {
                    if width == 0 || height == 0 {
                        assert(width * height == 0) by (nonlinear_arith)
                            requires
                                width == 0 || height == 0,
                        ;
                    }
                }
                assert(width <= num_vertices) by (nonlinear_arith)
                    requires
                        height >= 1,
                        num_vertices == width * height,
                ;
            }
            let mut row: Vec<u32> = Vec::new();
            let mut b: usize = 0;
            while b < num_vertices
                invariant
                    num_vertices == width * height,
                    4 * num_vertices <= i32::MAX,
                    width >= 1,
                    width <= num_vertices,
                    a < num_vertices,
                    b <= num_vertices,
                    row@.len() == b,
                    forall|y: int|
                        0 <= y < b ==> #[trigger] row@[y] as int == (if grid_adjacent(
                            width as int,
                            a as int,
                            y,
                        ) {
                            1int
                        } else {
                            0
                        }),
                decreases num_vertices - b,
            {
                let same_row = a / width == b / width;
                let adjacent = (same_row && (b == a + 1 || a == b + 1)) || b == a + width || a == b
                    + width;
                if adjacent {
                    row.push(1);
                } else {
                    row.push(0);
                }
                b += 1;
            }
            matrix.push(row);
            a += 1;
        }

        proof {
            let m = mat_view(matrix@);
            let n = num_vertices as int;
            assert forall|x: int| 0 <= x < n implies 0 <= #[trigger] row_sums(m)[x] <= 4 by {
                lemma_grid_row_bound(m[x], width as int, x);
            }
            let bound = Seq::new(n as nat, |x: int| 4int);
            lemma_sum_le(row_sums(m), bound);
            lemma_sum_const(bound, 4);
        }
        Self::new(matrix, initial_configuration)
    }

    /// Returns the indices of the currently active vertices, in increasing
    /// order.  A vertex is active when it has at least as many chips as its
    /// degree.
    pub fn active_vertices(&self) -> (r: Vec<usize>)
        requires
            self.wf(),
        ensures
            forall|k: int| 0 <= k < r@.len() ==> (#[trigger] r@[k]) < self.n(),
            forall|k: int| 0 <= k < r@.len() ==> self.is_active(#[trigger] r@[k] as int),
            forall|v: int| 0 <= v < self.n() && self.is_active(v) ==> r@.contains(v as usize),
            forall|k1: int, k2: int| 0 <= k1 < k2 < r@.len() ==> r@[k1] < r@[k2],
    {
        let mut active: Vec<usize> = Vec::new();
        let mut i: usize = 0;
        while i < self.num_vertices
            invariant
                self.wf(),
                i <= self.num_vertices,
                forall|k: int| 0 <= k < active@.len() ==> (#[trigger] active@[k]) < i,
                forall|k: int| 0 <= k < active@.len() ==> self.is_active(
                    #[trigger] active@[k] as int,
                ),
                forall|v: int| 0 <= v < i && self.is_active(v) ==> active@.contains(v as usize),
                forall|k1: int, k2: int| 0 <= k1 < k2 < active@.len() ==> active@[k1] < active@[k2],
            decreases self.num_vertices - i,
        {
            let ghost pre = active@;
            if self.configuration[i] >= 0 && self.configuration[i] as u32 >= self.degrees[i] {
                active.push(i);
            }
            proof {
                assert forall|v: int|
                    0 <= v < i + 1 && self.is_active(v) implies active@.contains(
                    v as usize,
                ) by {
                    if v < i as int {
                        let k = choose|k: int| 0 <= k < pre.len() && pre[k] == v as usize;
                        assert(active@[k] == v as usize);
                    } else {
                        assert(active@[active@.len() - 1] == i);
                    }
                }
            }
            i += 1;
        }
        active
    }

    /// The current configuration is stable when no vertex is active.
    pub fn is_stable(&self) -> (r: bool)
        requires
            self.wf(),
        ensures
            r <==> forall|v: int| 0 <= v < self.n() ==> !self.is_active(v),
            r <==> forall|v: int| 0 <= v < self.n() ==> self.cfg()[v] < self.degs()[v],
    {
        let active = self.active_vertices();
        if active.len() == 0 {
            proof {
                assert forall|v: int| 0 <= v < self.n() implies !self.is_active(v) by {
                    if self.is_active(v) {
                        assert(active@.contains(v as usize));
                    }
                }
                assert forall|v: int|
                    0 <= v < self.n() implies self.cfg()[v] < self.degs()[v] by {
                    assert(!self.is_active(v));
                }
            }
            true
        } else {
            proof {
                let v = active@[0] as int;
                assert(0 <= v < self.n());
                assert(self.is_active(v));
                assert(!(self.cfg()[v] < self.degs()[v]));
            }
            false
        }
    }

    /// Fires one vertex: it loses one chip per incident edge and every
    /// neighbour gains one chip per connecting edge.  The total chip count
    /// is conserved.  Fails when the vertex is out of range or not active.
    pub fn fire_vertex(&mut self, vertex: usize) -> (r: Result<(), ChipFiringError>)
        requires
            old(self).wf(),
        ensures
            final(self).wf(),
            vertex >= old(self).n() ==> r == Err::<(), ChipFiringError>(
                ChipFiringError::InvalidGraphStructure,
            ) && *final(self) == *old(self),
            vertex < old(self).n() && !old(self).is_active(vertex as int) ==> r == Err::<
                (),
                ChipFiringError,
            >(ChipFiringError::NoActiveVertices) && *final(self) == *old(self),
            vertex < old(self).n() && old(self).is_active(vertex as int) ==> r is Ok,
            r is Ok ==> final(self).cfg() == old(self).fired_from(
                old(self).cfg(),
                vertex as int,
            ),
            r is Ok ==> sum(final(self).cfg()) == sum(old(self).cfg()),
            final(self).num_vertices == old(self).num_vertices,
            final(self).adj() == old(self).adj(),
            final(self).degs() == old(self).degs(),
            final(self).hist() == old(self).hist(),
            final(self).update_mode == old(self).update_mode,
            final(self).selection_strategy == old(self).selection_strategy,
    {
        if vertex >= self.num_vertices {
            return Err(ChipFiringError::InvalidGraphStructure);
        }
        let v = vertex;
        proof {
            lemma_sum_elem_bound(self.degs(), v as int);
        }
        let deg = self.degrees[v] as i32;
        if self.configuration[v] < deg {
            return Err(ChipFiringError::NoActiveVertices);
        }

        let ghost c0 = self.cfg();
        let ghost row = self.adj()[v as int];
        let ghost n = self.n();

        // The firing vertex loses one chip per outgoing edge.
        let cur = self.configuration[v];
        self.configuration.set(v, cur - deg);
        proof {
            lemma_sum_update(c0, v as int, c0[v as int] - self.degs()[v as int]);
            assert(self.cfg() =~= c0.update(v as int, c0[v as int] - self.degs()[v as int]));
        }

        // Each vertex gains one chip per edge from the firing vertex; the
        // running total stays at most the original total, so every addition
        // fits an `i32`.
        let mut j: usize = 0;
        while j < self.num_vertices
            invariant
                self.wf_static(),
                self.num_vertices == old(self).num_vertices,
                self.adjacency_matrix == old(self).adjacency_matrix,
                self.degrees == old(self).degrees,
                self.history == old(self).history,
                self.update_mode == old(self).update_mode,
                self.selection_strategy == old(self).selection_strategy,
                c0 == old(self).cfg(),
                v == vertex,
                n == self.n(),
                v < n,
                row == self.adj()[v as int],
                sum(row) == self.degs()[v as int],
                c0.len() == n,
                all_nonneg(c0),
                sum(c0) <= i32::MAX,
                c0[v as int] >= self.degs()[v as int],
                j <= n,
                self.cfg().len() == n,
                forall|t: int|
                    j <= t < n ==> #[trigger] self.cfg()[t] == c0[t] - if t == v as int {
                        self.degs()[v as int]
                    } else {
                        0
                    },
                forall|t: int|
                    0 <= t < j ==> #[trigger] self.cfg()[t] == c0[t] + self.fire_delta(
                        v as int,
                        t,
                    ),
                all_nonneg(self.cfg()),
                sum(self.cfg()) == sum(c0) - self.degs()[v as int] + sum(row.take(j as int)),
            decreases n - j,
        {
            proof {
                lemma_sum_take_le(row, j as int);
                lemma_sum_take_step(row, j as int);
                lemma_sum_take_le(row, j as int + 1);
                lemma_sum_elem_bound(self.cfg(), j as int);
                lemma_sum_nonneg(self.cfg());
            }
            let add = self.adjacency_matrix[v][j] as i32;
            let cur_j = self.configuration[j];
            let ghost before = self.cfg();
            self.configuration.set(j, cur_j + add);
            proof {
                lemma_sum_update(before, j as int, before[j as int] + row[j as int]);
                assert(self.cfg() =~= before.update(j as int, before[j as int] + row[j as int]));
            }
            j += 1;
        }
        proof {
            lemma_sum_take_all(row);
            assert(self.cfg() =~= old(self).fired_from(old(self).cfg(), vertex as int));
            assert(self.hist() == old(self).hist());
        }
        Ok(())
    }

    /// Performs one step of the dynamics.  In Sequential mode one active
    /// vertex fires, the lowest-indexed one under FirstActive and a random
    /// one under RandomActive; in Parallel mode every active vertex fires
    /// against the same pre-step configuration.  A successful step appends
    /// the new configuration to the history and conserves the chip total.
    /// Fails when no vertex is active.
    #[verifier::rlimit(30)]
    pub fn step(&mut self, rng: &mut rand::rngs::StdRng) -> (r: Result<(), ChipFiringError>)
        requires
            old(self).wf(),
        ensures
            final(self).wf(),
            final(self).num_vertices == old(self).num_vertices,
            final(self).adj() == old(self).adj(),
            final(self).degs() == old(self).degs(),
            final(self).update_mode == old(self).update_mode,
            final(self).selection_strategy == old(self).selection_strategy,
            (forall|v: int| 0 <= v < old(self).n() ==> !old(self).is_active(v)) ==> r == Err::<
                (),
                ChipFiringError,
            >(ChipFiringError::NoActiveVertices),
            (exists|v: int| 0 <= v < old(self).n() && old(self).is_active(v)) ==> r is Ok,
            r is Ok ==> old(self).step_rel(old(self).cfg(), final(self).cfg()),
            r is Ok ==> sum(final(self).cfg()) == sum(old(self).cfg()),
            r is Ok ==> final(self).hist() == old(self).hist().push(final(self).cfg()),
            r is Err ==> *final(self) == *old(self),
    {
        let active = self.active_vertices();
        if active.len() == 0 {
            proof {
                assert forall|v: int| 0 <= v < self.n() implies !self.is_active(v) by {
                    if self.is_active(v) {
                        assert(active@.contains(v as usize));
                    }
                }
            }
            return Err(ChipFiringError::NoActiveVertices);
        }
        proof {
            assert(self.is_active(active@[0] as int));
        }

        match self.update_mode {
            UpdateMode::Sequential => {
                let chosen: usize = match self.selection_strategy {
                    VertexSelectionStrategy::FirstActive => active[0],
                    VertexSelectionStrategy::RandomActive => {
                        let idx = gen_below(rng, active.len());
                        active[idx]
                    },
                };
                proof {
                    assert(self.is_active(chosen as int));
                    if self.selection_strategy == VertexSelectionStrategy::FirstActive {
                        assert forall|u: int| 0 <= u < chosen as int implies !self.is_active(
                            u,
                        ) by {
                            if self.is_active(u) {
                                assert(active@.contains(u as usize));
                                let k = choose|k: int|
                                    0 <= k < active@.len() && active@[k] == u as usize;
                                if k > 0 {
                                    assert(active@[0] < active@[k]);
                                }
                            }
                        }
                    }
                }
                let ghost pre = *self;
                match self.fire_vertex(chosen) {
                    Ok(_) => {},
                    Err(e) => {
                        proof {
                            assert(false);
                        }
                        return Err(e);
                    },
                }
                let snap = copy_vec_i32(&self.configuration);
                self.history.push(snap);
                proof {
                    assert(self.hist() =~= pre.hist().push(self.cfg()));
                    assert(old(self).is_active(chosen as int));
                    assert(old(self).step_rel(old(self).cfg(), self.cfg())) by {
                        let a0 = old(self).cfg();
                        assert(old(self).active_in(a0, chosen as int));
                        assert(self.cfg() == old(self).fired_from(a0, chosen as int));
                        if old(self).selection_strategy == VertexSelectionStrategy::FirstActive {
                            assert forall|u: int|
                                0 <= u < chosen as int implies !old(self).active_in(a0, u) by {
                                assert(!old(self).is_active(u));
                            }
                        }
                    }
                }
                Ok(())
            },
            UpdateMode::Parallel => {
                let ghost c = self.cfg();
                proof {
                    lemma_parallel_step(*self, c);
                    lemma_sum_nonneg(self.parallel_from(c));
                }
                let n = self.num_vertices;
                let mut next: Vec<i32> = Vec::new();
                let mut j: usize = 0;
                while j < n
                    invariant
                        *self == *old(self),
                        self.wf(),
                        c == self.cfg(),
                        n == self.num_vertices,
                        all_nonneg(self.parallel_from(c)),
                        sum(self.parallel_from(c)) == sum(c),
                        j <= n,
                        next@.len() == j,
                        forall|t: int|
                            0 <= t < j ==> #[trigger] next@[t] as int == self.parallel_from(c)[t],
                    decreases n - j,
                {
                    let mut gval: i64 = 0;
                    let mut v: usize = 0;
                    while v < n
                        invariant
                            *self == *old(self),
                            self.wf(),
                            c == self.cfg(),
                            n == self.num_vertices,
                            j < n,
                            v <= n,
                            gval == self.gain_upto(c, j as int, v as int),
                        decreases n - v,
                    {
                        proof {
                            lemma_gain_upto_bounds(*self, c, j as int, v as int);
                            lemma_sum_take_le(self.degs(), v as int);
                            lemma_sum_elem_bound(self.adj()[v as int], j as int);
                            lemma_sum_elem_bound(self.degs(), v as int);
                        }
                        if self.configuration[v] >= 0 && self.configuration[v] as u32
                            >= self.degrees[v] {
                            gval = gval + self.adjacency_matrix[v][j] as i64;
                        }
                        v += 1;
                    }
                    proof {
                        lemma_gain_upto_bounds(*self, c, j as int, n as int);
                        lemma_sum_take_all(self.degs());
                        lemma_sum_elem_bound(self.parallel_from(c), j as int);
                        lemma_sum_elem_bound(c, j as int);
                        lemma_sum_elem_bound(self.degs(), j as int);
                    }
                    let base = self.configuration[j] as i64;
                    let out: i64 = if self.configuration[j] >= 0 && self.configuration[j] as u32
                        >= self.degrees[j] {
                        self.degrees[j] as i64
                    } else {
                        0
                    };
                    let val = base + gval - out;
                    proof {
                        assert(val == self.parallel_from(c)[j as int]);
                    }
                    next.push(val as i32);
                    j += 1;
                }
                self.configuration = next;
                let snap = copy_vec_i32(&self.configuration);
                self.history.push(snap);
                proof {
                    assert(self.cfg() =~= old(self).parallel_from(c));
                    assert(self.hist() =~= old(self).hist().push(self.cfg()));
                }
                Ok(())
            },
        }
    }

    /// Runs the dynamics until the configuration is stable or `max_steps`
    /// steps were taken, whichever comes first.  Returns the number of
    /// steps actually performed; running out of active vertices counts as
    /// having reached stability, never as an error.
    pub fn run(&mut self, max_steps: usize, rng: &mut rand::rngs::StdRng) -> (r: Result<
        usize,
        ChipFiringError,
    >)
        requires
            old(self).wf(),
        ensures
            r is Ok,
            r->Ok_0 <= max_steps,
            final(self).wf(),
            final(self).num_vertices == old(self).num_vertices,
            final(self).adj() == old(self).adj(),
            final(self).degs() == old(self).degs(),
            final(self).update_mode == old(self).update_mode,
            final(self).selection_strategy == old(self).selection_strategy,
            sum(final(self).cfg()) == sum(old(self).cfg()),
            r->Ok_0 < max_steps ==> forall|v: int|
                0 <= v < final(self).n() ==> !final(self).is_active(v),
            final(self).hist().len() == old(self).hist().len() + r->Ok_0,
            forall|t: int|
                0 <= t < old(self).hist().len() ==> final(self).hist()[t] == old(self).hist()[t],
            r->Ok_0 > 0 ==> old(self).step_rel(
                old(self).cfg(),
                final(self).hist()[old(self).hist().len() as int],
            ),
            forall|t: int|
                old(self).hist().len() <= t < final(self).hist().len() - 1 ==> old(self).step_rel(
                    final(self).hist()[t],
                    #[trigger] final(self).hist()[t + 1],
                ),
            r->Ok_0 > 0 ==> final(self).cfg() == final(self).hist().last(),
            r->Ok_0 == 0 ==> *final(self) == *old(self),
            (forall|v: int| 0 <= v < old(self).n() ==> !old(self).is_active(v)) ==> r->Ok_0 == 0,
            r->Ok_0 > 0 ==> old(self).has_active(old(self).cfg()),
            forall|t: int|
                old(self).hist().len() <= t < final(self).hist().len() - 1 ==> old(
                    self,
                ).has_active(#[trigger] final(self).hist()[t]),
    {
        let mut i: usize = 0;
        while i < max_steps
            invariant
                self.wf(),
                i <= max_steps,
                self.num_vertices == old(self).num_vertices,
                self.adj() == old(self).adj(),
                self.degs() == old(self).degs(),
                self.update_mode == old(self).update_mode,
                self.selection_strategy == old(self).selection_strategy,
                sum(self.cfg()) == sum(old(self).cfg()),
                self.hist().len() == old(self).hist().len() + i,
                forall|t: int|
                    0 <= t < old(self).hist().len() ==> self.hist()[t] == old(self).hist()[t],
                i > 0 ==> old(self).step_rel(
                    old(self).cfg(),
                    self.hist()[old(self).hist().len() as int],
                ),
                forall|t: int|
                    old(self).hist().len() <= t < self.hist().len() - 1 ==> old(self).step_rel(
                        self.hist()[t],
                        #[trigger] self.hist()[t + 1],
                    ),
                i > 0 ==> self.cfg() == self.hist().last(),
                i == 0 ==> *self == *old(self),
                i > 0 ==> old(self).has_active(old(self).cfg()),
                forall|t: int|
                    old(self).hist().len() <= t < self.hist().len() - 1 ==> old(self).has_active(
                        #[trigger] self.hist()[t],
                    ),
            decreases max_steps - i,
        {
            if self.is_stable() {
                proof {
                    if i > 0 {
                        let av = choose|v: int|
                            0 <= v < old(self).n() && old(self).active_in(old(self).cfg(), v);
                        assert(old(self).is_active(av));
                    }
                }
                return Ok(i);
            }
            // The configuration about to be stepped has an active vertex;
            // it is the pre-step state this iteration's history entry will
            // leave behind.
            let ghost vv = choose|v: int| 0 <= v < self.n() && self.is_active(v);
            proof {
                assert(old(self).active_in(self.cfg(), vv));
                assert(old(self).has_active(self.cfg()));
                if i == 0 {
                    assert(old(self).has_active(old(self).cfg()));
                }
            }
            let ghost pre = *self;
            match self.step(rng) {
                Ok(_) => {
                    proof {
                        lemma_step_rel_same(pre, *old(self), pre.cfg(), self.cfg());
                        if i > 0 {
                            assert(self.hist()[self.hist().len() - 2] == pre.cfg());
                        }
                        assert forall|t: int|
                            old(self).hist().len() <= t < self.hist().len() - 1 implies old(
                            self,
                        ).has_active(#[trigger] self.hist()[t]) by {
                            if t == self.hist().len() - 2 {
                                assert(old(self).active_in(self.hist()[t], vv));
                            } else {
                                assert(self.hist()[t] == pre.hist()[t]);
                            }
                        }
                    }
                },
                Err(e) => {
                    if matches!(e, ChipFiringError::NoActiveVertices) {
                        return Ok(i);
                    } else {
                        proof {
                            assert(false);
                        }
                        return Err(e);
                    }
                },
            }
            i += 1;
        }
        proof {
            if max_steps > 0 {
                let av = choose|v: int|
                    0 <= v < old(self).n() && old(self).active_in(old(self).cfg(), v);
                assert(old(self).is_active(av));
            }
        }
        Ok(max_steps)
    }

    /// Adds one chip to the given vertex, logs the new configuration, and
    /// runs the dynamics until stable or until `max_steps` steps were
    /// taken.  Returns the number of steps of the resulting avalanche:
    /// under the Sequential mode that is the number of individual
    /// firings, while one Parallel step may fire many vertices at once.
    pub fn trigger_avalanche(
        &mut self,
        vertex: usize,
        max_steps: usize,
        rng: &mut rand::rngs::StdRng,
    ) -> (r: Result<usize, ChipFiringError>)
        requires
            old(self).wf(),
            sum(old(self).cfg()) < i32::MAX,
        ensures
            final(self).wf(),
            final(self).num_vertices == old(self).num_vertices,
            final(self).adj() == old(self).adj(),
            final(self).degs() == old(self).degs(),
            final(self).update_mode == old(self).update_mode,
            final(self).selection_strategy == old(self).selection_strategy,
            vertex >= old(self).n() ==> r == Err::<usize, ChipFiringError>(
                ChipFiringError::InvalidGraphStructure,
            ) && *final(self) == *old(self),
            vertex < old(self).n() ==> r is Ok,
            r is Ok ==> r->Ok_0 <= max_steps,
            r is Ok ==> sum(final(self).cfg()) == sum(old(self).cfg()) + 1,
            r is Ok && r->Ok_0 < max_steps ==> forall|v: int|
                0 <= v < final(self).n() ==> !final(self).is_active(v),
            r is Ok ==> final(self).hist().len() == old(self).hist().len() + 1 + r->Ok_0,
            r is Ok ==> forall|t: int|
                0 <= t < old(self).hist().len() ==> final(self).hist()[t] == old(self).hist()[t],
            r is Ok ==> final(self).hist()[old(self).hist().len() as int] == old(self).cfg().update(
                vertex as int,
                old(self).cfg()[vertex as int] + 1,
            ),
    {
        if vertex >= self.num_vertices {
            return Err(ChipFiringError::InvalidGraphStructure);
        }

        // One chip lands on the chosen vertex; the total was strictly below
        // the bound, so the new count still fits.
        proof {
            lemma_sum_elem_bound(self.cfg(), vertex as int);
        }
        let cur = self.configuration[vertex];
        self.configuration.set(vertex, cur + 1);
        proof {
            lemma_sum_update(
                old(self).cfg(),
                vertex as int,
                old(self).cfg()[vertex as int] + 1,
            );
            assert(self.cfg() =~= old(self).cfg().update(
                vertex as int,
                old(self).cfg()[vertex as int] + 1,
            ));
        }
        let snap = copy_vec_i32(&self.configuration);
        self.history.push(snap);
        proof {
            assert(self.hist() =~= old(self).hist().push(self.cfg()));
        }
        self.run(max_steps, rng)
    }

    /// The parts of well-formedness that do not mention the current
    /// configuration or the history.
    pub open spec fn wf_static(self) -> bool {
        &&& self.adj().len() == self.n()
        &&& rows_square(self.adj())
        &&& forall|i: int, j: int|
            0 <= i < self.n() && 0 <= j < self.n() ==> 0 <= #[trigger] self.adj()[i][j]
        &&& self.degs().len() == self.n()
        &&& forall|i: int| 0 <= i < self.n() ==> #[trigger] self.degs()[i] == sum(self.adj()[i])
        &&& sum(self.degs()) <= i32::MAX
    }

    /// Discards the logged trajectory, keeping only the current
    /// configuration as the single history entry.
    pub fn clear_history(&mut self)
        requires
            old(self).wf(),
        ensures
            final(self).wf(),
            final(self).configuration == old(self).configuration,
            final(self).hist() =~= seq![old(self).cfg()],
            final(self).num_vertices == old(self).num_vertices,
            final(self).adj() == old(self).adj(),
            final(self).degs() == old(self).degs(),
            final(self).update_mode == old(self).update_mode,
            final(self).selection_strategy == old(self).selection_strategy,
    {
        let current = copy_vec_i32(&self.configuration);
        let mut history: Vec<Vec<i32>> = Vec::new();
        history.push(current);
        self.history = history;
    }

    /// Restores the configuration recorded when the history was last
    /// cleared, and truncates the history to that single entry.
    pub fn reset(&mut self)
        requires
            old(self).wf(),
        ensures
            final(self).wf(),
            final(self).cfg() == old(self).hist()[0],
            final(self).hist() =~= seq![old(self).hist()[0]],
            final(self).num_vertices == old(self).num_vertices,
            final(self).adj() == old(self).adj(),
            final(self).degs() == old(self).degs(),
            final(self).update_mode == old(self).update_mode,
            final(self).selection_strategy == old(self).selection_strategy,
    {
        if self.history.len() > 0 {
            let first = copy_vec_i32(&self.history[0]);
            self.configuration = first;
            let entry = copy_vec_i32(&self.configuration);
            let mut history: Vec<Vec<i32>> = Vec::new();
            history.push(entry);
            self.history = history;
            proof {
                assert(old(self).valid_cfg(old(self).hist()[0]));
                assert(self.cfg() == old(self).hist()[0]);
                assert(self.hist() =~= seq![old(self).hist()[0]]);
            }
        }
    }

    /// Replaces the configuration outright and restarts the history from
    /// it.  Fails when the length does not match or a chip count is
    /// negative.
    pub fn set_configuration(&mut self, configuration: Vec<i32>) -> (r: Result<
        (),
        ChipFiringError,
    >)
        requires
            old(self).wf(),
            sum(to_int32(configuration@)) <= i32::MAX,
        ensures
            final(self).wf(),
            r is Ok <==> to_int32(configuration@).len() == old(self).n() && all_nonneg(
                to_int32(configuration@),
            ),
            to_int32(configuration@).len() != old(self).n() ==> r == Err::<(), ChipFiringError>(
                ChipFiringError::DimensionMismatch,
            ),
            to_int32(configuration@).len() == old(self).n() && !all_nonneg(
                to_int32(configuration@),
            ) ==> r == Err::<(), ChipFiringError>(ChipFiringError::NegativeChips),
            r is Ok ==> final(self).cfg() == to_int32(configuration@),
            r is Ok ==> final(self).hist() =~= seq![to_int32(configuration@)],
            r is Err ==> *final(self) == *old(self),
            final(self).num_vertices == old(self).num_vertices,
            final(self).adj() == old(self).adj(),
            final(self).degs() == old(self).degs(),
            final(self).update_mode == old(self).update_mode,
            final(self).selection_strategy == old(self).selection_strategy,
    {
        let ghost c = to_int32(configuration@);
        if configuration.len() != self.num_vertices {
            return Err(ChipFiringError::DimensionMismatch);
        }
        let mut j: usize = 0;
        while j < configuration.len()
            invariant
                *self == *old(self),
                self.wf(),
                c == to_int32(configuration@),
                configuration@.len() == old(self).n(),
                j <= configuration@.len(),
                forall|k: int| 0 <= k < j ==> c[k] >= 0,
            decreases configuration@.len() - j,
        {
            if configuration[j] < 0 {
                proof {
                    assert(!all_nonneg(c)) by {
                        assert(c[j as int] < 0);
                    }
                }
                return Err(ChipFiringError::NegativeChips);
            }
            j += 1;
        }
        let entry = copy_vec_i32(&configuration);
        self.configuration = configuration;
        let mut history: Vec<Vec<i32>> = Vec::new();
        history.push(entry);
        self.history = history;
        Ok(())
    }

    /// The neighbours of a vertex: every vertex connected to it by at
    /// least one edge, in increasing order.  An out-of-range vertex has no
    /// neighbours.
    pub fn neighbors(&self, vertex: usize) -> (r: Vec<usize>)
        requires
            self.wf(),
        ensures
            vertex >= self.n() ==> r@.len() == 0,
            forall|k: int| 0 <= k < r@.len() ==> (#[trigger] r@[k]) < self.n(),
            vertex < self.n() ==> forall|k: int|
                0 <= k < r@.len() ==> self.adj()[vertex as int][#[trigger] r@[k] as int] > 0,
            vertex < self.n() ==> forall|j: int|
                0 <= j < self.n() && self.adj()[vertex as int][j] > 0 ==> r@.contains(j as usize),
            forall|k1: int, k2: int| 0 <= k1 < k2 < r@.len() ==> r@[k1] < r@[k2],
    {
        let mut result: Vec<usize> = Vec::new();
        if vertex < self.num_vertices {
            let mut j: usize = 0;
            while j < self.num_vertices
                invariant
                    self.wf(),
                    vertex < self.num_vertices,
                    j <= self.num_vertices,
                    forall|k: int| 0 <= k < result@.len() ==> (#[trigger] result@[k]) < j,
                    forall|k: int|
                        0 <= k < result@.len() ==> self.adj()[vertex as int][
                            #[trigger] result@[k] as int
                        ] > 0,
                    forall|t: int|
                        0 <= t < j && self.adj()[vertex as int][t] > 0 ==> result@.contains(
                            t as usize,
                        ),
                    forall|k1: int, k2: int|
                        0 <= k1 < k2 < result@.len() ==> result@[k1] < result@[k2],
                decreases self.num_vertices - j,
            {
                let ghost pre = result@;
                proof {
                    assert(self.adjacency_matrix@.len() == self.n());
                    assert(self.adj()[vertex as int].len() == self.n());
                }
                if self.adjacency_matrix[vertex][j] > 0 {
                    result.push(j);
                }
                proof {
                    assert forall|t: int|
                        0 <= t < j + 1 && self.adj()[vertex as int][t] > 0 implies result@.contains(
                        t as usize,
                    ) by {
                        if t < j as int {
                            let k = choose|k: int| 0 <= k < pre.len() && pre[k] == t as usize;
                            assert(result@[k] == t as usize);
                        } else {
                            assert(result@[result@.len() - 1] == j);
                        }
                    }
                }
                j += 1;
            }
        }
        result
    }

    /// The total number of chips currently in the system.
    pub fn total_chips(&self) -> (r: i32)
        requires
            self.wf(),
        ensures
            r as int == sum(self.cfg()),
    {
        let mut acc: i32 = 0;
        let mut i: usize = 0;
        while i < self.num_vertices
            invariant
                self.wf(),
                i <= self.num_vertices,
                acc as int == sum(self.cfg().take(i as int)),
            decreases self.num_vertices - i,
        {
            proof {
                lemma_sum_take_step(self.cfg(), i as int);
                lemma_sum_take_le(self.cfg(), i as int + 1);
                lemma_sum_take_le(self.cfg(), i as int);
            }
            acc = acc + self.configuration[i];
            i += 1;
        }
        proof {
            lemma_sum_take_all(self.cfg());
        }
        acc
    }
}

/// Parallel gains are non-negative and bounded by the total of the first
/// `k` degrees.
proof fn lemma_gain_upto_bounds(g: ChipFiringGraph, c: Seq<int>, j: int, k: int)
    requires
        g.wf_static(),
        0 <= j < g.n(),
        0 <= k <= g.n(),
    ensures
        0 <= g.gain_upto(c, j, k),
        g.gain_upto(c, j, k) <= sum(g.degs().take(k)),
    decreases k,
{
    if k > 0 {
        lemma_gain_upto_bounds(g, c, j, k - 1);
        lemma_sum_take_step(g.degs(), k - 1);
        if g.active_in(c, k - 1) {
            lemma_sum_elem_bound(g.adj()[k - 1], j);
        }
    }
}

/// Summed over all vertices, the parallel gains equal the chips sent out by
/// the active vertices: each edge of an active vertex carries exactly one
/// chip.
proof fn lemma_gain_total_upto(g: ChipFiringGraph, c: Seq<int>, k: int)
    requires
        g.wf_static(),
        0 <= k <= g.n(),
    ensures
        sum(Seq::new(g.n() as nat, |j: int| g.gain_upto(c, j, k))) == sum(
            g.act_deg(c).take(k),
        ),
    decreases k,
{
    let n = g.n();
    if k == 0 {
        lemma_sum_zero(Seq::new(n as nat, |j: int| g.gain_upto(c, j, 0)));
    } else {
        lemma_gain_total_upto(g, c, k - 1);
        let prev = Seq::new(n as nat, |j: int| g.gain_upto(c, j, k - 1));
        let last = Seq::new(
            n as nat,
            |j: int|
                if g.active_in(c, k - 1) {
                    g.adj()[k - 1][j]
                } else {
                    0
                },
        );
        let cur = Seq::new(n as nat, |j: int| g.gain_upto(c, j, k));
        lemma_sum_pointwise_add(prev, last, cur);
        if g.active_in(c, k - 1) {
            assert(last =~= g.adj()[k - 1]);
        } else {
            lemma_sum_zero(last);
        }
        lemma_sum_take_step(g.act_deg(c), k - 1);
    }
}

/// Law: a parallel step never leaves a vertex with a negative chip
/// count, even when simultaneously firing vertices are adjacent, and it
/// conserves the total number of chips.  An active vertex loses at most
/// the chips that made it active, and every other vertex only gains.
pub proof fn lemma_parallel_step(g: ChipFiringGraph, c: Seq<int>)
    requires
        g.wf_static(),
        c.len() == g.n(),
        all_nonneg(c),
    ensures
        all_nonneg(g.parallel_from(c)),
        sum(g.parallel_from(c)) == sum(c),
{
    let n = g.n();
    let p = g.parallel_from(c);
    assert forall|j: int| 0 <= j < p.len() implies p[j] >= 0 by {
        lemma_gain_upto_bounds(g, c, j, n);
    }

    let gains = Seq::new(n as nat, |j: int| g.gain(c, j));
    let deltas = Seq::new(
        n as nat,
        |j: int| g.gain(c, j) - if g.active_in(c, j) {
            g.degs()[j]
        } else {
            0
        },
    );
    let neg_out = Seq::new(
        n as nat,
        |j: int|
            -(if g.active_in(c, j) {
                g.degs()[j]
            } else {
                0
            }),
    );
    lemma_sum_pointwise_add(c, deltas, p);
    lemma_sum_pointwise_add(gains, neg_out, deltas);
    lemma_sum_pointwise_add(g.act_deg(c), neg_out, Seq::new(n as nat, |j: int| 0));
    lemma_sum_zero(Seq::new(n as nat, |j: int| 0));
    lemma_gain_total_upto(g, c, n);
    lemma_sum_take_all(g.act_deg(c));
    assert(gains =~= Seq::new(n as nat, |j: int| g.gain_upto(c, j, n)));
}

/// An edge count lies between zero and twice the number of edges.
proof fn lemma_edge_count_bounds(edges: Seq<(usize, usize)>, a: int, b: int)
    ensures
        0 <= edge_count(edges, a, b),
        edge_count(edges, a, b) <= 2 * edges.len(),
    decreases edges.len(),
{
    if edges.len() > 0 {
        lemma_edge_count_bounds(edges.drop_last(), a, b);
    }
}

/// Counting edges from `a` to `b` or from `b` to `a` is the same.
proof fn lemma_edge_count_sym(edges: Seq<(usize, usize)>, a: int, b: int)
    ensures
        edge_count(edges, a, b) == edge_count(edges, b, a),
    decreases edges.len(),
{
    if edges.len() > 0 {
        lemma_edge_count_sym(edges.drop_last(), a, b);
    }
}

/// A row of the edge-list matrix sums to the number of endpoints at that
/// row's vertex.
proof fn lemma_edge_row_total(edges: Seq<(usize, usize)>, n: int, a: int)
    requires
        edges_in_range(edges, n),
        0 <= a < n,
    ensures
        sum(Seq::new(n as nat, |b: int| edge_count(edges, a, b))) == endpoint_count(edges, a),
    decreases edges.len(),
{
    let row = Seq::new(n as nat, |b: int| edge_count(edges, a, b));
    if edges.len() == 0 {
        lemma_sum_zero(row);
    } else {
        let rest = edges.drop_last();
        let e = edges.last();
        assert(e == edges[edges.len() - 1]);
        assert(forall|k: int| 0 <= k < rest.len() ==> rest[k] == edges[k]);
        lemma_edge_row_total(rest, n, a);
        let prev = Seq::new(n as nat, |b: int| edge_count(rest, a, b));
        let delta = Seq::new(
            n as nat,
            |b: int| (if e.0 == a && e.1 == b {
                1int
            } else {
                0
            }) + (if e.0 == b && e.1 == a {
                1int
            } else {
                0
            }),
        );
        lemma_sum_pointwise_add(prev, delta, row);
        let f = e.0 as int;
        let t = e.1 as int;
        if e.0 == a && e.1 == a {
            lemma_sum_unit(delta, a);
        } else if e.0 == a {
            lemma_sum_unit(delta, t);
        } else if e.1 == a {
            lemma_sum_unit(delta, f);
        } else {
            lemma_sum_zero(delta);
        }
    }
}

/// Every edge contributes exactly two endpoints.
proof fn lemma_endpoint_total(edges: Seq<(usize, usize)>, n: int)
    requires
        edges_in_range(edges, n),
        n >= 0,
    ensures
        sum(Seq::new(n as nat, |v: int| endpoint_count(edges, v))) == 2 * edges.len(),
    decreases edges.len(),
{
    let totals = Seq::new(n as nat, |v: int| endpoint_count(edges, v));
    if edges.len() == 0 {
        lemma_sum_zero(totals);
    } else {
        let rest = edges.drop_last();
        let e = edges.last();
        assert(e == edges[edges.len() - 1]);
        assert(forall|k: int| 0 <= k < rest.len() ==> rest[k] == edges[k]);
        lemma_endpoint_total(rest, n);
        let prev = Seq::new(n as nat, |v: int| endpoint_count(rest, v));
        let delta = Seq::new(
            n as nat,
            |v: int| (if e.0 == v {
                1int
            } else {
                0
            }) + (if e.1 == v {
                1int
            } else {
                0
            }),
        );
        lemma_sum_pointwise_add(prev, delta, totals);
        let f = e.0 as int;
        let t = e.1 as int;
        if e.0 == e.1 {
            lemma_sum_unit(delta, f);
        } else {
            lemma_sum_two_units(delta, f, t);
        }
    }
}

/// The matrix of an in-range edge list has one entry per directed edge:
/// its total is twice the number of edges.
proof fn lemma_mat_of_edges_total(edges: Seq<(usize, usize)>, n: int)
    requires
        edges_in_range(edges, n),
        n >= 0,
    ensures
        mat_total(mat_of_edges(edges, n)) == 2 * edges.len(),
{
    let m = mat_of_edges(edges, n);
    assert forall|a: int| 0 <= a < n implies #[trigger] row_sums(m)[a] == endpoint_count(
        edges,
        a,
    ) by {
        assert(m[a] == Seq::new(n as nat, |b: int| edge_count(edges, a, b)));
        lemma_edge_row_total(edges, n, a);
    }
    lemma_sum_congruence(row_sums(m), Seq::new(n as nat, |v: int| endpoint_count(edges, v)));
    lemma_endpoint_total(edges, n);
}

/// A row of a grid adjacency matrix holds at most four ones: a cell has at
/// most four neighbours.
proof fn lemma_grid_row_bound(row: Seq<int>, w: int, a: int)
    requires
        forall|b: int|
            0 <= b < row.len() ==> row[b] == (if grid_adjacent(w, a, b) {
                1int
            } else {
                0
            }),
        0 <= a,
    ensures
        0 <= sum(row),
        sum(row) <= 4,
{
    let n = row.len() as int;
    assert forall|j: int| 0 <= j < row.len() implies row[j] >= 0 by {}
    lemma_sum_nonneg(row);

    let u1 = Seq::new(
        n as nat,
        |b: int|
            if w >= 1 && a / w == b / w && b == a + 1 {
                1int
            } else {
                0
            },
    );
    let u2 = Seq::new(
        n as nat,
        |b: int|
            if w >= 1 && a / w == b / w && b == a - 1 {
                1int
            } else {
                0
            },
    );
    let u3 = Seq::new(
        n as nat,
        |b: int|
            if w >= 1 && b == a + w {
                1int
            } else {
                0
            },
    );
    let u4 = Seq::new(
        n as nat,
        |b: int|
            if w >= 1 && b == a - w {
                1int
            } else {
                0
            },
    );
    let s12 = Seq::new(n as nat, |b: int| u1[b] + u2[b]);
    let s123 = Seq::new(n as nat, |b: int| u1[b] + u2[b] + u3[b]);
    lemma_sum_pointwise_add(u1, u2, s12);
    lemma_sum_pointwise_add(s12, u3, s123);
    assert forall|b: int| 0 <= b < n implies row[b] == s123[b] + u4[b] by {
        if w >= 1 {
            assert(a / 1 == a);
            assert(b / 1 == b);
        }
    }
    lemma_sum_pointwise_add(s123, u4, row);
    if 0 <= a + 1 < n {
        lemma_sum_unit(u1, a + 1);
    } else {
        lemma_sum_zero(u1);
    }
    if 0 <= a - 1 < n {
        lemma_sum_unit(u2, a - 1);
    } else {
        lemma_sum_zero(u2);
    }
    if 0 <= a + w < n {
        lemma_sum_unit(u3, a + w);
    } else {
        lemma_sum_zero(u3);
    }
    if 0 <= a - w < n {
        lemma_sum_unit(u4, a - w);
    } else {
        lemma_sum_zero(u4);
    }
}

/// Parallel gains only depend on the graph structure, not on the current
/// configuration or history.
proof fn lemma_gain_upto_same(
    g1: ChipFiringGraph,
    g2: ChipFiringGraph,
    c: Seq<int>,
    j: int,
    k: int,
)
    requires
        g1.degs() == g2.degs(),
        g1.adj() == g2.adj(),
    ensures
        g1.gain_upto(c, j, k) == g2.gain_upto(c, j, k),
    decreases k,
{
    if k > 0 {
        lemma_gain_upto_same(g1, g2, c, j, k - 1);
    }
}

/// The step relation only depends on the graph structure, the mode and the
/// strategy, not on the current configuration or history.
proof fn lemma_step_rel_same(g1: ChipFiringGraph, g2: ChipFiringGraph, a: Seq<int>, b: Seq<int>)
    requires
        g1.num_vertices == g2.num_vertices,
        g1.degs() == g2.degs(),
        g1.adj() == g2.adj(),
        g1.update_mode == g2.update_mode,
        g1.selection_strategy == g2.selection_strategy,
        g1.step_rel(a, b),
    ensures
        g2.step_rel(a, b),
{
    match g1.update_mode {
        UpdateMode::Sequential => {
            let v = choose|v: int|
                0 <= v < g1.n() && #[trigger] g1.active_in(a, v) && b == g1.fired_from(a, v) && (
                g1.selection_strategy == VertexSelectionStrategy::FirstActive ==> forall|u: int|
                    0 <= u < v ==> !g1.active_in(a, u));
            assert(g2.active_in(a, v));
            assert(b =~= g2.fired_from(a, v));
            if g2.selection_strategy == VertexSelectionStrategy::FirstActive {
                assert forall|u: int| 0 <= u < v implies !g2.active_in(a, u) by {
                    assert(!g1.active_in(a, u));
                }
            }
        },
        UpdateMode::Parallel => {
            assert forall|j: int| 0 <= j < g1.n() implies g1.gain(a, j) == g2.gain(a, j) by {
                lemma_gain_upto_same(g1, g2, a, j, g1.n());
            }
            assert(b =~= g2.parallel_from(a));
        },
    }
}

/// Firing one vertex conserves the total number of chips: the chips it
/// loses equal its degree, which is the number it sends out.
pub proof fn lemma_fired_conserves(g: ChipFiringGraph, c: Seq<int>, v: int)
    requires
        g.wf_static(),
        c.len() == g.n(),
        0 <= v < g.n(),
    ensures
        sum(g.fired_from(c, v)) == sum(c),
{
    let n = g.n();
    let b = g.fired_from(c, v);
    let deltas = Seq::new(n as nat, |j: int| g.fire_delta(v, j));
    let unit_out = Seq::new(
        n as nat,
        |j: int|
            -(if j == v {
                g.degs()[v]
            } else {
                0
            }),
    );
    lemma_sum_pointwise_add(c, deltas, b);
    lemma_sum_pointwise_add(g.adj()[v], unit_out, deltas);
    lemma_sum_unit(
        Seq::new(
            n as nat,
            |j: int|
                if j == v {
                    g.degs()[v]
                } else {
                    0
                },
        ),
        v,
    );
    lemma_sum_pointwise_add(
        Seq::new(
            n as nat,
            |j: int|
                if j == v {
                    g.degs()[v]
                } else {
                    0
                },
        ),
        unit_out,
        Seq::new(n as nat, |j: int| 0),
    );
    lemma_sum_zero(Seq::new(n as nat, |j: int| 0));
}

/// Whatever the update mode and the selection strategy, one step of the
/// dynamics conserves the total number of chips.
pub proof fn lemma_step_rel_conserves(g: ChipFiringGraph, a: Seq<int>, b: Seq<int>)
    requires
        g.wf_static(),
        a.len() == g.n(),
        all_nonneg(a),
        g.step_rel(a, b),
    ensures
        sum(b) == sum(a),
{
    match g.update_mode {
        UpdateMode::Sequential => {
            let v = choose|v: int|
                0 <= v < g.n() && #[trigger] g.active_in(a, v) && b == g.fired_from(a, v);
            lemma_fired_conserves(g, a, v);
        },
        UpdateMode::Parallel => {
            lemma_parallel_step(g, a);
        },
    }
}

/// Law: along any trajectory that the step relation admits, whatever the
/// update mode and the selection strategy, the total number of chips in
/// the last configuration equals the total in the first.
pub proof fn lemma_trajectory_conserves(g: ChipFiringGraph, hs: Seq<Seq<int>>)
    requires
        g.wf_static(),
        hs.len() >= 1,
        forall|t: int| 0 <= t < hs.len() - 1 ==> g.step_rel(#[trigger] hs[t], hs[t + 1]),
        forall|t: int|
            0 <= t < hs.len() ==> (#[trigger] hs[t]).len() == g.n() && all_nonneg(hs[t]),
    ensures
        sum(hs.last()) == sum(hs[0]),
    decreases hs.len(),
{
    if hs.len() > 1 {
        let prefix = hs.drop_last();
        assert(forall|t: int| 0 <= t < prefix.len() ==> prefix[t] == hs[t]);
        lemma_trajectory_conserves(g, prefix);
        lemma_step_rel_conserves(g, hs[hs.len() - 2], hs.last());
    }
}

impl crate::NeuralNetwork for ChipFiringGraph {
    type Input = Vec<i32>;

    type Output = Vec<Vec<i32>>;

    type Error = ChipFiringError;

    open spec fn net_valid(&self) -> bool {
        self.wf()
    }

    open spec fn fwd_ok(&self, input: &Vec<i32>) -> bool {
        sum(to_int32(input@)) <= i32::MAX
    }

    open spec fn fwd_post(
        &self,
        input: &Vec<i32>,
        r: &Result<Vec<Vec<i32>>, ChipFiringError>,
    ) -> bool {
        &&& (*r is Ok <==> to_int32(input@).len() == self.n() && all_nonneg(to_int32(input@)))
        &&& *r is Ok ==> crate::sums::views_of((*r)->Ok_0@).len() >= 1
        &&& *r is Ok ==> crate::sums::views_of((*r)->Ok_0@)[0] == to_int32(input@)
        &&& *r is Ok ==> forall|t: int|
            0 <= t < crate::sums::views_of((*r)->Ok_0@).len() - 1 ==> self.step_rel(
                #[trigger] crate::sums::views_of((*r)->Ok_0@)[t],
                crate::sums::views_of((*r)->Ok_0@)[t + 1],
            )
        &&& *r is Ok ==> (crate::sums::views_of((*r)->Ok_0@).len() == 101 || forall|v: int|
            0 <= v < self.n() ==> !self.active_in(
                crate::sums::views_of((*r)->Ok_0@).last(),
                v,
            ))
    }

    open spec fn train_ok(&self, data: &Vec<Vec<i32>>) -> bool {
        data@.len() > 0 ==> sum(to_int32(data@[0]@)) <= i32::MAX
    }

    open spec fn train_post(
        &self,
        old_net: &Self,
        data: &Vec<Vec<i32>>,
        r: &Result<(), ChipFiringError>,
    ) -> bool {
        &&& data@.len() == 0 ==> *r is Ok && *self == *old_net
        &&& data@.len() > 0 ==> (*r is Ok <==> to_int32(data@[0]@).len() == old_net.n()
            && all_nonneg(to_int32(data@[0]@)))
        &&& data@.len() > 0 && *r is Ok ==> self.cfg() == to_int32(data@[0]@) && self.hist()
            =~= seq![to_int32(data@[0]@)]
        &&& *r is Err ==> *self == *old_net
    }

    open spec fn size_of(&self) -> int {
        self.num_vertices as int
    }

    /// Runs the dynamics on a copy of the graph, started from the given
    /// configuration, and returns the trajectory the copy visited.
    fn forward(&self, input: &Vec<i32>) -> (r: Result<Vec<Vec<i32>>, ChipFiringError>) {
        proof {
            assert forall|k: int| 0 <= k < row_sums(self.adj()).len() implies #[trigger] row_sums(
                self.adj(),
            )[k] == self.degs()[k] by {}
            lemma_sum_congruence(row_sums(self.adj()), self.degs());
            assert(mat_view(self.adjacency_matrix@) == self.adj());
        }
        let matrix = copy_matrix(&self.adjacency_matrix);
        proof {
            assert(mat_view(matrix@) =~= self.adj());
        }
        let start = copy_vec_i32(input);
        let mut copy = match Self::new(matrix, start) {
            Ok(g) => g,
            Err(e) => {
                return Err(e);
            },
        };
        copy.update_mode = self.update_mode;
        copy.selection_strategy = self.selection_strategy;
        let ghost prerun = copy;
        let mut rng = crate::rng::fresh_rng();
        let steps = match copy.run(100, &mut rng) {
            Ok(k) => k,
            Err(e) => {
                proof {
                    assert(false);
                }
                return Err(e);
            },
        };
        proof {
            assert(prerun.adj() == self.adj());
            assert forall|k: int| 0 <= k < prerun.degs().len() implies prerun.degs()[k]
                == self.degs()[k] by {
                assert(prerun.degs()[k] == sum(prerun.adj()[k]));
                assert(self.degs()[k] == sum(self.adj()[k]));
            }
            assert(prerun.degs() =~= self.degs());
            let hs = copy.hist();
            assert(hs.len() == 1 + steps);
            assert forall|t: int| 0 <= t < hs.len() - 1 implies self.step_rel(
                #[trigger] hs[t],
                hs[t + 1],
            ) by {
                if t == 0 {
                    assert(hs[0] == prerun.cfg());
                    assert(prerun.step_rel(prerun.cfg(), hs[1]));
                } else {
                    assert(prerun.step_rel(hs[t], hs[t + 1]));
                }
                lemma_step_rel_same(prerun, *self, hs[t], hs[t + 1]);
            }
            if steps < 100 {
                // The run stopped early, so the copy came to rest; its
                // final configuration is the last trajectory entry.
                assert(hs.last() == copy.cfg());
                assert forall|v: int| 0 <= v < self.n() implies !self.active_in(
                    hs.last(),
                    v,
                ) by {
                    assert(!copy.is_active(v));
                }
            }
        }
        Ok(copy.history)
    }

    /// Adopts the first data configuration as the new starting point, as
    /// `set_configuration` does; an empty data set changes nothing.
    fn train(&mut self, data: &Vec<Vec<i32>>) -> (r: Result<(), ChipFiringError>) {
        if data.len() > 0 {
            let first = copy_vec_i32(&data[0]);
            self.set_configuration(first)
        } else {
            Ok(())
        }
    }

    fn size(&self) -> usize {
        self.num_vertices
    }
}

/// Copies a matrix of edge counts row by row.
pub(crate) fn copy_matrix(m: &Vec<Vec<u32>>) -> (r: Vec<Vec<u32>>)
    ensures
        r@.len() == m@.len(),
        forall|i: int| 0 <= i < m@.len() ==> (#[trigger] r@[i])@ == m@[i]@,
{
    let mut rows: Vec<Vec<u32>> = Vec::new();
    let mut i: usize = 0;
    while i < m.len()
        invariant
            i <= m@.len(),
            rows@.len() == i,
            forall|t: int| 0 <= t < i ==> (#[trigger] rows@[t])@ == m@[t]@,
        decreases m@.len() - i,
    {
        let src = &m[i];
        let mut row: Vec<u32> = Vec::new();
        let mut j: usize = 0;
        while j < src.len()
            invariant
                j <= src@.len(),
                row@ == src@.take(j as int),
            decreases src@.len() - j,
        {
            row.push(src[j]);
            proof {
                assert(row@ =~= src@.take(j as int + 1));
            }
            j += 1;
        }
        proof {
            assert(src@.take(src@.len() as int) =~= src@);
        }
        rows.push(row);
        i += 1;
    }
    rows
}

/// Copies a vector of 32-bit values element by element.
pub(crate) fn copy_vec_i32(v: &Vec<i32>) -> (r: Vec<i32>)
    ensures
        r@ == v@,
{
    let mut r: Vec<i32> = Vec::new();
    let mut i: usize = 0;
    while i < v.len()
        invariant
            i <= v@.len(),
            r@ == v@.take(i as int),
        decreases v@.len() - i,
    {
        r.push(v[i]);
        proof {
            assert(r@ =~= v@.take(i as int + 1));
        }
        i += 1;
    }
    proof {
        assert(v@.take(v@.len() as int) =~= v@);
    }
    r
}

} // verus!
