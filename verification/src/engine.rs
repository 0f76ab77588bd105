//! Terrain model for the search engine: cells with roles and traversal
//! costs, laid out row-major in a flat array, with bounds-checked
//! 4-directional neighbor lookup.

use vstd::arithmetic::div_mod::lemma_fundamental_div_mod;
use vstd::arithmetic::div_mod::lemma_mod_division_less_than_divisor;
use vstd::prelude::*;

verus! {

/// A position on the grid, addressed as (row, col).
#[derive(Clone, Copy, PartialEq, Eq, Structural, Debug)]
pub struct Point {
    pub row: usize,
    pub col: usize,
}

impl Point {
    pub fn new(row: usize, col: usize) -> (r: Point)
        ensures
            r.row == row,
            r.col == col,
    {
        Point { row, col }
    }
}

/// The role of one cell.
#[derive(Clone, Copy, PartialEq, Eq, Structural, Debug)]
pub enum CellType {
    Start,
    End,
    Empty,
    Blocked,
}

/// One grid cell: a role and a positive traversal cost.
#[derive(Clone, Copy, PartialEq, Eq, Structural, Debug)]
pub struct Cell {
    pub typ: CellType,
    pub cost: usize,
}

/// Why a request could not be turned into a grid and a search.
#[derive(Clone, Copy, PartialEq, Eq, Structural, Debug)]
pub enum ConfigurationError {
    /// The dimension is zero, the role array is empty, or the role count is
    /// not divisible by the dimension.
    BadDimension,
    /// The cost array does not match the role array, or some cost is zero.
    BadCosts,
    /// A role tag is not one of the recognized ones.
    UnknownRole,
    /// The number of start cells differs from one.
    StartCount,
    /// The number of end cells differs from one.
    EndCount,
    /// The algorithm selector is not one of the recognized ones.
    UnknownAlgorithm,
}

/// The mathematical model of a grid.
#[verifier::ext_equal]
pub ghost struct GridModel {
    pub rows: int,
    pub cols: int,
    pub cells: Seq<Cell>,
    pub start: Point,
    pub end: Point,
}

impl GridModel {
    /// The flat row-major index of a position.
    pub open spec fn sidx(self, p: Point) -> int {
        p.row * self.cols + p.col
    }

    pub open spec fn in_bounds(self, p: Point) -> bool {
        p.row < self.rows && p.col < self.cols
    }

    pub open spec fn kind_at(self, p: Point) -> CellType {
        self.cells[self.sidx(p)].typ
    }

    pub open spec fn cost_at(self, p: Point) -> int {
        self.cells[self.sidx(p)].cost as int
    }

    /// In bounds and traversable.
    pub open spec fn open_at(self, p: Point) -> bool {
        self.in_bounds(p) && self.kind_at(p) != CellType::Blocked
    }

    /// Well-formedness: non-empty rectangle, flat storage of matching size,
    /// positive costs, and the recorded start and end cells are the unique
    /// cells of their role.
    pub open spec fn wf(self) -> bool {
        &&& self.rows >= 1
        &&& self.cols >= 1
        &&& self.cells.len() == self.rows * self.cols
        &&& forall|i: int| 0 <= i < self.cells.len() ==> (#[trigger] self.cells[i].cost) >= 1
        &&& self.in_bounds(self.start)
        &&& self.in_bounds(self.end)
        &&& forall|i: int|
            0 <= i < self.cells.len() ==> ((#[trigger] self.cells[i].typ) == CellType::Start <==> i
                == self.sidx(self.start))
        &&& forall|i: int|
            0 <= i < self.cells.len() ==> ((#[trigger] self.cells[i].typ) == CellType::End <==> i
                == self.sidx(self.end))
    }
}

/// Two positions are 4-directional (non-diagonal) neighbors.
pub open spec fn adjacent(p: Point, q: Point) -> bool {
    ||| p.row == q.row && p.col + 1 == q.col
    ||| p.row == q.row && q.col + 1 == p.col
    ||| p.col == q.col && p.row + 1 == q.row
    ||| p.col == q.col && q.row + 1 == p.row
}

/// A single legal move of a route: both endpoints traversable and adjacent.
pub open spec fn step_ok(m: GridModel, p: Point, q: Point) -> bool {
    m.open_at(p) && m.open_at(q) && adjacent(p, q)
}

/// A well-formed route from start to end: begins at start, ends at end,
/// every cell traversable, every consecutive pair a legal move.
pub open spec fn path_ok(m: GridModel, p: Seq<Point>) -> bool {
    &&& p.len() >= 1
    &&& p[0] == m.start
    &&& p[p.len() - 1] == m.end
    &&& forall|i: int| 0 <= i < p.len() ==> m.open_at(#[trigger] p[i])
    &&& forall|i: int| 1 <= i < p.len() ==> adjacent(p[i - 1], #[trigger] p[i])
}

/// The total cost of a route: the cost of every cell entered, so every cell
/// but the first.  The start cell is never charged.
pub open spec fn path_cost(m: GridModel, p: Seq<Point>) -> int
    decreases p.len(),
{
    if p.len() <= 1 {
        0
    } else {
        path_cost(m, p.drop_last()) + m.cost_at(p[p.len() - 1])
    }
}

/// Start and end are connected through traversable cells.
pub open spec fn connected(m: GridModel) -> bool {
    exists|p: Seq<Point>| path_ok(m, p)
}

/// Distinct in-bounds positions have distinct flat indices.
pub proof fn lemma_sidx_injective(m: GridModel, p: Point, q: Point)
    requires
        m.cols >= 1,
        m.in_bounds(p),
        m.in_bounds(q),
        p != q,
    ensures
        m.sidx(p) != m.sidx(q),
{
    assert(p.row * m.cols + p.col != q.row * m.cols + q.col) by (nonlinear_arith)
        requires
            p.col < m.cols,
            q.col < m.cols,
            0 <= p.row,
            0 <= q.row,
            0 <= p.col,
            0 <= q.col,
            !(p.row == q.row && p.col == q.col),
    ;
}

/// Flat indices of in-bounds positions lie inside the cell array.
pub proof fn lemma_sidx_bounds(m: GridModel, p: Point)
    requires
        m.rows >= 1,
        m.cols >= 1,
        m.in_bounds(p),
    ensures
        0 <= m.sidx(p) < m.rows * m.cols,
{
    assert(0 <= p.row * m.cols + p.col < m.rows * m.cols) by (nonlinear_arith)
        requires
            p.row < m.rows,
            p.col < m.cols,
            0 <= p.row,
            0 <= p.col,
            m.cols >= 1,
    ;
}

/// How many cells of a role a role sequence holds.
pub open spec fn count_typ(s: Seq<CellType>, t: CellType) -> nat
    decreases s.len(),
{
    if s.len() == 0 {
        0
    } else {
        count_typ(s.drop_last(), t) + if s.last() == t {
            1nat
        } else {
            0nat
        }
    }
}

proof fn lemma_count_at(s: Seq<CellType>, t: CellType, a: int)
    requires
        0 <= a < s.len(),
        s[a] == t,
    ensures
        count_typ(s, t) >= 1,
    decreases s.len(),
{
    if a < s.len() - 1 {
        lemma_count_at(s.drop_last(), t, a);
    }
}

proof fn lemma_count_unique(s: Seq<CellType>, t: CellType, a: int, b: int)
    requires
        count_typ(s, t) == 1,
        0 <= a < s.len(),
        0 <= b < s.len(),
        s[a] == t,
        s[b] == t,
    ensures
        a == b,
    decreases s.len(),
{
    if a != b {
        let d = s.drop_last();
        if a == s.len() - 1 {
            lemma_count_at(d, t, b);
        } else if b == s.len() - 1 {
            lemma_count_at(d, t, a);
        } else if s.last() == t {
            lemma_count_at(d, t, a);
        } else {
            lemma_count_unique(d, t, a, b);
        }
    }
}

proof fn lemma_count_le(s: Seq<CellType>, t: CellType)
    ensures
        count_typ(s, t) <= s.len(),
    decreases s.len(),
{
    if s.len() > 0 {
        lemma_count_le(s.drop_last(), t);
    }
}

proof fn lemma_count_none(s: Seq<CellType>, t: CellType)
    requires
        forall|i: int| 0 <= i < s.len() ==> (#[trigger] s[i]) != t,
    ensures
        count_typ(s, t) == 0,
    decreases s.len(),
{
    if s.len() > 0 {
        lemma_count_none(s.drop_last(), t);
    }
}

/// A role that occurs at exactly one position is counted exactly once.
pub proof fn lemma_count_single(s: Seq<CellType>, t: CellType, k: int)
    requires
        0 <= k < s.len(),
        forall|i: int| 0 <= i < s.len() ==> ((#[trigger] s[i]) == t <==> i == k),
    ensures
        count_typ(s, t) == 1,
    decreases s.len(),
{
    if k == s.len() - 1 {
        lemma_count_none(s.drop_last(), t);
    } else {
        lemma_count_single(s.drop_last(), t, k);
    }
}

proof fn lemma_count_take_step(s: Seq<CellType>, t: CellType, i: int)
    requires
        0 <= i < s.len(),
    ensures
        count_typ(s.take(i + 1), t) == count_typ(s.take(i), t) + if s[i] == t {
            1int
        } else {
            0int
        },
{
    assert(s.take(i + 1).drop_last() =~= s.take(i));
    assert(s.take(i + 1).last() == s[i]);
}

/// The position a flat row-major index denotes is in bounds, and indexing is
/// inverted by division and remainder.
pub proof fn lemma_flat_point(rows: int, cols: int, i: int)
    requires
        rows >= 1,
        cols >= 1,
        0 <= i < rows * cols,
    ensures
        0 <= i / cols < rows,
        0 <= i % cols < cols,
        (i / cols) * cols + (i % cols) == i,
{
    lemma_fundamental_div_mod(i, cols);
    lemma_mod_division_less_than_divisor(i, cols);
    assert((i / cols) * cols + (i % cols) == i) by (nonlinear_arith)
        requires
            i == cols * (i / cols) + (i % cols),
    ;
    assert(i / cols < rows) by (nonlinear_arith)
        requires
            (i / cols) * cols + (i % cols) == i,
            0 <= i % cols < cols,
            i < rows * cols,
            cols >= 1,
            0 <= i,
    ;
    assert(i / cols >= 0) by (nonlinear_arith)
        requires
            (i / cols) * cols + (i % cols) == i,
            0 <= i % cols < cols,
            cols >= 1,
            0 <= i,
    ;
}

/// The view of an optional cost array.
pub open spec fn costs_seq(costs: Option<Vec<usize>>) -> Option<Seq<usize>> {
    match costs {
        Some(c) => Some(c@),
        None => None,
    }
}

/// The cost a cell gets from an optional cost array: its entry, or the
/// default of one when no array was given.
pub open spec fn spec_cost(costs: Option<Seq<usize>>, i: int) -> int {
    match costs {
        Some(c) => c[i] as int,
        None => 1,
    }
}

/// The cost array fits the role array and holds only positive costs.
pub open spec fn costs_ok(roles_len: int, costs: Option<Seq<usize>>) -> bool {
    match costs {
        Some(c) => c.len() == roles_len && forall|i: int| 0 <= i < c.len() ==> (#[trigger] c[i]) >= 1,
        None => true,
    }
}

/// The role a textual cell tag denotes, if any.
pub open spec fn spec_role(s: Seq<char>) -> Option<CellType> {
    if s == "green"@ {
        Some(CellType::Start)
    } else if s == "red"@ {
        Some(CellType::End)
    } else if s == "black"@ {
        Some(CellType::Blocked)
    } else if s == "white"@ {
        Some(CellType::Empty)
    } else {
        None
    }
}

/// Every tag of a color sequence is recognized.
pub open spec fn all_roles_ok(colors: Seq<&str>) -> bool {
    forall|i: int| 0 <= i < colors.len() ==> (#[trigger] spec_role(colors[i]@)) is Some
}

/// The roles a recognized color sequence denotes.
pub open spec fn roles_of(colors: Seq<&str>) -> Seq<CellType> {
    colors.map_values(|s: &str| spec_role(s@).unwrap())
}

/// Parses one textual cell tag.
pub fn parse_role(s: &str) -> (r: Option<CellType>)
    ensures
        r == spec_role(s@),
{
    if s.to_owned() == "green".to_owned() {
        Some(CellType::Start)
    } else if s.to_owned() == "red".to_owned() {
        Some(CellType::End)
    } else if s.to_owned() == "black".to_owned() {
        Some(CellType::Blocked)
    } else if s.to_owned() == "white".to_owned() {
        Some(CellType::Empty)
    } else {
        None
    }
}

/// The error, if any, that building a grid from the given parts reports.
/// Checks run in this order: dimension, costs, start count, end count.
pub open spec fn build_err(roles: Seq<CellType>, costs: Option<Seq<usize>>, size: int) -> Option<
    ConfigurationError,
> {
    if size == 0 || roles.len() == 0 || roles.len() as int % size != 0 {
        Some(ConfigurationError::BadDimension)
    } else if !costs_ok(roles.len() as int, costs) {
        Some(ConfigurationError::BadCosts)
    } else if count_typ(roles, CellType::Start) != 1 {
        Some(ConfigurationError::StartCount)
    } else if count_typ(roles, CellType::End) != 1 {
        Some(ConfigurationError::EndCount)
    } else {
        None
    }
}

/// The grid model a well-formed request denotes: the declared size gives
/// the columns, the role count divided by it the rows, each cell pairs its
/// parsed role with its cost, and the start and end markers are the unique
/// cells of their role.
pub open spec fn request_model(roles: Seq<CellType>, costs: Seq<usize>, size: int) -> GridModel {
    let rows = roles.len() as int / size;
    let cells = Seq::new(roles.len(), |i: int| Cell { typ: roles[i], cost: costs[i] });
    let start = choose|p: Point|
        p.row < rows && p.col < size && roles[p.row * size + p.col] == CellType::Start;
    let end = choose|p: Point|
        p.row < rows && p.col < size && roles[p.row * size + p.col] == CellType::End;
    GridModel { rows, cols: size, cells, start, end }
}

/// A well-formed grid whose cells pair these roles with these costs is
/// exactly the model the request denotes.
pub proof fn lemma_built_model(m: GridModel, roles: Seq<CellType>, costs: Seq<usize>, size: int)
    requires
        m.wf(),
        m.cols == size,
        m.rows == roles.len() as int / size,
        m.cells.len() == roles.len(),
        forall|i: int| 0 <= i < roles.len() ==> (#[trigger] m.cells[i]).typ == roles[i],
        forall|i: int| 0 <= i < roles.len() ==> (#[trigger] m.cells[i]).cost == costs[i],
    ensures
        m == request_model(roles, costs, size),
{
    let rm = request_model(roles, costs, size);
    assert(m.cells =~= rm.cells);
    lemma_sidx_bounds(m, m.start);
    lemma_sidx_bounds(m, m.end);
    assert(roles[m.start.row * size + m.start.col] == CellType::Start) by {
        assert(m.cells[m.sidx(m.start)].typ == CellType::Start);
    }
    assert(roles[m.end.row * size + m.end.col] == CellType::End) by {
        assert(m.cells[m.sidx(m.end)].typ == CellType::End);
    }
    assert forall|p: Point|
        p.row < rm.rows && p.col < size && roles[p.row * size + p.col]
            == CellType::Start implies p == m.start by {
        lemma_sidx_bounds(m, p);
        assert(m.cells[m.sidx(p)].typ == CellType::Start);
        if p != m.start {
            lemma_sidx_injective(m, p, m.start);
        }
    }
    assert forall|p: Point|
        p.row < rm.rows && p.col < size && roles[p.row * size + p.col]
            == CellType::End implies p == m.end by {
        lemma_sidx_bounds(m, p);
        assert(m.cells[m.sidx(p)].typ == CellType::End);
        if p != m.end {
            lemma_sidx_injective(m, p, m.end);
        }
    }
    assert(rm.start == m.start);
    assert(rm.end == m.end);
    assert(m =~= rm);
}

/// On a well-formed grid, the flat index of every in-bounds position lies
/// inside the cell array.
pub broadcast proof fn lemma_sidx_in_range(m: GridModel, p: Point)
    requires
        m.wf(),
        m.in_bounds(p),
    ensures
        0 <= #[trigger] m.sidx(p) < m.cells.len(),
{
    lemma_sidx_bounds(m, p);
}

/// On a well-formed grid, flat indexing is injective on in-bounds positions.
pub broadcast proof fn lemma_sidx_inj(m: GridModel, p: Point, q: Point)
    requires
        m.wf(),
        m.in_bounds(p),
        m.in_bounds(q),
        p != q,
    ensures
        #![trigger m.sidx(p), m.sidx(q)]
        m.sidx(p) != m.sidx(q),
{
    lemma_sidx_injective(m, p, q);
}

/// A terrain: a rectangle of cells with exactly one start and one end.
pub struct Grid {
    cells: Vec<Cell>,
    rows: usize,
    cols: usize,
    start: Point,
    end: Point,
}

impl View for Grid {
    type V = GridModel;

    closed spec fn view(&self) -> GridModel {
        GridModel {
            rows: self.rows as int,
            cols: self.cols as int,
            cells: self.cells@,
            start: self.start,
            end: self.end,
        }
    }
}

impl Grid {
    /// Every grid that can be observed is well-formed.
    #[verifier::type_invariant]
    pub open spec fn inv(self) -> bool {
        self@.wf()
    }

    /// The number of rows.
    pub fn rows(&self) -> (r: usize)
        ensures
            r == self@.rows,
    {
        self.rows
    }

    /// The number of columns.
    pub fn cols(&self) -> (r: usize)
        ensures
            r == self@.cols,
    {
        self.cols
    }

    /// The unique start cell.
    pub fn start(&self) -> (r: Point)
        ensures
            r == self@.start,
    {
        self.start
    }

    /// The unique end cell.
    pub fn end(&self) -> (r: Point)
        ensures
            r == self@.end,
    {
        self.end
    }

    /// The number of cells.
    pub fn cell_count(&self) -> (r: usize)
        ensures
            r == self@.rows * self@.cols,
    {
        proof {
            use_type_invariant(self);
        }
        self.cells.len()
    }

    /// Whether the cell at an in-bounds position is blocked.
    pub fn is_blocked(&self, p: Point) -> (r: bool)
        requires
            self@.in_bounds(p),
        ensures
            r == (self@.kind_at(p) == CellType::Blocked),
            !r ==> self@.open_at(p),
    {
        let i = self.index_of(p);
        self.cells[i].typ == CellType::Blocked
    }

    /// The traversal cost of the cell at an in-bounds position.
    pub fn cost_of(&self, p: Point) -> (r: usize)
        requires
            self@.in_bounds(p),
        ensures
            r == self@.cost_at(p),
            r >= 1,
    {
        proof {
            use_type_invariant(self);
        }
        let i = self.index_of(p);
        self.cells[i].cost
    }

    /// The cell at a position, or `None` out of bounds.
    pub fn get(&self, pos: Point) -> (r: Option<Cell>)
        ensures
            r matches Some(c) ==> self@.in_bounds(pos) && c == self@.cells[self@.sidx(pos)],
            r is None <==> !self@.in_bounds(pos),
    {
        proof {
            use_type_invariant(self);
        }
        if pos.row < self.rows && pos.col < self.cols {
            let i = self.index_of(pos);
            Some(self.cells[i])
        } else {
            None
        }
    }

    /// Builds a grid from a flat row-major role array, an optional flat cost
    /// array and the number of columns; the number of rows is the role count
    /// divided by `size`.  Reports a `ConfigurationError` when the dimension
    /// does not evenly partition the role array, when a cost is missing or
    /// zero, or when the number of start or end cells differs from one.
    #[verifier::loop_isolation(false)]
    pub fn build(roles: Vec<CellType>, costs: Option<Vec<usize>>, size: usize) -> (r: Result<
        Grid,
        ConfigurationError,
    >)
        ensures
            r is Err <==> build_err(roles@, costs_seq(costs), size as int) is Some,
            r matches Err(e) ==> build_err(roles@, costs_seq(costs), size as int) == Some(e),
            r matches Ok(g) ==> ({
                &&& g@.wf()
                &&& g@.cols == size
                &&& g@.rows == roles@.len() as int / size as int
                &&& g@.cells.len() == roles@.len()
                &&& forall|i: int|
                    0 <= i < roles@.len() ==> (#[trigger] g@.cells[i]).typ == roles@[i]
                &&& forall|i: int|
                    0 <= i < roles@.len() ==> (#[trigger] g@.cells[i]).cost == spec_cost(
                        costs_seq(costs),
                        i,
                    )
            }),
    {
        let n = roles.len();
        if size == 0 || n == 0 || n % size != 0 {
            return Err(ConfigurationError::BadDimension);
        }
        let rows = n / size;
        let cols = size;
        match &costs {
            Some(c) => {
                if c.len() != n {
                    return Err(ConfigurationError::BadCosts);
                }
                let mut i: usize = 0;
                while i < n
                    invariant
                        n == c@.len(),
                        i <= n,
                        forall|j: int| 0 <= j < i ==> (#[trigger] c@[j]) >= 1,
                    decreases n - i,
                {
                    if c[i] == 0 {
                        return Err(ConfigurationError::BadCosts);
                    }
                    i += 1;
                }
            },
            None => {},
        }
        let ghost rs = roles@;
        let mut cells: Vec<Cell> = Vec::new();
        let mut start_count: usize = 0;
        let mut end_count: usize = 0;
        let mut start_idx: usize = 0;
        let mut end_idx: usize = 0;
        let mut i: usize = 0;
        while i < n
            invariant
                rs == roles@,
                n == rs.len(),
                i <= n,
                costs_ok(n as int, costs_seq(costs)),
                cells@.len() == i,
                forall|j: int| 0 <= j < i ==> (#[trigger] cells@[j]).typ == rs[j],
                forall|j: int|
                    0 <= j < i ==> (#[trigger] cells@[j]).cost == spec_cost(costs_seq(costs), j),
                start_count == count_typ(rs.take(i as int), CellType::Start),
                end_count == count_typ(rs.take(i as int), CellType::End),
                start_count >= 1 ==> start_idx < i && rs[start_idx as int] == CellType::Start,
                end_count >= 1 ==> end_idx < i && rs[end_idx as int] == CellType::End,
            decreases n - i,
        {
            let typ = roles[i];
            let cost = match &costs {
                Some(c) => c[i],
                None => 1,
            };
            cells.push(Cell { typ, cost });
            proof {
                lemma_count_take_step(rs, CellType::Start, i as int);
                lemma_count_take_step(rs, CellType::End, i as int);
                lemma_count_le(rs.take(i as int), CellType::Start);
                lemma_count_le(rs.take(i as int), CellType::End);
            }
            if typ == CellType::Start {
                start_count += 1;
                start_idx = i;
            }
            if typ == CellType::End {
                end_count += 1;
                end_idx = i;
            }
            i += 1;
        }
        proof {
            assert(rs.take(n as int) =~= rs);
        }
        if start_count != 1 {
            return Err(ConfigurationError::StartCount);
        }
        if end_count != 1 {
            return Err(ConfigurationError::EndCount);
        }
        proof {
            lemma_fundamental_div_mod(n as int, size as int);
            assert(rows >= 1) by (nonlinear_arith)
                requires
                    (size as int) * (rows as int) + (n as int % size as int) == n as int,
                    n as int % size as int == 0,
                    n >= 1,
                    size >= 1,
                    rows == n as int / size as int,
            ;
            assert((rows as int) * (cols as int) == n as int) by (nonlinear_arith)
                requires
                    (size as int) * (rows as int) + (n as int % size as int) == n as int,
                    n as int % size as int == 0,
                    cols == size,
            ;
            lemma_flat_point(rows as int, cols as int, start_idx as int);
            lemma_flat_point(rows as int, cols as int, end_idx as int);
        }
        let start = Point { row: start_idx / cols, col: start_idx % cols };
        let end = Point { row: end_idx / cols, col: end_idx % cols };
        let ghost gm = GridModel {
            rows: rows as int,
            cols: cols as int,
            cells: cells@,
            start: start,
            end: end,
        };
        proof {
            assert forall|j: int| 0 <= j < gm.cells.len() implies ((#[trigger] gm.cells[j].typ)
                == CellType::Start <==> j == gm.sidx(gm.start)) by {
                if gm.cells[j].typ == CellType::Start {
                    lemma_count_unique(rs, CellType::Start, j, start_idx as int);
                }
            }
            assert forall|j: int| 0 <= j < gm.cells.len() implies ((#[trigger] gm.cells[j].typ)
                == CellType::End <==> j == gm.sidx(gm.end)) by {
                if gm.cells[j].typ == CellType::End {
                    lemma_count_unique(rs, CellType::End, j, end_idx as int);
                }
            }
            assert(gm.wf());
        }
        let g = Grid { cells, rows, cols, start, end };
        proof {
            assert(g@ == gm);
        }
        Ok(g)
    }

    /// Builds a grid from textual cell tags, as the command bridge hands
    /// them over: "green" marks the start, "red" the end, "black" a blocked
    /// cell, "white" an empty one.  An unrecognized tag is reported before
    /// any other check; the rest behaves as [`Grid::build`] with the parsed
    /// roles and the given costs.
    #[verifier::loop_isolation(false)]
    pub fn new(colors: Vec<&str>, costs: Vec<usize>, size: usize) -> (r: Result<
        Grid,
        ConfigurationError,
    >)
        ensures
            !all_roles_ok(colors@) ==> r == Err::<Grid, ConfigurationError>(
                ConfigurationError::UnknownRole,
            ),
            all_roles_ok(colors@) ==> ({
                let rs = roles_of(colors@);
                let bc = build_err(rs, Some(costs@), size as int);
                &&& (r is Err <==> bc is Some)
                &&& (r matches Err(e) ==> bc == Some(e))
                &&& (r matches Ok(g) ==> {
                    &&& g@.wf()
                    &&& g@.cols == size
                    &&& g@.rows == rs.len() as int / size as int
                    &&& g@.cells.len() == rs.len()
                    &&& forall|i: int| 0 <= i < rs.len() ==> (#[trigger] g@.cells[i]).typ == rs[i]
                    &&& forall|i: int|
                        0 <= i < rs.len() ==> (#[trigger] g@.cells[i]).cost == costs@[i]
                })
            }),
    {
        let n = colors.len();
        let mut roles: Vec<CellType> = Vec::new();
        let mut i: usize = 0;
        while i < n
            invariant
                i <= n,
                n == colors@.len(),
                roles@.len() == i,
                forall|j: int| 0 <= j < i ==> Some(#[trigger] roles@[j]) == spec_role(colors@[j]@),
            decreases n - i,
        {
            match parse_role(colors[i]) {
                Some(t) => roles.push(t),
                None => {
                    return Err(ConfigurationError::UnknownRole);
                },
            }
            i += 1;
        }
        proof {
            assert forall|j: int|
                0 <= j < colors@.len() implies (#[trigger] spec_role(colors@[j]@)) is Some by {
                assert(Some(roles@[j]) == spec_role(colors@[j]@));
            }
            assert(roles@ =~= roles_of(colors@));
        }
        Self::build(roles, Some(costs), size)
    }

    /// The in-bounds 4-directional neighbors of a position, in the fixed
    /// deterministic expansion order: left, right, up, down.
    pub fn neighbors(&self, p: Point) -> (r: Vec<Point>)
        requires
            self@.in_bounds(p),
        ensures
            forall|i: int|
                0 <= i < r@.len() ==> self@.in_bounds(#[trigger] r@[i]) && adjacent(p, r@[i]),
            forall|q: Point| self@.in_bounds(q) && adjacent(p, q) ==> r@.contains(q),
            r@.len() <= 4,
    {
        proof {
            use_type_invariant(self);
        }
        let mut r: Vec<Point> = Vec::new();
        if p.col > 0 {
            r.push(Point { row: p.row, col: p.col - 1 });
        }
        let ghost r1 = r@;
        if p.col + 1 < self.cols {
            r.push(Point { row: p.row, col: p.col + 1 });
        }
        let ghost r2 = r@;
        if p.row > 0 {
            r.push(Point { row: p.row - 1, col: p.col });
        }
        let ghost r3 = r@;
        if p.row + 1 < self.rows {
            r.push(Point { row: p.row + 1, col: p.col });
        }
        proof {
            assert forall|q: Point| self@.in_bounds(q) && adjacent(p, q) implies r@.contains(q) by {
                if q.row == p.row && q.col + 1 == p.col {
                    assert(r@[0] == q);
                } else if q.row == p.row && p.col + 1 == q.col {
                    assert(r@[r1.len() as int] == q);
                } else if q.col == p.col && q.row + 1 == p.row {
                    assert(r@[r2.len() as int] == q);
                } else {
                    assert(q.col == p.col && p.row + 1 == q.row);
                    assert(r@[r3.len() as int] == q);
                }
            }
        }
        r
    }

    /// The flat row-major index of an in-bounds position.
    pub(crate) fn index_of(&self, pos: Point) -> (i: usize)
        requires
            self@.in_bounds(pos),
        ensures
            i == self@.sidx(pos),
            0 <= i < self@.cells.len(),
    {
        let n = self.cells.len();
        proof {
            use_type_invariant(self);
            lemma_sidx_bounds(self@, pos);
            assert(self@.sidx(pos) < n);
        }
        pos.row * self.cols + pos.col
    }
}

} // verus!
