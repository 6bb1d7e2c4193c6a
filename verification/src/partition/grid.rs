//! An infinite uniform grid that partitions 2D space into fixed-size cells.
//!
//! The grid tracks which cell each entity was last placed in and answers
//! rectangular region queries with the members of every overlapped cell.

use vstd::assert_sets_equal;
use vstd::map::*;
use vstd::prelude::*;

verus! {

/// Truncating integer division (rounds toward zero), for a positive divisor.
/// This is the division Rust's `/` performs on machine integers; it differs
/// from the Euclidean `/` of spec arithmetic on negative dividends, and that
/// difference is part of the grid's observable cell layout.
pub open spec fn div_trunc(a: int, b: int) -> int {
    if a >= 0 {
        a / b
    } else {
        -((-a) / b)
    }
}

/// The truncated quotient of a machine integer by a positive machine integer
/// stays within the machine integer's range.
proof fn lemma_div_trunc_in_i32_range(a: int, b: int)
    requires
        i32::MIN <= a <= i32::MAX,
        b >= 1,
    ensures
        i32::MIN <= div_trunc(a, b) <= i32::MAX,
{
    if a >= 0 {
        assert(0 <= a / b <= a) by (nonlinear_arith)
            requires
                a >= 0,
                b >= 1,
        ;
    } else {
        assert(0 <= (-a) / b <= -a) by (nonlinear_arith)
            requires
                -a >= 0,
                b >= 1,
        ;
    }
}

/// The integer coordinate of one grid cell: `row` counts cell heights along
/// the y axis, `col` counts cell widths along the x axis.
#[derive(Copy, Clone, PartialEq, Eq, Structural, Debug)]
pub struct CellKey {
    pub row: i32,
    pub col: i32,
}

impl CellKey {
    pub fn new(row: i32, col: i32) -> (k: CellKey)
        ensures
            k == (CellKey { row, col }),
    {
        CellKey { row, col }
    }
}

/// The membership sequence that remains after removing the first occurrence
/// of `id` by swapping the last element into its slot and shrinking by one.
/// When `id` is absent the sequence is unchanged.
pub open spec fn remove_first_swap(s: Seq<u32>, id: u32) -> Seq<u32> {
    match s.index_of_first(id) {
        Some(i) => s.update(i, s.last()).drop_last(),
        None => s,
    }
}

/// One bucket of the grid: the ids of the entities currently located in it,
/// in insertion order until a removal reshuffles the tail.
pub struct Cell {
    entities: Vec<u32>,
}

impl View for Cell {
    type V = Seq<u32>;

    closed spec fn view(&self) -> Seq<u32> {
        self.entities@
    }
}

impl Cell {
    pub fn new() -> (c: Cell)
        ensures
            c@ == Seq::<u32>::empty(),
    {
        Cell { entities: Vec::new() }
    }

    /// Appends `id` to the membership sequence. No deduplication is done:
    /// adding an id already present creates a duplicate entry.
    pub fn add(&mut self, entity_id: u32)
        ensures
            final(self)@ == old(self)@.push(entity_id),
    {
        self.entities.push(entity_id);
    }

    /// Removes the first occurrence of `id` by swapping in the current last
    /// element and shrinking by one; a silent no-op when `id` is absent.
    pub fn remove(&mut self, entity_id: u32)
        ensures
            final(self)@ == remove_first_swap(old(self)@, entity_id),
    {
        let n = self.entities.len();
        let mut i: usize = 0;
        while i < n
            invariant
                i <= n,
                n == self.entities.len(),
                self.entities@ == old(self).entities@,
                forall|j: int| 0 <= j < i ==> self.entities@[j] != entity_id,
            decreases n - i,
        {
            if self.entities[i] == entity_id {
                self.entities.swap_remove(i);
                proof {
                    let s = old(self).entities@;
                    s.index_of_first_ensures(entity_id);
                    assert(s[i as int] == entity_id);
                    assert(s.contains(entity_id));
                    assert(s.index_of_first(entity_id) == Some(i as int));
                }
                return;
            }
            i += 1;
        }
        proof {
            let s = old(self).entities@;
            s.index_of_first_ensures(entity_id);
            assert(forall|j: int| 0 <= j < s.len() ==> s[j] != entity_id);
            assert(!s.contains(entity_id));
        }
    }

    /// The current membership sequence, read-only.
    pub fn entities(&self) -> (r: &Vec<u32>)
        ensures
            r@ == self@,
    {
        &self.entities
    }
}

/// The spatial index over an infinite grid of `cell_width` x `cell_height`
/// cells. It records the cell each entity was last placed in and the
/// membership of every cell that has ever been touched; cells are created
/// lazily and never discarded.
pub struct GridPartition {
    cell_width: i32,
    cell_height: i32,
    entities: Vec<(u32, CellKey)>,
    cells: Vec<(CellKey, Cell)>,
}

impl GridPartition {
    /// The configured cell width.
    pub closed spec fn spec_width(self) -> int {
        self.cell_width as int
    }

    /// The configured cell height.
    pub closed spec fn spec_height(self) -> int {
        self.cell_height as int
    }

    spec fn entity_present(self, id: u32) -> bool {
        exists|i: int| 0 <= i < self.entities@.len() && (#[trigger] self.entities@[i]).0 == id
    }

    spec fn entity_index(self, id: u32) -> int {
        choose|i: int| 0 <= i < self.entities@.len() && (#[trigger] self.entities@[i]).0 == id
    }

    spec fn cell_present(self, k: CellKey) -> bool {
        exists|i: int| 0 <= i < self.cells@.len() && (#[trigger] self.cells@[i]).0 == k
    }

    spec fn cell_index(self, k: CellKey) -> int {
        choose|i: int| 0 <= i < self.cells@.len() && (#[trigger] self.cells@[i]).0 == k
    }

    /// The mapping from entity id to the cell key the entity was last
    /// placed in.
    pub closed spec fn locations(self) -> Map<u32, CellKey> {
        Map::new(|id: u32| self.entity_present(id), |id: u32| self.entities@[self.entity_index(id)].1)
    }

    /// The set of cell keys whose cells have been created so far.
    pub closed spec fn cells_dom(self) -> Set<CellKey> {
        Set::new(|k: CellKey| self.cell_present(k))
    }

    /// The membership sequence of the cell at `k`; a cell that was never
    /// created reads as empty.
    pub closed spec fn cell_contents(self, k: CellKey) -> Seq<u32> {
        if self.cell_present(k) {
            self.cells@[self.cell_index(k)].1@
        } else {
            Seq::<u32>::empty()
        }
    }

    /// The cell row and column of a world position `(x, y)`: row from the y
    /// coordinate and the cell height, column from the x coordinate and the
    /// cell width, both by truncating division.
    pub open spec fn spec_row_col(self, position: (i32, i32)) -> (int, int) {
        (
            div_trunc(position.1 as int, self.spec_height()),
            div_trunc(position.0 as int, self.spec_width()),
        )
    }

    /// The key of the cell a world position falls in.
    pub open spec fn spec_cell_key(self, position: (i32, i32)) -> CellKey {
        CellKey {
            row: self.spec_row_col(position).0 as i32,
            col: self.spec_row_col(position).1 as i32,
        }
    }

    spec fn entity_keys_unique(self) -> bool {
        forall|i: int, j: int|
            0 <= i < j < self.entities@.len() ==> (#[trigger] self.entities@[i]).0 != (
            #[trigger] self.entities@[j]).0
    }

    spec fn cell_keys_unique(self) -> bool {
        forall|i: int, j: int|
            0 <= i < j < self.cells@.len() ==> (#[trigger] self.cells@[i]).0 != (
            #[trigger] self.cells@[j]).0
    }

    /// Well-formedness: positive cell dimensions, at most one record per
    /// entity id and per cell key, and every recorded location naming a cell
    /// that has been created.
    pub closed spec fn wf(self) -> bool {
        &&& self.spec_width() > 0
        &&& self.spec_height() > 0
        &&& self.entity_keys_unique()
        &&& self.cell_keys_unique()
        &&& forall|i: int|
            0 <= i < self.entities@.len() ==> self.cells_dom().contains(
                (#[trigger] self.entities@[i]).1,
            )
    }
}

/// With unique entity ids, the record at any index is what `locations` maps
/// its id to.
proof fn lemma_location_at(g: GridPartition, i: int)
    requires
        g.entity_keys_unique(),
        0 <= i < g.entities@.len(),
    ensures
        g.locations().contains_key(g.entities@[i].0),
        g.locations()[g.entities@[i].0] == g.entities@[i].1,
{
    let id = g.entities@[i].0;
    assert(g.entity_present(id));
    let w = g.entity_index(id);
    assert(0 <= w < g.entities@.len() && g.entities@[w].0 == id);
    assert(w == i);
}

/// With unique cell keys, the cell at any index is what `cell_contents`
/// returns for its key.
proof fn lemma_cell_at(g: GridPartition, i: int)
    requires
        g.cell_keys_unique(),
        0 <= i < g.cells@.len(),
    ensures
        g.cells_dom().contains(g.cells@[i].0),
        g.cell_contents(g.cells@[i].0) == g.cells@[i].1@,
{
    let k = g.cells@[i].0;
    assert(g.cell_present(k));
    let w = g.cell_index(k);
    assert(0 <= w < g.cells@.len() && g.cells@[w].0 == k);
    assert(w == i);
}

/// `locations` depends only on the entity records.
proof fn lemma_locations_congruent(g1: GridPartition, g2: GridPartition)
    requires
        g1.entities@ == g2.entities@,
        g1.entity_keys_unique(),
    ensures
        g1.locations() == g2.locations(),
{
    assert_maps_equal!(g1.locations(), g2.locations(), id => {
        if g1.entity_present(id) {
            let i = g1.entity_index(id);
            assert(0 <= i < g1.entities@.len() && g1.entities@[i].0 == id);
            assert(g2.entity_present(id));
            lemma_location_at(g1, i);
            lemma_location_at(g2, i);
        }
        if g2.entity_present(id) {
            let i = g2.entity_index(id);
            assert(0 <= i < g2.entities@.len() && g2.entities@[i].0 == id);
            assert(g1.entity_present(id));
        }
    });
}

/// `cells_dom` and `cell_contents` depend only on the cell records.
proof fn lemma_cells_congruent(g1: GridPartition, g2: GridPartition)
    requires
        g1.cells@ == g2.cells@,
        g1.cell_keys_unique(),
    ensures
        g1.cells_dom() == g2.cells_dom(),
        forall|k: CellKey| #[trigger] g1.cell_contents(k) == g2.cell_contents(k),
{
    assert_sets_equal!(g1.cells_dom() == g2.cells_dom(), k => {
        if g1.cell_present(k) {
            let i = g1.cell_index(k);
            assert(0 <= i < g1.cells@.len() && g1.cells@[i].0 == k);
            assert(g2.cell_present(k));
        }
        if g2.cell_present(k) {
            let i = g2.cell_index(k);
            assert(0 <= i < g2.cells@.len() && g2.cells@[i].0 == k);
            assert(g1.cell_present(k));
        }
    });
    assert forall|k: CellKey| #[trigger] g1.cell_contents(k) == g2.cell_contents(k) by {
        if g1.cell_present(k) {
            let i = g1.cell_index(k);
            assert(0 <= i < g1.cells@.len() && g1.cells@[i].0 == k);
            lemma_cell_at(g1, i);
            lemma_cell_at(g2, i);
        } else {
            assert(!g2.cell_present(k));
        }
    }
}

/// The membership the cell at `c` has after `id` is evicted from its
/// recorded cell: the swap-removal of `id` where `c` is the recorded cell of
/// `id`, and the membership unchanged everywhere else.
pub open spec fn evicted_contents(pre: GridPartition, id: u32, c: CellKey) -> Seq<u32> {
    if pre.locations().contains_key(id) && pre.locations()[id] == c {
        remove_first_swap(pre.cell_contents(c), id)
    } else {
        pre.cell_contents(c)
    }
}

/// The membership the cell at `c` has after `id` has moved to the cell at
/// `k`: the eviction above, then `id` appended at `k`.
pub open spec fn moved_contents(pre: GridPartition, id: u32, k: CellKey, c: CellKey) -> Seq<u32> {
    if c == k {
        evicted_contents(pre, id, c).push(id)
    } else {
        evicted_contents(pre, id, c)
    }
}

/// What one `update_entity(entity_id, position)` call does: the entity's
/// recorded location becomes the cell key derived from `position`, that cell
/// is created if it was missing, and cell membership changes by eviction
/// from the old recorded cell followed by an append to the new one.
pub open spec fn update_spec(
    pre: GridPartition,
    post: GridPartition,
    entity_id: u32,
    position: (i32, i32),
) -> bool {
    let k = pre.spec_cell_key(position);
    &&& post.spec_width() == pre.spec_width()
    &&& post.spec_height() == pre.spec_height()
    &&& post.locations() == pre.locations().insert(entity_id, k)
    &&& post.cells_dom() == pre.cells_dom().insert(k)
    &&& forall|c: CellKey| #[trigger]
        post.cell_contents(c) == moved_contents(pre, entity_id, k, c)
}

/// The membership of the cell in row `r` and column `c`, for coordinates
/// within the machine integer range of a cell key.
pub open spec fn contents_at(g: GridPartition, r: int, c: int) -> Seq<u32> {
    g.cell_contents(CellKey { row: r as i32, col: c as i32 })
}

/// The concatenated membership of the cells of row `r` with columns
/// `c_lo..=c_hi`, in ascending column order; empty when the range is empty.
pub open spec fn row_entities(g: GridPartition, r: int, c_lo: int, c_hi: int) -> Seq<u32>
    decreases c_hi + 1 - c_lo,
{
    if c_lo > c_hi {
        Seq::<u32>::empty()
    } else {
        contents_at(g, r, c_lo) + row_entities(g, r, c_lo + 1, c_hi)
    }
}

/// The concatenated membership of all cells with rows `r_lo..=r_hi` and
/// columns `c_lo..=c_hi`, in row-major order (rows outer, columns inner,
/// both ascending); empty when either range is empty.
pub open spec fn grid_entities(
    g: GridPartition,
    r_lo: int,
    r_hi: int,
    c_lo: int,
    c_hi: int,
) -> Seq<u32>
    decreases r_hi + 1 - r_lo,
{
    if r_lo > r_hi {
        Seq::<u32>::empty()
    } else {
        row_entities(g, r_lo, c_lo, c_hi) + grid_entities(g, r_lo + 1, r_hi, c_lo, c_hi)
    }
}

/// What `query(start_position, end_position)` returns: the row-major
/// concatenation of the membership of every cell in the rectangle of cell
/// coordinates spanned by the two positions.
pub open spec fn query_entities(
    g: GridPartition,
    start_position: (i32, i32),
    end_position: (i32, i32),
) -> Seq<u32> {
    grid_entities(
        g,
        g.spec_row_col(start_position).0,
        g.spec_row_col(end_position).0,
        g.spec_row_col(start_position).1,
        g.spec_row_col(end_position).1,
    )
}

/// A row concatenation extends on the right by its last column.
proof fn lemma_row_entities_snoc(g: GridPartition, r: int, c_lo: int, c_hi: int)
    requires
        c_lo <= c_hi,
    ensures
        row_entities(g, r, c_lo, c_hi) == row_entities(g, r, c_lo, c_hi - 1) + contents_at(
            g,
            r,
            c_hi,
        ),
    decreases c_hi - c_lo,
{
    if c_lo == c_hi {
        assert(row_entities(g, r, c_lo + 1, c_hi) == Seq::<u32>::empty());
        assert(row_entities(g, r, c_lo, c_hi - 1) == Seq::<u32>::empty());
        assert(row_entities(g, r, c_lo, c_hi) == contents_at(g, r, c_lo) + Seq::<u32>::empty());
        assert(contents_at(g, r, c_lo) + Seq::<u32>::empty() =~= Seq::<u32>::empty() + contents_at(
            g,
            r,
            c_lo,
        ));
    } else {
        lemma_row_entities_snoc(g, r, c_lo + 1, c_hi);
        let head = contents_at(g, r, c_lo);
        let mid = row_entities(g, r, c_lo + 1, c_hi - 1);
        let tail = contents_at(g, r, c_hi);
        assert(row_entities(g, r, c_lo, c_hi) == head + (mid + tail));
        assert(row_entities(g, r, c_lo, c_hi - 1) == head + mid);
        assert(head + (mid + tail) =~= (head + mid) + tail);
    }
}

/// A rectangle concatenation extends on the bottom by its last row.
proof fn lemma_grid_entities_snoc(g: GridPartition, r_lo: int, r_hi: int, c_lo: int, c_hi: int)
    requires
        r_lo <= r_hi,
    ensures
        grid_entities(g, r_lo, r_hi, c_lo, c_hi) == grid_entities(g, r_lo, r_hi - 1, c_lo, c_hi)
            + row_entities(g, r_hi, c_lo, c_hi),
    decreases r_hi - r_lo,
{
    if r_lo == r_hi {
        assert(grid_entities(g, r_lo + 1, r_hi, c_lo, c_hi) == Seq::<u32>::empty());
        assert(grid_entities(g, r_lo, r_hi - 1, c_lo, c_hi) == Seq::<u32>::empty());
        assert(grid_entities(g, r_lo, r_hi, c_lo, c_hi) == row_entities(g, r_lo, c_lo, c_hi)
            + Seq::<u32>::empty());
        assert(row_entities(g, r_lo, c_lo, c_hi) + Seq::<u32>::empty() =~= Seq::<u32>::empty()
            + row_entities(g, r_lo, c_lo, c_hi));
    } else {
        lemma_grid_entities_snoc(g, r_lo + 1, r_hi, c_lo, c_hi);
        let head = row_entities(g, r_lo, c_lo, c_hi);
        let mid = grid_entities(g, r_lo + 1, r_hi - 1, c_lo, c_hi);
        let tail = row_entities(g, r_hi, c_lo, c_hi);
        assert(grid_entities(g, r_lo, r_hi, c_lo, c_hi) == head + (mid + tail));
        assert(grid_entities(g, r_lo, r_hi - 1, c_lo, c_hi) == head + mid);
        assert(head + (mid + tail) =~= (head + mid) + tail);
    }
}

/// Replacing the cell at an index, keeping its key, rewrites that key's
/// contents and leaves every other cell and the domain unchanged.
proof fn lemma_cells_set(g1: GridPartition, g2: GridPartition, i: int, c: Cell)
    requires
        g1.cell_keys_unique(),
        0 <= i < g1.cells@.len(),
        g2.cells@ == g1.cells@.update(i, (g1.cells@[i].0, c)),
    ensures
        g2.cell_keys_unique(),
        g2.cells_dom() == g1.cells_dom(),
        g2.cell_contents(g1.cells@[i].0) == c@,
        forall|k: CellKey|
            k != g1.cells@[i].0 ==> #[trigger] g2.cell_contents(k) == g1.cell_contents(k),
{
    let key = g1.cells@[i].0;
    assert(forall|j: int|
        0 <= j < g2.cells@.len() ==> (#[trigger] g2.cells@[j]).0 == g1.cells@[j].0);
    assert_sets_equal!(g2.cells_dom() == g1.cells_dom(), k => {
        if g1.cell_present(k) {
            let w = g1.cell_index(k);
            assert(g2.cells@[w].0 == k);
            assert(g2.cell_present(k));
        }
        if g2.cell_present(k) {
            let w = g2.cell_index(k);
            assert(g1.cells@[w].0 == k);
            assert(g1.cell_present(k));
        }
    });
    assert(g2.cells@[i] == (key, c));
    lemma_cell_at(g2, i);
    assert forall|k: CellKey|
        k != key implies #[trigger] g2.cell_contents(k) == g1.cell_contents(k) by {
        if g1.cell_present(k) {
            let w = g1.cell_index(k);
            assert(0 <= w < g1.cells@.len() && g1.cells@[w].0 == k);
            assert(w != i);
            assert(g2.cells@[w] == g1.cells@[w]);
            lemma_cell_at(g1, w);
            lemma_cell_at(g2, w);
        } else {
            assert(!g1.cells_dom().contains(k));
            assert(!g2.cell_present(k));
        }
    }
}

/// Appending a cell under a fresh key adds that key to the domain with the
/// cell's contents and leaves every other cell unchanged.
proof fn lemma_cells_push(g1: GridPartition, g2: GridPartition, k: CellKey, c: Cell)
    requires
        g1.cell_keys_unique(),
        !g1.cell_present(k),
        g2.cells@ == g1.cells@.push((k, c)),
    ensures
        g2.cell_keys_unique(),
        g2.cells_dom() == g1.cells_dom().insert(k),
        g2.cell_contents(k) == c@,
        forall|kk: CellKey| kk != k ==> #[trigger] g2.cell_contents(kk) == g1.cell_contents(kk),
{
    let n = g1.cells@.len() as int;
    assert(g2.cells@[n] == (k, c));
    assert(forall|j: int| 0 <= j < n ==> g2.cells@[j] == g1.cells@[j]);
    assert(forall|j: int| 0 <= j < n ==> (#[trigger] g1.cells@[j]).0 != k);
    assert_sets_equal!(g2.cells_dom() == g1.cells_dom().insert(k), kk => {
        if g1.cell_present(kk) {
            let w = g1.cell_index(kk);
            assert(g2.cells@[w].0 == kk);
            assert(g2.cell_present(kk));
        }
        if kk == k {
            assert(g2.cells@[n].0 == kk);
            assert(g2.cell_present(kk));
        }
        if g2.cell_present(kk) && kk != k {
            let w = g2.cell_index(kk);
            assert(w != n);
            assert(g1.cells@[w].0 == kk);
            assert(g1.cell_present(kk));
        }
    });
    lemma_cell_at(g2, n);
    assert forall|kk: CellKey|
        kk != k implies #[trigger] g2.cell_contents(kk) == g1.cell_contents(kk) by {
        if g1.cell_present(kk) {
            let w = g1.cell_index(kk);
            assert(0 <= w < n && g1.cells@[w].0 == kk);
            lemma_cell_at(g1, w);
            lemma_cell_at(g2, w);
        } else {
            if g2.cell_present(kk) {
                let w = g2.cell_index(kk);
                assert(w != n);
                assert(g1.cells@[w].0 == kk);
            }
            assert(!g2.cell_present(kk));
        }
    }
}

/// Appending a record for a fresh entity id inserts it into `locations`.
proof fn lemma_entities_push(g1: GridPartition, g2: GridPartition, id: u32, k: CellKey)
    requires
        g1.entity_keys_unique(),
        !g1.entity_present(id),
        g2.entities@ == g1.entities@.push((id, k)),
    ensures
        g2.entity_keys_unique(),
        g2.locations() == g1.locations().insert(id, k),
{
    let n = g1.entities@.len() as int;
    assert(g2.entities@[n] == (id, k));
    assert(forall|j: int| 0 <= j < n ==> g2.entities@[j] == g1.entities@[j]);
    assert(forall|j: int| 0 <= j < n ==> (#[trigger] g1.entities@[j]).0 != id);
    assert_maps_equal!(g2.locations(), g1.locations().insert(id, k), e => {
        if e == id {
            lemma_location_at(g2, n);
        } else {
            if g1.entity_present(e) {
                let w = g1.entity_index(e);
                assert(g2.entities@[w].0 == e);
                assert(g2.entity_present(e));
                lemma_location_at(g1, w);
                lemma_location_at(g2, w);
            }
            if g2.entity_present(e) {
                let w = g2.entity_index(e);
                assert(w != n);
                assert(g1.entities@[w].0 == e);
                assert(g1.entity_present(e));
            }
        }
    });
}

/// Rewriting the recorded cell key of the entity at an index updates its
/// entry in `locations` and leaves every other entry unchanged.
proof fn lemma_entities_set(g1: GridPartition, g2: GridPartition, i: int, k: CellKey)
    requires
        g1.entity_keys_unique(),
        0 <= i < g1.entities@.len(),
        g2.entities@ == g1.entities@.update(i, (g1.entities@[i].0, k)),
    ensures
        g2.entity_keys_unique(),
        g2.locations() == g1.locations().insert(g1.entities@[i].0, k),
{
    let id = g1.entities@[i].0;
    assert(forall|j: int|
        0 <= j < g2.entities@.len() ==> (#[trigger] g2.entities@[j]).0 == g1.entities@[j].0);
    assert(g2.entities@[i] == (id, k));
    assert_maps_equal!(g2.locations(), g1.locations().insert(id, k), e => {
        if e == id {
            lemma_location_at(g2, i);
        } else {
            if g1.entity_present(e) {
                let w = g1.entity_index(e);
                assert(g2.entities@[w].0 == e);
                assert(w != i);
                assert(g2.entities@[w] == g1.entities@[w]);
                assert(g2.entity_present(e));
                lemma_location_at(g1, w);
                lemma_location_at(g2, w);
            }
            if g2.entity_present(e) {
                let w = g2.entity_index(e);
                assert(g1.entities@[w].0 == e);
                assert(g1.entity_present(e));
            }
        }
    });
}

impl GridPartition {
    /// A fresh index with the given cell dimensions: no entity has a
    /// recorded location and no cell has been created. Both dimensions must
    /// be positive; the grid never changes them afterwards.
    pub fn new(cell_width: i32, cell_height: i32) -> (g: GridPartition)
        requires
            cell_width > 0,
            cell_height > 0,
        ensures
            g.wf(),
            g.spec_width() == cell_width,
            g.spec_height() == cell_height,
            g.locations() == Map::<u32, CellKey>::empty(),
            g.cells_dom() == Set::<CellKey>::empty(),
            forall|k: CellKey| #[trigger] g.cell_contents(k) == Seq::<u32>::empty(),
    {
        let g = GridPartition {
            cell_width,
            cell_height,
            entities: Vec::new(),
            cells: Vec::new(),
        };
        proof {
            assert_maps_equal!(g.locations(), Map::<u32, CellKey>::empty(), id => {});
            assert_sets_equal!(g.cells_dom() == Set::<CellKey>::empty(), k => {});
        }
        g
    }

    fn find_entity(&self, entity_id: u32) -> (r: Option<usize>)
        ensures
            match r {
                Some(i) => 0 <= i < self.entities@.len() && self.entities@[i as int].0 == entity_id,
                None => forall|j: int|
                    0 <= j < self.entities@.len() ==> (#[trigger] self.entities@[j]).0 != entity_id,
            },
    {
        let n = self.entities.len();
        let mut i: usize = 0;
        while i < n
            invariant
                i <= n,
                n == self.entities@.len(),
                forall|j: int| 0 <= j < i ==> (#[trigger] self.entities@[j]).0 != entity_id,
            decreases n - i,
        {
            if self.entities[i].0 == entity_id {
                return Some(i);
            }
            i += 1;
        }
        None
    }

    fn find_cell(&self, cell_key: CellKey) -> (r: Option<usize>)
        ensures
            match r {
                Some(i) => 0 <= i < self.cells@.len() && self.cells@[i as int].0 == cell_key,
                None => forall|j: int|
                    0 <= j < self.cells@.len() ==> (#[trigger] self.cells@[j]).0 != cell_key,
            },
    {
        let n = self.cells.len();
        let mut i: usize = 0;
        while i < n
            invariant
                i <= n,
                n == self.cells@.len(),
                forall|j: int| 0 <= j < i ==> (#[trigger] self.cells@[j]).0 != cell_key,
            decreases n - i,
        {
            if self.cells[i].0 == cell_key {
                return Some(i);
            }
            i += 1;
        }
        None
    }

    /// The cell row and column a world position falls in: the position's y
    /// divided by the cell height, and its x divided by the cell width,
    /// both with truncating division.
    pub fn row_col(&self, position: (i32, i32)) -> (rc: (i32, i32))
        requires
            self.wf(),
        ensures
            rc.0 as int == self.spec_row_col(position).0,
            rc.1 as int == self.spec_row_col(position).1,
    {
        (position.1 / self.cell_height, position.0 / self.cell_width)
    }

    /// The key of the cell a world position falls in.
    pub fn cell_key(&self, position: (i32, i32)) -> (k: CellKey)
        requires
            self.wf(),
        ensures
            k == self.spec_cell_key(position),
    {
        let rc = self.row_col(position);
        CellKey::new(rc.0, rc.1)
    }

    /// A copy of the membership of the cell at `cell_key`; a cell that was
    /// never created reads as empty.
    pub fn cell_entities(&self, cell_key: CellKey) -> (r: Vec<u32>)
        requires
            self.wf(),
        ensures
            r@ == self.cell_contents(cell_key),
    {
        match self.find_cell(cell_key) {
            Some(i) => {
                proof {
                    lemma_cell_at(*self, i as int);
                }
                let n = self.cells[i].1.entities.len();
                let mut r: Vec<u32> = Vec::new();
                let mut t: usize = 0;
                while t < n
                    invariant
                        t <= n,
                        0 <= i < self.cells@.len(),
                        n == self.cells@[i as int].1@.len(),
                        self.cells@[i as int].1@ == self.cell_contents(cell_key),
                        r@ == self.cell_contents(cell_key).take(t as int),
                    decreases n - t,
                {
                    r.push(self.cells[i].1.entities[t]);
                    proof {
                        assert(self.cell_contents(cell_key).take(t + 1) =~= self.cell_contents(
                            cell_key,
                        ).take(t as int).push(self.cells@[i as int].1@[t as int]));
                    }
                    t += 1;
                }
                proof {
                    assert(self.cell_contents(cell_key).take(n as int) =~= self.cell_contents(
                        cell_key,
                    ));
                }
                r
            },
            None => {
                proof {
                    assert(!self.cell_present(cell_key));
                }
                Vec::new()
            },
        }
    }

    /// Appends `entity_id` to the cell at `cell_key`, creating the cell if
    /// it does not exist yet.
    fn add_to_cell(&mut self, cell_key: CellKey, entity_id: u32)
        requires
            old(self).wf(),
        ensures
            final(self).wf(),
            final(self).spec_width() == old(self).spec_width(),
            final(self).spec_height() == old(self).spec_height(),
            final(self).entities@ == old(self).entities@,
            final(self).locations() == old(self).locations(),
            final(self).cells_dom() == old(self).cells_dom().insert(cell_key),
            final(self).cell_contents(cell_key) == old(self).cell_contents(cell_key).push(
                entity_id,
            ),
            forall|c: CellKey|
                c != cell_key ==> #[trigger] final(self).cell_contents(c) == old(
                    self,
                ).cell_contents(c),
    {
        let ghost g0 = *self;
        match self.find_cell(cell_key) {
            Some(i) => {
                self.cells[i].1.add(entity_id);
                proof {
                    lemma_cell_at(g0, i as int);
                    lemma_cells_set(g0, *self, i as int, self.cells@[i as int].1);
                    assert(g0.cells_dom().insert(cell_key) =~= g0.cells_dom());
                }
            },
            None => {
                let mut cell = Cell::new();
                cell.add(entity_id);
                self.cells.push((cell_key, cell));
                proof {
                    assert(!g0.cell_present(cell_key));
                    lemma_cells_push(g0, *self, cell_key, cell);
                    assert(g0.cell_contents(cell_key).push(entity_id) =~= Seq::<u32>::empty().push(
                        entity_id,
                    ));
                }
            },
        }
        proof {
            lemma_locations_congruent(*self, g0);
            assert forall|i: int|
                0 <= i < self.entities@.len() implies self.cells_dom().contains(
                (#[trigger] self.entities@[i]).1,
            ) by {
                assert(g0.cells_dom().contains(g0.entities@[i].1));
            }
        }
    }

    /// Removes `entity_id` from the cell at `cell_key` by the swap rule; a
    /// no-op when the cell does not exist or does not hold the id.
    fn remove_from_cell(&mut self, cell_key: CellKey, entity_id: u32)
        requires
            old(self).wf(),
        ensures
            final(self).wf(),
            final(self).spec_width() == old(self).spec_width(),
            final(self).spec_height() == old(self).spec_height(),
            final(self).entities@ == old(self).entities@,
            final(self).locations() == old(self).locations(),
            final(self).cells_dom() == old(self).cells_dom(),
            final(self).cell_contents(cell_key) == remove_first_swap(
                old(self).cell_contents(cell_key),
                entity_id,
            ),
            forall|c: CellKey|
                c != cell_key ==> #[trigger] final(self).cell_contents(c) == old(
                    self,
                ).cell_contents(c),
    {
        let ghost g0 = *self;
        match self.find_cell(cell_key) {
            Some(i) => {
                self.cells[i].1.remove(entity_id);
                proof {
                    lemma_cell_at(g0, i as int);
                    lemma_cells_set(g0, *self, i as int, self.cells@[i as int].1);
                }
            },
            None => {
                proof {
                    assert(!g0.cell_present(cell_key));
                    assert(g0.cell_contents(cell_key) == Seq::<u32>::empty());
                    Seq::<u32>::empty().index_of_first_ensures(entity_id);
                }
            },
        }
        proof {
            lemma_locations_congruent(*self, g0);
            assert forall|i: int|
                0 <= i < self.entities@.len() implies self.cells_dom().contains(
                (#[trigger] self.entities@[i]).1,
            ) by {
                assert(g0.cells_dom().contains(g0.entities@[i].1));
            }
        }
    }

    /// Tells the grid where an entity is so that it can be queried later.
    ///
    /// On an entity's first update this records its location and adds it to
    /// the target cell; on a later update it first evicts the entity from
    /// its previously recorded cell. The recorded location is refreshed on
    /// every update, so each entity is a member of exactly the cell it was
    /// last placed in.
    pub fn update_entity(&mut self, entity_id: u32, position: (i32, i32))
        requires
            old(self).wf(),
        ensures
            final(self).wf(),
            update_spec(*old(self), *final(self), entity_id, position),
    {
        let ghost g0 = *self;
        let cell_key = self.cell_key(position);
        let ghost k = g0.spec_cell_key(position);
        match self.find_entity(entity_id) {
            None => {
                proof {
                    assert(!g0.entity_present(entity_id));
                    assert(!g0.locations().contains_key(entity_id));
                }
                self.add_to_cell(cell_key, entity_id);
                let ghost g1 = *self;
                self.entities.push((entity_id, cell_key));
                proof {
                    lemma_entities_push(g1, *self, entity_id, cell_key);
                    lemma_cells_congruent(*self, g1);
                    // well-formedness: the fresh record points at the cell
                    // that was just created
                    assert forall|i: int|
                        0 <= i < self.entities@.len() implies self.cells_dom().contains(
                        (#[trigger] self.entities@[i]).1,
                    ) by {
                        if i < g1.entities@.len() {
                            assert(g1.cells_dom().contains(g1.entities@[i].1));
                        } else {
                            assert(self.entities@[i].1 == cell_key);
                        }
                    }
                    assert(self.locations() == g0.locations().insert(entity_id, k));
                    assert forall|c: CellKey| #[trigger]
                        self.cell_contents(c) == moved_contents(g0, entity_id, k, c) by {
                        assert(self.cell_contents(c) == g1.cell_contents(c));
                    }
                }
            },
            Some(i) => {
                let old_cell_key = self.entities[i].1;
                proof {
                    lemma_location_at(g0, i as int);
                    assert(g0.locations().contains_key(entity_id));
                    assert(g0.locations()[entity_id] == old_cell_key);
                }
                self.remove_from_cell(old_cell_key, entity_id);
                let ghost g1 = *self;
                self.add_to_cell(cell_key, entity_id);
                let ghost g2 = *self;
                self.entities[i] = (entity_id, cell_key);
                proof {
                    assert(self.entities@ == g2.entities@.update(
                        i as int,
                        (g2.entities@[i as int].0, cell_key),
                    ));
                    lemma_entities_set(g2, *self, i as int, cell_key);
                    lemma_cells_congruent(*self, g2);
                    // locations: the two earlier steps left the records
                    // unchanged, so the rewrite at `i` is the only change
                    assert(g2.locations() == g0.locations());
                    assert(self.locations() == g0.locations().insert(entity_id, k));
                    // domain: the old recorded cell already existed
                    assert(self.cells_dom() == g0.cells_dom().insert(k));
                    // membership: eviction at the old key, append at the new
                    assert forall|c: CellKey| #[trigger]
                        self.cell_contents(c) == moved_contents(g0, entity_id, k, c) by {
                        assert(self.cell_contents(c) == g2.cell_contents(c));
                        if c == k {
                            assert(g2.cell_contents(k) == g1.cell_contents(k).push(entity_id));
                            if k == old_cell_key {
                                assert(g1.cell_contents(k) == remove_first_swap(
                                    g0.cell_contents(k),
                                    entity_id,
                                ));
                            } else {
                                assert(g1.cell_contents(k) == g0.cell_contents(k));
                            }
                        } else {
                            assert(g2.cell_contents(c) == g1.cell_contents(c));
                            if c == old_cell_key {
                                assert(g1.cell_contents(c) == remove_first_swap(
                                    g0.cell_contents(c),
                                    entity_id,
                                ));
                            } else {
                                assert(g1.cell_contents(c) == g0.cell_contents(c));
                            }
                        }
                    }
                    // well-formedness: every record still names a created
                    // cell, the domain having only grown
                    assert forall|j: int|
                        0 <= j < self.entities@.len() implies self.cells_dom().contains(
                        (#[trigger] self.entities@[j]).1,
                    ) by {
                        if j == i {
                            assert(self.entities@[j].1 == cell_key);
                        } else {
                            assert(self.entities@[j] == g0.entities@[j]);
                            assert(g0.cells_dom().contains(g0.entities@[j].1));
                        }
                    }
                }
            },
        }
    }

    /// Returns the entity ids that lie in the cells overlapped by the given
    /// bounds, cell by cell in row-major order.
    ///
    /// The result can include ids whose entities lie outside the bounds:
    /// every member of every overlapped cell is reported. The caller must
    /// keep each `start_position` component at most the corresponding
    /// `end_position` component; otherwise the cell range is empty and so is
    /// the result. The index itself is left unchanged: cells are not created
    /// on behalf of a query.
    pub fn query(&mut self, start_position: (i32, i32), end_position: (i32, i32)) -> (result: Vec<
        u32,
    >)
        requires
            old(self).wf(),
        ensures
            *final(self) == *old(self),
            result@ == query_entities(*old(self), start_position, end_position),
    {
        let ghost g = *old(self);
        let rc_start = self.row_col(start_position);
        let rc_end = self.row_col(end_position);
        let start_row: i64 = rc_start.0 as i64;
        let end_row: i64 = rc_end.0 as i64;
        let start_col: i64 = rc_start.1 as i64;
        let end_col: i64 = rc_end.1 as i64;
        let ghost sr = g.spec_row_col(start_position).0;
        let ghost er = g.spec_row_col(end_position).0;
        let ghost sc = g.spec_row_col(start_position).1;
        let ghost ec = g.spec_row_col(end_position).1;
        let mut result: Vec<u32> = Vec::new();
        let mut row: i64 = start_row;
        while row <= end_row
            invariant
                *self == g,
                g.wf(),
                start_row as int == sr && end_row as int == er,
                start_col as int == sc && end_col as int == ec,
                i32::MIN <= sr <= i32::MAX && i32::MIN <= er <= i32::MAX,
                i32::MIN <= sc <= i32::MAX && i32::MIN <= ec <= i32::MAX,
                sr <= row as int,
                row as int == sr || row as int <= er + 1,
                result@ == grid_entities(g, sr, row as int - 1, sc, ec),
            decreases end_row + 1 - row,
        {
            let mut col: i64 = start_col;
            while col <= end_col
                invariant
                    *self == g,
                    g.wf(),
                    start_col as int == sc && end_col as int == ec,
                    i32::MIN <= sc <= i32::MAX && i32::MIN <= ec <= i32::MAX,
                    i32::MIN <= row as int <= i32::MAX,
                    sc <= col as int,
                    col as int == sc || col as int <= ec + 1,
                    result@ == grid_entities(g, sr, row as int - 1, sc, ec) + row_entities(
                        g,
                        row as int,
                        sc,
                        col as int - 1,
                    ),
                decreases end_col + 1 - col,
            {
                let key = CellKey::new(row as i32, col as i32);
                proof {
                    assert(key == (CellKey { row: row as i32, col: col as i32 }));
                    assert(key.row as int == row as int && key.col as int == col as int);
                    assert(g.cell_contents(key) == contents_at(g, row as int, col as int));
                }
                let ghost pre = result@;
                match self.find_cell(key) {
                    Some(ci) => {
                        proof {
                            lemma_cell_at(g, ci as int);
                        }
                        let n = self.cells[ci].1.entities.len();
                        let mut t: usize = 0;
                        while t < n
                            invariant
                                *self == g,
                                t <= n,
                                0 <= ci < self.cells@.len(),
                                n == self.cells@[ci as int].1@.len(),
                                self.cells@[ci as int].1@ == g.cell_contents(key),
                                result@ == pre + g.cell_contents(key).take(t as int),
                            decreases n - t,
                        {
                            result.push(self.cells[ci].1.entities[t]);
                            proof {
                                assert(g.cell_contents(key).take(t + 1) =~= g.cell_contents(
                                    key,
                                ).take(t as int).push(g.cell_contents(key)[t as int]));
                                assert(pre + g.cell_contents(key).take(t + 1) =~= (pre
                                    + g.cell_contents(key).take(t as int)).push(
                                    g.cell_contents(key)[t as int],
                                ));
                            }
                            t += 1;
                        }
                        proof {
                            assert(g.cell_contents(key).take(n as int) =~= g.cell_contents(key));
                        }
                    },
                    None => {
                        proof {
                            assert(!g.cell_present(key));
                            assert(g.cell_contents(key) =~= g.cell_contents(key).take(0));
                            assert(pre + g.cell_contents(key) =~= pre);
                        }
                    },
                }
                proof {
                    lemma_row_entities_snoc(g, row as int, sc, col as int);
                    assert(result@ == pre + contents_at(g, row as int, col as int));
                    assert(grid_entities(g, sr, row as int - 1, sc, ec) + row_entities(
                        g,
                        row as int,
                        sc,
                        col as int,
                    ) =~= (grid_entities(g, sr, row as int - 1, sc, ec) + row_entities(
                        g,
                        row as int,
                        sc,
                        col as int - 1,
                    )) + contents_at(g, row as int, col as int));
                }
                col += 1;
            }
            proof {
                if sc <= ec {
                    assert(col as int == ec + 1);
                } else {
                    assert(col as int == sc);
                    assert(row_entities(g, row as int, sc, col as int - 1) == Seq::<u32>::empty());
                    assert(row_entities(g, row as int, sc, ec) == Seq::<u32>::empty());
                }
                assert(result@ == grid_entities(g, sr, row as int - 1, sc, ec) + row_entities(
                    g,
                    row as int,
                    sc,
                    ec,
                ));
                lemma_grid_entities_snoc(g, sr, row as int, sc, ec);
            }
            row += 1;
        }
        proof {
            if sr <= er {
                assert(row as int == er + 1);
            } else {
                assert(grid_entities(g, sr, row as int - 1, sc, ec) == Seq::<u32>::empty());
                assert(grid_entities(g, sr, er, sc, ec) == Seq::<u32>::empty());
            }
            assert(result@ == grid_entities(g, sr, er, sc, ec));
        }
        result
    }
}

/// Removing a present id by the swap rule drops exactly one occurrence of
/// it, and every other member keeps its multiplicity: only the order may
/// reshuffle.
pub proof fn lemma_remove_takes_one_occurrence(s: Seq<u32>, id: u32)
    requires
        s.contains(id),
    ensures
        remove_first_swap(s, id).len() == s.len() - 1,
        remove_first_swap(s, id).to_multiset() == s.to_multiset().remove(id),
        forall|x: u32|
            x != id ==> remove_first_swap(s, id).to_multiset().count(x) == s.to_multiset().count(
                x,
            ),
{
    broadcast use vstd::seq_lib::group_to_multiset_ensures;
    broadcast use vstd::multiset::group_multiset_axioms;

    s.index_of_first_ensures(id);
    let i = s.index_of_first(id).unwrap();
    let n = s.len() as int;
    let last = s.last();
    let t = s.update(i, last);
    let r = remove_first_swap(s, id);
    assert(r == t.drop_last());
    if i == n - 1 {
        assert(t =~= s);
        assert(r =~= s.remove(n - 1));
        assert(s.remove(n - 1).to_multiset() =~= s.to_multiset().remove(s[n - 1]));
        assert(r.to_multiset() =~= s.to_multiset().remove(id));
    } else {
        assert(r =~= t.remove(n - 1));
        assert(t.remove(n - 1).to_multiset() =~= t.to_multiset().remove(t[n - 1]));
        assert(t.remove(i) =~= s.remove(i));
        assert(t.to_multiset().remove(t[i]) =~= t.remove(i).to_multiset());
        assert(s.to_multiset().remove(s[i]) =~= s.remove(i).to_multiset());
        assert(r.to_multiset() =~= s.to_multiset().remove(id));
    }
}

/// Removing an id that is not a member leaves the membership unchanged.
pub proof fn lemma_remove_absent_is_noop(s: Seq<u32>, id: u32)
    requires
        !s.contains(id),
    ensures
        remove_first_swap(s, id) == s,
{
    s.index_of_first_ensures(id);
}

/// Updating an entity twice with the same position for the same id is
/// idempotent: after the second update the recorded locations, the set of
/// created cells and every cell's membership as a multiset (hence as a set)
/// are those of the first update.
pub proof fn lemma_update_entity_idempotent(
    g0: GridPartition,
    g1: GridPartition,
    g2: GridPartition,
    entity_id: u32,
    position: (i32, i32),
)
    requires
        update_spec(g0, g1, entity_id, position),
        update_spec(g1, g2, entity_id, position),
    ensures
        g2.locations() == g1.locations(),
        g2.cells_dom() == g1.cells_dom(),
        forall|c: CellKey| #[trigger]
            g2.cell_contents(c).to_multiset() == g1.cell_contents(c).to_multiset(),
{
    broadcast use vstd::seq_lib::group_to_multiset_ensures;
    broadcast use vstd::multiset::group_multiset_axioms;

    let k = g0.spec_cell_key(position);
    assert(g1.spec_cell_key(position) == k);
    assert(g1.locations().contains_key(entity_id) && g1.locations()[entity_id] == k);
    assert(g2.locations() =~= g1.locations());
    assert(g1.cells_dom().contains(k));
    assert(g2.cells_dom() =~= g1.cells_dom());
    assert forall|c: CellKey| #[trigger]
        g2.cell_contents(c).to_multiset() == g1.cell_contents(c).to_multiset() by {
        assert(g2.cell_contents(c) == moved_contents(g1, entity_id, k, c));
        if c == k {
            let s1 = g1.cell_contents(k);
            assert(s1 == evicted_contents(g0, entity_id, k).push(entity_id));
            assert(s1[s1.len() - 1] == entity_id);
            assert(s1.contains(entity_id));
            lemma_remove_takes_one_occurrence(s1, entity_id);
            let r = remove_first_swap(s1, entity_id);
            assert(g2.cell_contents(k) == r.push(entity_id));
            assert(r.push(entity_id).to_multiset() =~= r.to_multiset().insert(entity_id));
            assert(s1.to_multiset().count(entity_id) > 0);
            assert(s1.to_multiset().remove(entity_id).insert(entity_id) =~= s1.to_multiset());
        } else {
            assert(g2.cell_contents(c) == g1.cell_contents(c));
        }
    }
}

proof fn lemma_row_entities_of_empty_cells(g: GridPartition, r: int, c_lo: int, c_hi: int)
    requires
        forall|c: int|
            c_lo <= c <= c_hi ==> #[trigger] contents_at(g, r, c) == Seq::<u32>::empty(),
    ensures
        row_entities(g, r, c_lo, c_hi) == Seq::<u32>::empty(),
    decreases c_hi + 1 - c_lo,
{
    if c_lo <= c_hi {
        lemma_row_entities_of_empty_cells(g, r, c_lo + 1, c_hi);
        assert(row_entities(g, r, c_lo, c_hi) =~= Seq::<u32>::empty());
    }
}

proof fn lemma_grid_entities_of_empty_cells(
    g: GridPartition,
    r_lo: int,
    r_hi: int,
    c_lo: int,
    c_hi: int,
)
    requires
        forall|r: int, c: int|
            r_lo <= r <= r_hi && c_lo <= c <= c_hi ==> #[trigger] contents_at(g, r, c)
                == Seq::<u32>::empty(),
    ensures
        grid_entities(g, r_lo, r_hi, c_lo, c_hi) == Seq::<u32>::empty(),
    decreases r_hi + 1 - r_lo,
{
    if r_lo <= r_hi {
        lemma_row_entities_of_empty_cells(g, r_lo, c_lo, c_hi);
        lemma_grid_entities_of_empty_cells(g, r_lo + 1, r_hi, c_lo, c_hi);
        assert(grid_entities(g, r_lo, r_hi, c_lo, c_hi) =~= Seq::<u32>::empty());
    }
}

/// A query over a region that overlaps no created cell returns no entities;
/// querying such a region is always allowed.
pub proof fn lemma_query_of_untouched_region_is_empty(
    g: GridPartition,
    start_position: (i32, i32),
    end_position: (i32, i32),
)
    requires
        g.wf(),
        forall|k: CellKey|
            g.spec_row_col(start_position).0 <= k.row as int <= g.spec_row_col(end_position).0
                && g.spec_row_col(start_position).1 <= k.col as int <= g.spec_row_col(
                end_position,
            ).1 ==> !(#[trigger] g.cells_dom().contains(k)),
    ensures
        query_entities(g, start_position, end_position) == Seq::<u32>::empty(),
{
    let sr = g.spec_row_col(start_position).0;
    let er = g.spec_row_col(end_position).0;
    let sc = g.spec_row_col(start_position).1;
    let ec = g.spec_row_col(end_position).1;
    lemma_div_trunc_in_i32_range(start_position.1 as int, g.spec_height());
    lemma_div_trunc_in_i32_range(start_position.0 as int, g.spec_width());
    lemma_div_trunc_in_i32_range(end_position.1 as int, g.spec_height());
    lemma_div_trunc_in_i32_range(end_position.0 as int, g.spec_width());
    assert forall|r: int, c: int|
        sr <= r <= er && sc <= c <= ec implies #[trigger] contents_at(g, r, c)
        == Seq::<u32>::empty() by {
        let k = CellKey { row: r as i32, col: c as i32 };
        assert(k.row as int == r && k.col as int == c);
        assert(!g.cells_dom().contains(k));
        assert(!g.cell_present(k));
    }
    lemma_grid_entities_of_empty_cells(g, sr, er, sc, ec);
}

} // verus!
