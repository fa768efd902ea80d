//! A disk as a square grid of bits, and the regions that its used bits form.

use vstd::prelude::*;

verus! {

/// What a bit of the disk is: free, used, or used and assigned to a region.
///
/// Free bits are in region 0; the regions of used bits are numbered from 1.
pub enum BitModel {
    Free,
    Used,
    Region(nat),
}

/// One bit of the disk.
#[derive(Clone, Copy, Debug)]
pub struct Bit(isize);

impl View for Bit {
    type V = BitModel;

    closed spec fn view(&self) -> BitModel {
        if self.0 == 0 {
            BitModel::Free
        } else if self.0 < 0 {
            BitModel::Used
        } else {
            BitModel::Region(self.0 as nat)
        }
    }
}

impl Default for Bit {
    /// A free bit.
    fn default() -> (bit: Bit)
        ensures
            bit@ == BitModel::Free,
    {
        Bit(0)
    }
}

/// The character that stands for a free bit.
pub const UNSET_CHAR: char = '.';

/// The character that stands for a used bit without a region.
pub const SET_CHAR: char = '#';

/// Whether the binary digit of the value `2^place` is set in `n`.
pub open spec fn has_digit(n: nat, place: nat) -> bool {
    (n / vstd::arithmetic::power2::pow2(place)) % 2 == 1
}

/// The character that stands for a bit: `.` for a free bit, `#` for a used bit
/// without a region, and the last decimal digit of its region otherwise.
pub open spec fn symbol_of(bit: BitModel) -> char {
    match bit {
        BitModel::Free => '.',
        BitModel::Used => '#',
        BitModel::Region(n) => (48 + n % 10) as char,
    }
}

impl Bit {
    /// A used bit without a region if `set`, and a free bit otherwise.
    pub fn new(set: bool) -> (bit: Bit)
        ensures
            bit@ == if set {
                BitModel::Used
            } else {
                BitModel::Free
            },
    {
        Bit(
            if set {
                -1
            } else {
                0
            },
        )
    }

    /// The four bits of a hexadecimal digit, the highest first.
    pub fn from_hex(n: u8) -> (bits: [Bit; 4])
        requires
            n < 16,
        ensures
            forall|i: int|
                0 <= i < 4 ==> (#[trigger] bits[i])@ == if has_digit(n as nat, (3 - i) as nat) {
                    BitModel::Used
                } else {
                    BitModel::Free
                },
    {
        proof {
            vstd::arithmetic::power2::lemma2_to64();
            assert(((n & 8) != 0) == ((n / 8) % 2 == 1)) by (bit_vector);
            assert(((n & 4) != 0) == ((n / 4) % 2 == 1)) by (bit_vector);
            assert(((n & 2) != 0) == ((n / 2) % 2 == 1)) by (bit_vector);
            assert(((n & 1) != 0) == ((n / 1) % 2 == 1)) by (bit_vector);
        }
        [Bit::new(n & 8 != 0), Bit::new(n & 4 != 0), Bit::new(n & 2 != 0), Bit::new(n & 1 != 0)]
    }

    /// Frees the bit.
    pub fn unset(&mut self)
        ensures
            final(self)@ == BitModel::Free,
    {
        self.0 = 0;
    }

    /// Marks the bit as used, without a region.
    pub fn set(&mut self)
        ensures
            final(self)@ == BitModel::Used,
    {
        self.0 = -1;
    }

    /// Assigns the bit to a region. Region 0 is that of the free bits.
    pub fn set_region(&mut self, region: usize)
        requires
            region <= isize::MAX,
        ensures
            final(self)@ == if region == 0 {
                BitModel::Free
            } else {
                BitModel::Region(region as nat)
            },
    {
        self.0 = region as isize;
    }

    /// The region of the bit: 0 for a free bit, and none for a used bit that has
    /// not been assigned to one.
    pub fn region(&self) -> (region: Option<usize>)
        ensures
            region == match self@ {
                BitModel::Free => Some(0usize),
                BitModel::Used => None,
                BitModel::Region(n) => Some(n as usize),
            },
            self@ matches BitModel::Region(n) ==> 1 <= n <= isize::MAX,
    {
        if self.0 < 0 {
            None
        } else {
            Some(self.0 as usize)
        }
    }

    /// Whether the bit is used.
    pub fn is_set(&self) -> (used: bool)
        ensures
            used == (self@ != BitModel::Free),
    {
        self.0 != 0
    }

    /// The character that stands for the bit: `.` for a free bit, `#` for a used
    /// bit without a region, and the last decimal digit of its region otherwise.
    pub fn symbol(&self) -> (c: char)
        ensures
            c == symbol_of(self@),
    {
        match self.region() {
            Some(0) => UNSET_CHAR,
            Some(n) => (48u8 + (n % 10) as u8) as char,
            None => SET_CHAR,
        }
    }
}

/// The number of rows of a disk, and of bits in a row.
pub const NUM_BLOCKS: usize = 128;

/// The states of the bits of a row.
pub open spec fn row_view(row: Seq<Bit>) -> Seq<BitModel> {
    row.map_values(|bit: Bit| bit@)
}

/// How many bits of a row are used.
pub open spec fn used_in_row(row: Seq<BitModel>) -> nat
    decreases row.len(),
{
    if row.len() == 0 {
        0
    } else {
        used_in_row(row.drop_last()) + if row.last() != BitModel::Free {
            1nat
        } else {
            0nat
        }
    }
}

/// How many bits of a grid are used.
pub open spec fn used_in_grid(grid: Seq<Seq<BitModel>>) -> nat
    decreases grid.len(),
{
    if grid.len() == 0 {
        0
    } else {
        used_in_grid(grid.drop_last()) + used_in_row(grid.last())
    }
}

/// Whether a grid has `NUM_BLOCKS` rows of `NUM_BLOCKS` bits each.
pub open spec fn is_square(grid: Seq<Seq<BitModel>>) -> bool {
    &&& grid.len() == NUM_BLOCKS
    &&& forall|row: int| 0 <= row < grid.len() ==> (#[trigger] grid[row]).len() == NUM_BLOCKS
}

/// No row has more used bits than bits.
pub proof fn lemma_used_in_row_bound(row: Seq<BitModel>)
    ensures
        used_in_row(row) <= row.len(),
    decreases row.len(),
{
    if row.len() > 0 {
        lemma_used_in_row_bound(row.drop_last());
    }
}

/// A grid of rows of at most `width` bits has at most `width` used bits per row.
pub proof fn lemma_used_in_grid_bound(grid: Seq<Seq<BitModel>>, width: nat)
    requires
        forall|row: int| 0 <= row < grid.len() ==> (#[trigger] grid[row]).len() <= width,
    ensures
        used_in_grid(grid) <= grid.len() * width,
    decreases grid.len(),
{
    if grid.len() > 0 {
        let front = grid.drop_last();
        assert forall|row: int| 0 <= row < front.len() implies (#[trigger] front[row]).len()
            <= width by {
            assert(front[row] == grid[row]);
        }
        lemma_used_in_grid_bound(front, width);
        lemma_used_in_row_bound(grid.last());
        assert(grid.last() == grid[grid.len() - 1]);
        assert((grid.len() - 1) * width + width == grid.len() * width) by (nonlinear_arith);
    }
}

/// The cells above, below, left and right of a cell in a square grid with
/// `block_size` rows and columns, as far as they lie inside the grid.
pub open spec fn cells_around(block_size: int, row: int, col: int) -> Seq<(usize, usize)> {
    let above = if row > 0 {
        seq![((row - 1) as usize, col as usize)]
    } else {
        seq![]
    };
    let below = if row < block_size - 1 {
        seq![((row + 1) as usize, col as usize)]
    } else {
        seq![]
    };
    let left = if col > 0 {
        seq![(row as usize, (col - 1) as usize)]
    } else {
        seq![]
    };
    let right = if col < block_size - 1 {
        seq![(row as usize, (col + 1) as usize)]
    } else {
        seq![]
    };
    above + below + left + right
}

/// The cells above, below, left and right of a cell, as far as they lie inside
/// the grid. The grid has to have a row.
pub fn neighbours(block_size: usize, idx: (usize, usize)) -> (around: Vec<(usize, usize)>)
    requires
        block_size >= 1,
    ensures
        around@ == cells_around(block_size as int, idx.0 as int, idx.1 as int),
{
    let (row, col) = idx;
    let max_idx = block_size - 1;
    let mut vec: Vec<(usize, usize)> = Vec::new();
    if row > 0 {
        vec.push((row - 1, col));
    }
    if row < max_idx {
        vec.push((row + 1, col));
    }
    if col > 0 {
        vec.push((row, col - 1));
    }
    if col < max_idx {
        vec.push((row, col + 1));
    }
    assert(vec@ =~= cells_around(block_size as int, idx.0 as int, idx.1 as int));
    vec
}

/// The cells above, below, left and right of a cell that is not in the first row
/// or column, in a grid whose last row is followed by the first and whose last
/// column is followed by the first.
pub fn neighbours_wrapping(block_size: usize, idx: (usize, usize)) -> (around: Vec<(usize, usize)>)
    requires
        block_size >= 1,
        1 <= idx.0 < usize::MAX,
        1 <= idx.1 < usize::MAX,
    ensures
        around@ == seq![
            (((idx.0 - 1) % (block_size as int)) as usize, idx.1),
            (((idx.0 + 1) % (block_size as int)) as usize, idx.1),
            (idx.0, ((idx.1 - 1) % (block_size as int)) as usize),
            (idx.0, ((idx.1 + 1) % (block_size as int)) as usize),
        ],
{
    let (row, col) = idx;
    let mut vec: Vec<(usize, usize)> = Vec::new();
    vec.push(((row - 1) % block_size, col));
    vec.push(((row + 1) % block_size, col));
    vec.push((row, (col - 1) % block_size));
    vec.push((row, (col + 1) % block_size));
    assert(vec@ =~= seq![
        (((idx.0 - 1) % (block_size as int)) as usize, idx.1),
        (((idx.0 + 1) % (block_size as int)) as usize, idx.1),
        (idx.0, ((idx.1 - 1) % (block_size as int)) as usize),
        (idx.0, ((idx.1 + 1) % (block_size as int)) as usize),
    ]);
    vec
}

/// Whether a cell lies inside the grid.
pub open spec fn in_grid(cell: (int, int)) -> bool {
    0 <= cell.0 < NUM_BLOCKS && 0 <= cell.1 < NUM_BLOCKS
}

/// Whether a cell of the grid is used and not assigned to a region.
pub open spec fn is_open(grid: Seq<Seq<BitModel>>, cell: (int, int)) -> bool {
    in_grid(cell) && grid[cell.0][cell.1] == BitModel::Used
}

/// Whether two cells share an edge.
pub open spec fn adjacent(a: (int, int), b: (int, int)) -> bool {
    ||| a.0 == b.0 && (a.1 == b.1 + 1 || b.1 == a.1 + 1)
    ||| a.1 == b.1 && (a.0 == b.0 + 1 || b.0 == a.0 + 1)
}

/// Whether the cells of a path are open and each shares an edge with the next.
pub open spec fn is_path(grid: Seq<Seq<BitModel>>, path: Seq<(int, int)>) -> bool {
    &&& path.len() > 0
    &&& forall|i: int| 0 <= i < path.len() ==> is_open(grid, #[trigger] path[i])
    &&& forall|i: int| 0 <= i < path.len() - 1 ==> adjacent(#[trigger] path[i], path[i + 1])
}

/// Whether a path of open cells leads from one cell to the other.
pub open spec fn connected(grid: Seq<Seq<BitModel>>, a: (int, int), b: (int, int)) -> bool {
    exists|path: Seq<(int, int)>| #[trigger]
        is_path(grid, path) && path[0] == a && path.last() == b
}

/// Whether `labelled` is `grid` with its open cells assigned to the regions 1 to
/// `count`, two cells to the same region exactly if they are connected, and every
/// region to some cell. The other cells are as in `grid`.
pub open spec fn is_labelling(
    grid: Seq<Seq<BitModel>>,
    labelled: Seq<Seq<BitModel>>,
    count: nat,
) -> bool {
    &&& is_square(labelled)
    &&& forall|r: int, c: int|
        in_grid((r, c)) ==> if is_open(grid, (r, c)) {
            (#[trigger] labelled[r][c]) matches BitModel::Region(k) && 1 <= k <= count
        } else {
            labelled[r][c] == grid[r][c]
        }
    &&& forall|a: (int, int), b: (int, int)|
        is_open(grid, a) && is_open(grid, b) ==> (#[trigger] connected(grid, a, b)
            <==> labelled[a.0][a.1] == labelled[b.0][b.1])
    &&& forall|k: nat| 1 <= k <= count ==> #[trigger] has_region(grid, labelled, k)
}

/// Whether some open cell of `grid` is assigned to the region `k` in `labelled`.
pub open spec fn has_region(grid: Seq<Seq<BitModel>>, labelled: Seq<Seq<BitModel>>, k: nat) -> bool {
    exists|r: int, c: int|
        is_open(grid, (r, c)) && #[trigger] labelled[r][c] == BitModel::Region(k)
}

/// A grid has as many regions as any way of assigning them finds: two labellings
/// of a grid have the same number of regions.
pub proof fn lemma_region_count_unique(
    grid: Seq<Seq<BitModel>>,
    first: Seq<Seq<BitModel>>,
    first_count: nat,
    second: Seq<Seq<BitModel>>,
    second_count: nat,
)
    requires
        is_labelling(grid, first, first_count),
        is_labelling(grid, second, second_count),
    ensures
        first_count == second_count,
{
    lemma_region_count_at_most(grid, first, first_count, second, second_count);
    lemma_region_count_at_most(grid, second, second_count, first, first_count);
}

/// An open cell of the region `k` of a labelling.
spec fn cell_of_region(grid: Seq<Seq<BitModel>>, labelled: Seq<Seq<BitModel>>, k: nat) -> (int, int) {
    choose|cell: (int, int)|
        is_open(grid, cell) && labelled[cell.0][cell.1] == BitModel::Region(k)
}

/// A labelling has no more regions than another of the same grid: the regions of
/// the one are sent to different regions of the other.
proof fn lemma_region_count_at_most(
    grid: Seq<Seq<BitModel>>,
    first: Seq<Seq<BitModel>>,
    first_count: nat,
    second: Seq<Seq<BitModel>>,
    second_count: nat,
)
    requires
        is_labelling(grid, first, first_count),
        is_labelling(grid, second, second_count),
    ensures
        first_count <= second_count,
{
    let send = |k: int|
        match second[cell_of_region(grid, first, k as nat).0][cell_of_region(
            grid,
            first,
            k as nat,
        ).1] {
            BitModel::Region(j) => j as int,
            _ => 0int,
        };
    let from = vstd::set_lib::set_int_range(1, first_count as int + 1);
    let to = vstd::set_lib::set_int_range(1, second_count as int + 1);
    vstd::set_lib::lemma_int_range(1, first_count as int + 1);
    vstd::set_lib::lemma_int_range(1, second_count as int + 1);
    assert forall|k: int| from.contains(k) implies {
        let cell = cell_of_region(grid, first, k as nat);
        &&& is_open(grid, cell)
        &&& first[cell.0][cell.1] == BitModel::Region(k as nat)
        &&& second[cell.0][cell.1] == BitModel::Region(send(k) as nat)
        &&& to.contains(#[trigger] send(k))
    } by {
        assert(has_region(grid, first, k as nat));
        let (r, c) = choose|r: int, c: int|
            is_open(grid, (r, c)) && #[trigger] first[r][c] == BitModel::Region(k as nat);
        assert(is_open(grid, (r, c)) && first[(r, c).0][(r, c).1] == BitModel::Region(k as nat));
        let cell = cell_of_region(grid, first, k as nat);
        assert(in_grid((cell.0, cell.1)));
        assert(is_open(grid, (cell.0, cell.1)));
    }
    assert(vstd::relations::injective_on(send, from)) by {
        assert forall|a: int, b: int|
            from.contains(a) && from.contains(b) && #[trigger] send(a) == #[trigger] send(
                b,
            ) implies a == b by {
            let x = cell_of_region(grid, first, a as nat);
            let y = cell_of_region(grid, first, b as nat);
            assert(to.contains(send(a)) && to.contains(send(b)));
            assert(second[x.0][x.1] == second[y.0][y.1]);
            assert(connected(grid, x, y));
            assert(first[x.0][x.1] == first[y.0][y.1]);
        }
    }
    let image = from.map(send);
    vstd::set_lib::lemma_map_size(from, image, send);
    assert(image.subset_of(to)) by {
        assert forall|j: int| image.contains(j) implies to.contains(j) by {
            let k = choose|k: int| from.contains(k) && send(k) == j;
            assert(to.contains(send(k)));
        }
    }
    vstd::set_lib::lemma_len_subset(image, to);
}

/// An open cell is connected to itself.
pub proof fn lemma_connected_reflexive(grid: Seq<Seq<BitModel>>, a: (int, int))
    requires
        is_open(grid, a),
    ensures
        connected(grid, a, a),
{
    assert(is_path(grid, seq![a]) && seq![a][0] == a && seq![a].last() == a);
}

/// A connection can be extended by an open cell next to its end.
pub proof fn lemma_connected_extend(
    grid: Seq<Seq<BitModel>>,
    a: (int, int),
    b: (int, int),
    c: (int, int),
)
    requires
        connected(grid, a, b),
        adjacent(b, c),
        is_open(grid, c),
    ensures
        connected(grid, a, c),
{
    let path = choose|path: Seq<(int, int)>| #[trigger]
        is_path(grid, path) && path[0] == a && path.last() == b;
    let longer = path.push(c);
    assert forall|i: int| 0 <= i < longer.len() - 1 implies adjacent(
        #[trigger] longer[i],
        longer[i + 1],
    ) by {
        if i < path.len() - 1 {
            assert(adjacent(path[i], path[i + 1]));
        }
    }
    assert forall|i: int| 0 <= i < longer.len() implies is_open(grid, #[trigger] longer[i]) by {
        if i < path.len() {
            assert(is_open(grid, path[i]));
        }
    }
    assert(is_path(grid, longer) && longer[0] == a && longer.last() == c);
}

/// A connection leads back.
pub proof fn lemma_connected_symmetric(grid: Seq<Seq<BitModel>>, a: (int, int), b: (int, int))
    requires
        connected(grid, a, b),
    ensures
        connected(grid, b, a),
{
    let path = choose|path: Seq<(int, int)>| #[trigger]
        is_path(grid, path) && path[0] == a && path.last() == b;
    let back = path.reverse();
    assert forall|i: int| 0 <= i < back.len() implies is_open(grid, #[trigger] back[i]) by {
        assert(is_open(grid, path[path.len() - 1 - i]));
    }
    assert forall|i: int| 0 <= i < back.len() - 1 implies adjacent(
        #[trigger] back[i],
        back[i + 1],
    ) by {
        let j = path.len() - 2 - i;
        assert(adjacent(path[j], path[j + 1]));
    }
    assert(is_path(grid, back) && back[0] == b && back.last() == a);
}

/// Two connections in a row are a connection.
pub proof fn lemma_connected_transitive(
    grid: Seq<Seq<BitModel>>,
    a: (int, int),
    b: (int, int),
    c: (int, int),
)
    requires
        connected(grid, a, b),
        connected(grid, b, c),
    ensures
        connected(grid, a, c),
{
    let first = choose|path: Seq<(int, int)>| #[trigger]
        is_path(grid, path) && path[0] == a && path.last() == b;
    let second = choose|path: Seq<(int, int)>| #[trigger]
        is_path(grid, path) && path[0] == b && path.last() == c;
    let whole = first + second.drop_first();
    assert forall|i: int| 0 <= i < whole.len() implies is_open(grid, #[trigger] whole[i]) by {
        if i < first.len() {
            assert(is_open(grid, first[i]));
        } else {
            assert(is_open(grid, second[i - first.len() + 1]));
        }
    }
    assert forall|i: int| 0 <= i < whole.len() - 1 implies adjacent(
        #[trigger] whole[i],
        whole[i + 1],
    ) by {
        if i < first.len() - 1 {
            assert(adjacent(first[i], first[i + 1]));
        } else if i == first.len() - 1 {
            assert(adjacent(second[0], second[1]));
        } else {
            let j = i - first.len() + 1;
            assert(adjacent(second[j], second[j + 1]));
        }
    }
    assert(is_path(grid, whole) && whole[0] == a && whole.last() == c);
}

/// The state of a cell of a grid.
pub open spec fn label(grid: Seq<Seq<BitModel>>, cell: (int, int)) -> BitModel {
    grid[cell.0][cell.1]
}

/// A cell given by a row and a column of the disk.
pub open spec fn cell_of(idx: (usize, usize)) -> (int, int) {
    (idx.0 as int, idx.1 as int)
}

/// Whether a cell is among those that wait to be looked at.
spec fn on_stack(stack: Seq<(usize, usize)>, cell: (int, int)) -> bool {
    exists|i: int| 0 <= i < stack.len() && cell_of(#[trigger] stack[i]) == cell
}

/// Whether every open cell of `grid` is either still open in `now` or assigned
/// to one of the regions 1 to `k`, and every other cell is as in `grid`.
spec fn cells_assigned(grid: Seq<Seq<BitModel>>, now: Seq<Seq<BitModel>>, k: nat) -> bool {
    forall|a: (int, int)|
        in_grid(a) ==> if is_open(grid, a) {
            #[trigger] label(now, a) == BitModel::Used || (label(now, a) matches BitModel::Region(
                j,
            ) && 1 <= j <= k)
        } else {
            label(now, a) == label(grid, a)
        }
}

/// Whether each of the regions 1 to `k` holds every open cell next to one of its cells.
spec fn regions_closed(grid: Seq<Seq<BitModel>>, now: Seq<Seq<BitModel>>, k: nat) -> bool {
    forall|a: (int, int), b: (int, int)|
        is_open(grid, a) && is_open(grid, b) && adjacent(a, b) && (#[trigger] label(now, a) matches BitModel::Region(
            j,
        ) && j <= k) ==> #[trigger] label(now, b) == label(now, a)
}

/// Whether two cells assigned to the same of the regions 1 to `k` are connected.
spec fn regions_connected(grid: Seq<Seq<BitModel>>, now: Seq<Seq<BitModel>>, k: nat) -> bool {
    forall|a: (int, int), b: (int, int)|
        is_open(grid, a) && is_open(grid, b) && (#[trigger] label(now, a) matches BitModel::Region(
            j,
        ) && j <= k) && #[trigger] label(now, b) == label(now, a) ==> connected(grid, a, b)
}

/// Whether each of the regions 1 to `k` holds a cell.
spec fn regions_used(grid: Seq<Seq<BitModel>>, now: Seq<Seq<BitModel>>, k: nat) -> bool {
    forall|j: nat| 1 <= j <= k ==> #[trigger] has_region(grid, now, j)
}

/// Whether the regions 1 to `k` have been assigned in full, and nothing else.
spec fn labelled_upto(grid: Seq<Seq<BitModel>>, now: Seq<Seq<BitModel>>, k: nat) -> bool {
    &&& is_square(grid)
    &&& is_square(now)
    &&& cells_assigned(grid, now, k)
    &&& regions_closed(grid, now, k)
    &&& regions_connected(grid, now, k)
    &&& regions_used(grid, now, k)
}

/// What holds while the region `k` is filled from `seed`: the regions before it
/// are complete, the cells of region `k` are connected to `seed`, and every open
/// cell next to one of them is in the region or waits on the stack.
spec fn filling(
    grid: Seq<Seq<BitModel>>,
    now: Seq<Seq<BitModel>>,
    k: nat,
    seed: (int, int),
    stack: Seq<(usize, usize)>,
) -> bool {
    &&& k >= 1
    &&& is_square(grid)
    &&& is_square(now)
    &&& cells_assigned(grid, now, k)
    &&& regions_closed(grid, now, (k - 1) as nat)
    &&& regions_connected(grid, now, (k - 1) as nat)
    &&& regions_used(grid, now, (k - 1) as nat)
    &&& is_open(grid, seed)
    &&& label(now, seed) == BitModel::Region(k) || (label(now, seed) == BitModel::Used && on_stack(
        stack,
        seed,
    ))
    &&& forall|a: (int, int), b: (int, int)|
        is_open(grid, a) && is_open(grid, b) && adjacent(a, b) && #[trigger] label(now, a)
            == BitModel::Region(k) ==> #[trigger] label(now, b) == BitModel::Region(k) || on_stack(
            stack,
            b,
        )
    &&& forall|a: (int, int)|
        is_open(grid, a) && #[trigger] label(now, a) == BitModel::Region(k) ==> connected(
            grid,
            seed,
            a,
        )
    &&& forall|i: int|
        0 <= i < stack.len() ==> in_grid(cell_of(#[trigger] stack[i])) && (is_open(
            grid,
            cell_of(stack[i]),
        ) ==> connected(grid, seed, cell_of(stack[i])))
}

/// An open cell next to a cell is among the cells around it.
proof fn lemma_adjacent_is_around(a: (int, int), b: (int, int))
    requires
        in_grid(a),
        in_grid(b),
        adjacent(a, b),
    ensures
        on_stack(cells_around(NUM_BLOCKS as int, a.0, a.1), b),
{
    let around = cells_around(NUM_BLOCKS as int, a.0, a.1);
    let above: Seq<(usize, usize)> = if a.0 > 0 {
        seq![((a.0 - 1) as usize, a.1 as usize)]
    } else {
        seq![]
    };
    let below: Seq<(usize, usize)> = if a.0 < NUM_BLOCKS - 1 {
        seq![((a.0 + 1) as usize, a.1 as usize)]
    } else {
        seq![]
    };
    let left: Seq<(usize, usize)> = if a.1 > 0 {
        seq![(a.0 as usize, (a.1 - 1) as usize)]
    } else {
        seq![]
    };
    let right: Seq<(usize, usize)> = if a.1 < NUM_BLOCKS - 1 {
        seq![(a.0 as usize, (a.1 + 1) as usize)]
    } else {
        seq![]
    };
    assert(around == above + below + left + right);
    if b.0 == a.0 - 1 {
        assert(cell_of(around[0]) == b);
    } else if b.0 == a.0 + 1 {
        assert(cell_of(around[above.len() as int]) == b);
    } else if b.1 == a.1 - 1 {
        assert(cell_of(around[(above.len() + below.len()) as int]) == b);
    } else {
        assert(cell_of(around[(above.len() + below.len() + left.len()) as int]) == b);
    }
}

/// The cells of a path all have the state of its first cell, if that is a
/// region that holds every open cell next to one of its cells.
proof fn lemma_path_in_one_region(
    grid: Seq<Seq<BitModel>>,
    now: Seq<Seq<BitModel>>,
    k: nat,
    path: Seq<(int, int)>,
    i: int,
)
    requires
        regions_closed(grid, now, k),
        is_path(grid, path),
        0 <= i < path.len(),
        label(now, path[0]) matches BitModel::Region(j) && j <= k,
    ensures
        label(now, path[i]) == label(now, path[0]),
    decreases i,
{
    if i > 0 {
        lemma_path_in_one_region(grid, now, k, path, i - 1);
        assert(adjacent(path[i - 1], path[i]));
        assert(is_open(grid, path[i - 1]) && is_open(grid, path[i]));
    }
}

/// When the regions 1 to `k` are complete and no cell is open any more, the
/// open cells of the grid have been assigned to regions as they are connected.
proof fn lemma_labelling_complete(grid: Seq<Seq<BitModel>>, now: Seq<Seq<BitModel>>, k: nat)
    requires
        labelled_upto(grid, now, k),
        forall|a: (int, int)| is_open(grid, a) ==> #[trigger] label(now, a) != BitModel::Used,
    ensures
        is_labelling(grid, now, k),
{
    assert forall|r: int, c: int| in_grid((r, c)) implies if is_open(grid, (r, c)) {
        (#[trigger] now[r][c]) matches BitModel::Region(j) && 1 <= j <= k
    } else {
        now[r][c] == grid[r][c]
    } by {
        assert(label(now, (r, c)) == now[r][c]);
    }
    assert forall|a: (int, int), b: (int, int)| is_open(grid, a) && is_open(grid, b) implies (
    #[trigger] connected(grid, a, b) <==> now[a.0][a.1] == now[b.0][b.1]) by {
        assert(label(now, a) == now[a.0][a.1] && label(now, b) == now[b.0][b.1]);
        assert(label(now, a) != BitModel::Used && label(now, b) != BitModel::Used);
        if connected(grid, a, b) {
            let path = choose|path: Seq<(int, int)>| #[trigger]
                is_path(grid, path) && path[0] == a && path.last() == b;
            lemma_path_in_one_region(grid, now, k, path, path.len() - 1);
        }
    }
}

/// A cell that waits on the stack and is no longer open can be dropped from it.
proof fn lemma_fill_skip(
    grid: Seq<Seq<BitModel>>,
    now: Seq<Seq<BitModel>>,
    k: nat,
    seed: (int, int),
    rest: Seq<(usize, usize)>,
    at: (usize, usize),
)
    requires
        filling(grid, now, k, seed, rest.push(at)),
        label(now, cell_of(at)) != BitModel::Used,
    ensures
        filling(grid, now, k, seed, rest),
{
    let stack = rest.push(at);
    let top = cell_of(at);
    assert(stack[rest.len() as int] == at);
    assert(in_grid(top));
    assert forall|b: (int, int)| on_stack(stack, b) && b != top implies on_stack(rest, b) by {
        let i = choose|i: int| 0 <= i < stack.len() && cell_of(#[trigger] stack[i]) == b;
        assert(rest[i] == stack[i]);
    }
    assert forall|a: (int, int), b: (int, int)|
        is_open(grid, a) && is_open(grid, b) && adjacent(a, b) && #[trigger] label(now, a)
            == BitModel::Region(k) implies #[trigger] label(now, b) == BitModel::Region(k)
        || on_stack(rest, b) by {
        if label(now, b) != BitModel::Region(k) {
            assert(on_stack(stack, b));
            if b == top {
                // An assigned cell next to a cell of region k is of an earlier region,
                // which then holds that cell too.
                assert(label(now, b) matches BitModel::Region(j) && j <= k - 1);
                assert(adjacent(b, a));
                assert(label(now, a) == label(now, b));
            }
        }
    }
    assert forall|i: int| 0 <= i < rest.len() implies in_grid(cell_of(#[trigger] rest[i])) && (
    is_open(grid, cell_of(rest[i])) ==> connected(grid, seed, cell_of(rest[i]))) by {
        assert(rest[i] == stack[i]);
    }
    if label(now, seed) == BitModel::Used {
        assert(on_stack(stack, seed));
        assert(seed != top);
    }
}

/// Assigning the open cell on top of the stack to the region `k` and putting the
/// cells around it on the stack keeps the filling going.
proof fn lemma_fill_assign(
    grid: Seq<Seq<BitModel>>,
    now: Seq<Seq<BitModel>>,
    next: Seq<Seq<BitModel>>,
    k: nat,
    seed: (int, int),
    rest: Seq<(usize, usize)>,
    at: (usize, usize),
)
    requires
        filling(grid, now, k, seed, rest.push(at)),
        label(now, cell_of(at)) == BitModel::Used,
        is_square(next),
        forall|a: (int, int)|
            in_grid(a) ==> #[trigger] label(next, a) == if a == cell_of(at) {
                BitModel::Region(k)
            } else {
                label(now, a)
            },
    ensures
        filling(
            grid,
            next,
            k,
            seed,
            rest + cells_around(NUM_BLOCKS as int, at.0 as int, at.1 as int),
        ),
{
    let stack = rest.push(at);
    let top = cell_of(at);
    let around = cells_around(NUM_BLOCKS as int, at.0 as int, at.1 as int);
    let grown = rest + around;
    assert(stack[rest.len() as int] == at);
    assert(in_grid(top));
    // The cell is open in the grid: a cell that is not keeps the state it had.
    assert(is_open(grid, top)) by {
        assert(label(now, top) == BitModel::Used);
    }
    assert(connected(grid, seed, top));
    assert forall|b: (int, int)| on_stack(stack, b) && b != top implies on_stack(grown, b) by {
        let i = choose|i: int| 0 <= i < stack.len() && cell_of(#[trigger] stack[i]) == b;
        assert(grown[i] == stack[i]);
    }
    assert forall|b: (int, int)| on_stack(around, b) implies on_stack(grown, b) by {
        let i = choose|i: int| 0 <= i < around.len() && cell_of(#[trigger] around[i]) == b;
        assert(grown[rest.len() + i] == around[i]);
    }
    assert(cells_assigned(grid, next, k)) by {
        assert forall|a: (int, int)| in_grid(a) implies if is_open(grid, a) {
            #[trigger] label(next, a) == BitModel::Used || (label(next, a) matches BitModel::Region(
                j,
            ) && 1 <= j <= k)
        } else {
            label(next, a) == label(grid, a)
        } by {
            assert(label(now, a) == label(now, a));
        }
    }
    assert(regions_closed(grid, next, (k - 1) as nat)) by {
        assert forall|a: (int, int), b: (int, int)|
            is_open(grid, a) && is_open(grid, b) && adjacent(a, b) && (#[trigger] label(
                next,
                a,
            ) matches BitModel::Region(j) && j <= k - 1) implies #[trigger] label(next, b)
            == label(next, a) by {
            assert(label(now, a) == label(next, a));
            assert(label(now, b) == label(now, a));
        }
    }
    assert(regions_connected(grid, next, (k - 1) as nat)) by {
        assert forall|a: (int, int), b: (int, int)|
            is_open(grid, a) && is_open(grid, b) && (#[trigger] label(
                next,
                a,
            ) matches BitModel::Region(j) && j <= k - 1) && #[trigger] label(next, b) == label(
                next,
                a,
            ) implies connected(grid, a, b) by {
            assert(label(now, a) == label(next, a));
            assert(label(now, b) == label(next, b));
        }
    }
    assert(regions_used(grid, next, (k - 1) as nat)) by {
        assert forall|j: nat| 1 <= j <= k - 1 implies #[trigger] has_region(grid, next, j) by {
            assert(has_region(grid, now, j));
            let (r, c) = choose|r: int, c: int|
                is_open(grid, (r, c)) && #[trigger] now[r][c] == BitModel::Region(j);
            assert(label(now, (r, c)) == BitModel::Region(j));
            assert(label(next, (r, c)) == BitModel::Region(j));
            assert(next[r][c] == BitModel::Region(j));
        }
    }
    assert forall|a: (int, int), b: (int, int)|
        is_open(grid, a) && is_open(grid, b) && adjacent(a, b) && #[trigger] label(next, a)
            == BitModel::Region(k) implies #[trigger] label(next, b) == BitModel::Region(k)
        || on_stack(grown, b) by {
        if a == top {
            lemma_adjacent_is_around(a, b);
        } else {
            assert(label(now, a) == BitModel::Region(k));
            if b != top && label(now, b) != BitModel::Region(k) {
                assert(on_stack(stack, b));
            }
        }
    }
    assert forall|a: (int, int)|
        is_open(grid, a) && #[trigger] label(next, a) == BitModel::Region(k) implies connected(
        grid,
        seed,
        a,
    ) by {
        if a != top {
            assert(label(now, a) == BitModel::Region(k));
        }
    }
    assert forall|i: int| 0 <= i < grown.len() implies in_grid(cell_of(#[trigger] grown[i])) && (
    is_open(grid, cell_of(grown[i])) ==> connected(grid, seed, cell_of(grown[i]))) by {
        if i < rest.len() {
            assert(grown[i] == stack[i]);
        } else {
            let n = i - rest.len();
            assert(grown[i] == around[n]);
            lemma_around_in_grid(top, n);
            if is_open(grid, cell_of(around[n])) {
                lemma_connected_extend(grid, seed, top, cell_of(around[n]));
            }
        }
    }
    if seed != top {
        assert(label(next, seed) == label(now, seed));
        if label(now, seed) == BitModel::Used {
            assert(on_stack(stack, seed));
        }
    }
}

/// The cells around a cell of the grid lie in the grid, next to the cell.
proof fn lemma_around_in_grid(a: (int, int), n: int)
    requires
        in_grid(a),
        0 <= n < cells_around(NUM_BLOCKS as int, a.0, a.1).len(),
    ensures
        in_grid(cell_of(cells_around(NUM_BLOCKS as int, a.0, a.1)[n])),
        adjacent(a, cell_of(cells_around(NUM_BLOCKS as int, a.0, a.1)[n])),
{
    let above: Seq<(usize, usize)> = if a.0 > 0 {
        seq![((a.0 - 1) as usize, a.1 as usize)]
    } else {
        seq![]
    };
    let below: Seq<(usize, usize)> = if a.0 < NUM_BLOCKS - 1 {
        seq![((a.0 + 1) as usize, a.1 as usize)]
    } else {
        seq![]
    };
    let left: Seq<(usize, usize)> = if a.1 > 0 {
        seq![(a.0 as usize, (a.1 - 1) as usize)]
    } else {
        seq![]
    };
    let right: Seq<(usize, usize)> = if a.1 < NUM_BLOCKS - 1 {
        seq![(a.0 as usize, (a.1 + 1) as usize)]
    } else {
        seq![]
    };
    assert(cells_around(NUM_BLOCKS as int, a.0, a.1) == above + below + left + right);
}

/// Before any region is assigned, none is incomplete.
proof fn lemma_label_start(grid: Seq<Seq<BitModel>>)
    requires
        is_square(grid),
    ensures
        labelled_upto(grid, grid, 0),
{
    assert(cells_assigned(grid, grid, 0)) by {
        assert forall|a: (int, int)| in_grid(a) implies if is_open(grid, a) {
            #[trigger] label(grid, a) == BitModel::Used || (label(grid, a) matches BitModel::Region(
                j,
            ) && 1 <= j <= 0)
        } else {
            label(grid, a) == label(grid, a)
        } by {}
    }
    assert(regions_closed(grid, grid, 0)) by {
        assert forall|a: (int, int), b: (int, int)|
            is_open(grid, a) && is_open(grid, b) && adjacent(a, b) && (#[trigger] label(
                grid,
                a,
            ) matches BitModel::Region(j) && j <= 0) implies #[trigger] label(grid, b) == label(
            grid,
            a,
        ) by {}
    }
    assert(regions_connected(grid, grid, 0)) by {
        assert forall|a: (int, int), b: (int, int)|
            is_open(grid, a) && is_open(grid, b) && (#[trigger] label(
                grid,
                a,
            ) matches BitModel::Region(j) && j <= 0) && #[trigger] label(grid, b) == label(
                grid,
                a,
            ) implies connected(grid, a, b) by {}
    }
}

/// Filling the region `k` can start with its first cell alone on the stack.
proof fn lemma_fill_start(
    grid: Seq<Seq<BitModel>>,
    now: Seq<Seq<BitModel>>,
    k: nat,
    seed: (usize, usize),
)
    requires
        k >= 1,
        labelled_upto(grid, now, (k - 1) as nat),
        in_grid(cell_of(seed)),
        label(now, cell_of(seed)) == BitModel::Used,
    ensures
        filling(grid, now, k, cell_of(seed), seq![seed]),
        is_open(grid, cell_of(seed)),
{
    let stack = seq![seed];
    assert(is_open(grid, cell_of(seed))) by {
        assert(label(now, cell_of(seed)) == BitModel::Used);
    }
    assert(cell_of(stack[0]) == cell_of(seed));
    lemma_connected_reflexive(grid, cell_of(seed));
    assert(cells_assigned(grid, now, k)) by {
        assert forall|a: (int, int)| in_grid(a) implies if is_open(grid, a) {
            #[trigger] label(now, a) == BitModel::Used || (label(now, a) matches BitModel::Region(
                j,
            ) && 1 <= j <= k)
        } else {
            label(now, a) == label(grid, a)
        } by {
            assert(label(now, a) == label(now, a));
        }
    }
    assert forall|a: (int, int)| is_open(grid, a) implies #[trigger] label(now, a)
        != BitModel::Region(k) by {
        assert(in_grid(a));
    }
}

/// When the stack is empty the region `k` is complete.
proof fn lemma_fill_done(
    grid: Seq<Seq<BitModel>>,
    now: Seq<Seq<BitModel>>,
    k: nat,
    seed: (int, int),
)
    requires
        filling(grid, now, k, seed, Seq::<(usize, usize)>::empty()),
    ensures
        labelled_upto(grid, now, k),
        label(now, seed) == BitModel::Region(k),
{
    let none = Seq::<(usize, usize)>::empty();
    assert(forall|b: (int, int)| !on_stack(none, b));
    assert(label(now, seed) == BitModel::Region(k));
    assert(regions_closed(grid, now, k)) by {
        assert forall|a: (int, int), b: (int, int)|
            is_open(grid, a) && is_open(grid, b) && adjacent(a, b) && (#[trigger] label(
                now,
                a,
            ) matches BitModel::Region(j) && j <= k) implies #[trigger] label(now, b) == label(
            now,
            a,
        ) by {
            if label(now, a) == BitModel::Region(k) {
                assert(!on_stack(none, b));
            }
        }
    }
    assert(regions_connected(grid, now, k)) by {
        assert forall|a: (int, int), b: (int, int)|
            is_open(grid, a) && is_open(grid, b) && (#[trigger] label(
                now,
                a,
            ) matches BitModel::Region(j) && j <= k) && #[trigger] label(now, b) == label(
                now,
                a,
            ) implies connected(grid, a, b) by {
            if label(now, a) == BitModel::Region(k) {
                lemma_connected_symmetric(grid, seed, a);
                lemma_connected_transitive(grid, a, seed, b);
            }
        }
    }
    assert(regions_used(grid, now, k)) by {
        assert forall|j: nat| 1 <= j <= k implies #[trigger] has_region(grid, now, j) by {
            if j == k {
                assert(now[seed.0][seed.1] == BitModel::Region(k));
            }
        }
    }
}

/// How many of the bits are used and not assigned to a region.
spec fn count_open(bits: Seq<Bit>) -> nat
    decreases bits.len(),
{
    if bits.len() == 0 {
        0
    } else {
        count_open(bits.drop_last()) + if bits.last()@ == BitModel::Used {
            1nat
        } else {
            0nat
        }
    }
}

/// Assigning an open bit to a region leaves one open bit less.
proof fn lemma_count_open_assign(bits: Seq<Bit>, at: int, bit: Bit)
    requires
        0 <= at < bits.len(),
        bits[at]@ == BitModel::Used,
        bit@ != BitModel::Used,
    ensures
        count_open(bits.update(at, bit)) + 1 == count_open(bits),
    decreases bits.len(),
{
    let changed = bits.update(at, bit);
    if at == bits.len() - 1 {
        assert(changed.drop_last() == bits.drop_last());
    } else {
        lemma_count_open_assign(bits.drop_last(), at, bit);
        assert(changed.drop_last() == bits.drop_last().update(at, bit));
    }
}

/// The value of a hexadecimal digit, in either case.
pub open spec fn hex_value(c: char) -> Option<nat> {
    if '0' <= c <= '9' {
        Some((c as u32 - '0' as u32) as nat)
    } else if 'a' <= c <= 'f' {
        Some((c as u32 - 'a' as u32 + 10) as nat)
    } else if 'A' <= c <= 'F' {
        Some((c as u32 - 'A' as u32 + 10) as nat)
    } else {
        None
    }
}

/// Whether the texts are `NUM_BLOCKS` hashes of `NUM_BLOCKS / 4` hexadecimal
/// digits each.
pub open spec fn are_hashes(hashes: Seq<Seq<char>>) -> bool {
    &&& hashes.len() == NUM_BLOCKS
    &&& forall|row: int|
        0 <= row < hashes.len() ==> (#[trigger] hashes[row]).len() * 4 == NUM_BLOCKS
    &&& forall|row: int, k: int|
        0 <= row < hashes.len() && 0 <= k < hashes[row].len() ==> hex_value(
            #[trigger] hashes[row][k],
        ) is Some
}

/// The bit that a row of hexadecimal digits gives at a column: every digit gives
/// four bits, the highest first, and a set binary digit gives a used bit.
pub open spec fn hash_bit(hash: Seq<char>, col: int) -> BitModel {
    if has_digit(hex_value(hash[col / 4])->0, (3 - col % 4) as nat) {
        BitModel::Used
    } else {
        BitModel::Free
    }
}

/// The value of a hexadecimal digit.
fn hex_digit(c: char) -> (value: Option<u8>)
    ensures
        match value {
            Some(v) => hex_value(c) == Some(v as nat) && v < 16,
            None => hex_value(c) is None,
        },
{
    if '0' <= c && c <= '9' {
        Some((c as u32 - '0' as u32) as u8)
    } else if 'a' <= c && c <= 'f' {
        Some((c as u32 - 'a' as u32 + 10) as u8)
    } else if 'A' <= c && c <= 'F' {
        Some((c as u32 - 'A' as u32 + 10) as u8)
    } else {
        None
    }
}

/// The bits that a row of hexadecimal digits gives, if it is one of the right length.
fn hash_row(hash: &str) -> (row: Option<Vec<Bit>>)
    ensures
        match row {
            Some(bits) => {
                &&& hash@.len() * 4 == NUM_BLOCKS
                &&& forall|k: int| 0 <= k < hash@.len() ==> hex_value(#[trigger] hash@[k]) is Some
                &&& bits@.len() == NUM_BLOCKS
                &&& forall|col: int|
                    0 <= col < NUM_BLOCKS ==> (#[trigger] bits@[col])@ == hash_bit(hash@, col)
            },
            None => hash@.len() * 4 != NUM_BLOCKS || exists|k: int|
                0 <= k < hash@.len() && hex_value(#[trigger] hash@[k]) is None,
        },
{
    let digits = crate::text::chars_of(hash);
    if digits.len() != NUM_BLOCKS / 4 {
        return None;
    }
    let mut bits: Vec<Bit> = Vec::new();
    let mut k: usize = 0;
    while k < digits.len()
        invariant
            k <= digits.len(),
            digits@ == hash@,
            digits@.len() * 4 == NUM_BLOCKS,
            bits@.len() == 4 * k,
            forall|j: int| 0 <= j < k ==> hex_value(#[trigger] hash@[j]) is Some,
            forall|col: int| 0 <= col < 4 * k ==> (#[trigger] bits@[col])@ == hash_bit(hash@, col),
        decreases digits.len() - k,
    {
        let four = match hex_digit(digits[k]) {
            Some(value) => Bit::from_hex(value),
            None => {
                return None;
            },
        };
        let ghost before = bits@;
        bits.push(four[0]);
        bits.push(four[1]);
        bits.push(four[2]);
        bits.push(four[3]);
        proof {
            assert forall|col: int| 0 <= col < 4 * (k + 1) implies (#[trigger] bits@[col])@
                == hash_bit(hash@, col) by {
                if col < 4 * k {
                    assert(bits@[col] == before[col]);
                } else {
                    assert(col / 4 == k);
                    assert(bits@[col] == four[col - 4 * k]);
                    assert(col % 4 == col - 4 * k);
                }
            }
        }
        k = k + 1;
    }
    Some(bits)
}

/// A disk: a square grid of bits.
#[derive(Debug)]
pub struct Disk {
    /// The bits row by row.
    space: Vec<Bit>,
}

impl View for Disk {
    type V = Seq<Seq<BitModel>>;

    closed spec fn view(&self) -> Seq<Seq<BitModel>> {
        Seq::new(
            NUM_BLOCKS as nat,
            |row: int| Seq::new(NUM_BLOCKS as nat, |col: int| self.space@[row * NUM_BLOCKS + col]@),
        )
    }
}

impl Clone for Disk {
    /// A disk with the same bits.
    fn clone(&self) -> (copy: Disk)
        ensures
            copy@ == self@,
    {
        proof {
            use_type_invariant(self);
        }
        let mut space: Vec<Bit> = Vec::new();
        let mut i: usize = 0;
        while i < self.space.len()
            invariant
                i <= self.space.len(),
                space@ == self.space@.take(i as int),
            decreases self.space.len() - i,
        {
            space.push(self.space[i]);
            assert(self.space@.take(i + 1) == self.space@.take(i as int).push(self.space@[i as int]));
            i = i + 1;
        }
        assert(self.space@.take(i as int) == self.space@);
        Disk { space }
    }
}

impl Disk {
    #[verifier::type_invariant]
    spec fn well_formed(&self) -> bool {
        self.space@.len() == NUM_BLOCKS * NUM_BLOCKS
    }

    /// The disk with the given rows of bits, if they form a square of `NUM_BLOCKS`
    /// rows and columns.
    pub fn from_bits(rows: &Vec<Vec<Bit>>) -> (made: Option<Disk>)
        ensures
            match made {
                Some(disk) => disk@ == rows@.map_values(|row: Vec<Bit>| row_view(row@))
                    && is_square(disk@),
                None => !is_square(rows@.map_values(|row: Vec<Bit>| row_view(row@))),
            },
    {
        let ghost grid = rows@.map_values(|row: Vec<Bit>| row_view(row@));
        if rows.len() != NUM_BLOCKS {
            return None;
        }
        let mut space: Vec<Bit> = Vec::new();
        let mut row: usize = 0;
        while row < rows.len()
            invariant
                row <= rows.len(),
                rows.len() == NUM_BLOCKS,
                grid == rows@.map_values(|row: Vec<Bit>| row_view(row@)),
                space@.len() == row * NUM_BLOCKS,
                forall|r: int| 0 <= r < row ==> (#[trigger] grid[r]).len() == NUM_BLOCKS,
                forall|k: int|
                    0 <= k < space@.len() ==> (#[trigger] space@[k])@ == grid[k / 128][k % 128],
            decreases rows.len() - row,
        {
            let bits = &rows[row];
            if bits.len() != NUM_BLOCKS {
                assert(grid[row as int].len() != NUM_BLOCKS);
                return None;
            }
            let mut col: usize = 0;
            while col < bits.len()
                invariant
                    col <= bits.len(),
                    row < rows.len(),
                    rows.len() == NUM_BLOCKS,
                    bits.len() == NUM_BLOCKS,
                    bits@ == rows@[row as int]@,
                    grid == rows@.map_values(|row: Vec<Bit>| row_view(row@)),
                    space@.len() == row * NUM_BLOCKS + col,
                    forall|k: int|
                        0 <= k < space@.len() ==> (#[trigger] space@[k])@ == grid[k / 128][k % 128],
                decreases bits.len() - col,
            {
                proof {
                    let k = row * NUM_BLOCKS + col;
                    assert(k / 128 == row && k % 128 == col);
                    assert(grid[row as int][col as int] == bits@[col as int]@);
                }
                space.push(bits[col]);
                col = col + 1;
            }
            row = row + 1;
        }
        let disk = Disk { space };
        proof {
            assert forall|r: int| 0 <= r < NUM_BLOCKS implies #[trigger] disk@[r] == grid[r] by {
                assert forall|c: int| 0 <= c < NUM_BLOCKS implies disk@[r][c] == grid[r][c] by {
                    let k = r * NUM_BLOCKS + c;
                    assert(k / 128 == r && k % 128 == c);
                }
                assert(disk@[r] =~= grid[r]);
            }
            assert(disk@ =~= grid);
        }
        Some(disk)
    }

    /// The disk whose rows are given by hashes: `NUM_BLOCKS` texts of `NUM_BLOCKS / 4`
    /// hexadecimal digits each. Anything else gives no disk.
    pub fn from_hashes(hashes: &[String]) -> (made: Option<Disk>)
        ensures
            match made {
                Some(disk) => {
                    &&& are_hashes(crate::text::string_views(hashes@))
                    &&& is_square(disk@)
                    &&& forall|row: int, col: int|
                        0 <= row < NUM_BLOCKS && 0 <= col < NUM_BLOCKS ==> #[trigger] disk@[row][col]
                            == hash_bit(hashes@[row]@, col)
                },
                None => !are_hashes(crate::text::string_views(hashes@)),
            },
    {
        let ghost texts = crate::text::string_views(hashes@);
        if hashes.len() != NUM_BLOCKS {
            return None;
        }
        let mut rows: Vec<Vec<Bit>> = Vec::new();
        let mut row: usize = 0;
        while row < hashes.len()
            invariant
                row <= hashes.len(),
                hashes.len() == NUM_BLOCKS,
                texts == crate::text::string_views(hashes@),
                rows@.len() == row,
                forall|r: int| 0 <= r < row ==> (#[trigger] texts[r]).len() * 4 == NUM_BLOCKS,
                forall|r: int, k: int|
                    0 <= r < row && 0 <= k < texts[r].len() ==> hex_value(#[trigger] texts[r][k])
                        is Some,
                forall|r: int| 0 <= r < row ==> (#[trigger] rows@[r])@.len() == NUM_BLOCKS,
                forall|r: int, c: int|
                    0 <= r < row && 0 <= c < NUM_BLOCKS ==> (#[trigger] rows@[r]@[c])@ == hash_bit(
                        texts[r],
                        c,
                    ),
            decreases hashes.len() - row,
        {
            proof {
                assert(texts[row as int] == hashes@[row as int]@);
            }
            match hash_row(hashes[row].as_str()) {
                Some(bits) => {
                    rows.push(bits);
                },
                None => {
                    return None;
                },
            }
            row = row + 1;
        }
        let made = Disk::from_bits(&rows);
        proof {
            let grid = rows@.map_values(|bits: Vec<Bit>| row_view(bits@));
            assert(is_square(grid)) by {
                assert forall|r: int| 0 <= r < grid.len() implies (#[trigger] grid[r]).len()
                    == NUM_BLOCKS by {
                    assert(rows@[r]@.len() == NUM_BLOCKS);
                }
            }
            assert forall|r: int, c: int|
                0 <= r < NUM_BLOCKS && 0 <= c < NUM_BLOCKS implies #[trigger] grid[r][c]
                == hash_bit(hashes@[r]@, c) by {
                assert(grid[r][c] == rows@[r]@[c]@);
                assert(texts[r] == hashes@[r]@);
            }
        }
        made
    }

    /// The disk drawn row by row, every bit by the character that stands for it.
    pub fn symbols(&self) -> (rows: Vec<Vec<char>>)
        ensures
            rows@.len() == NUM_BLOCKS,
            forall|row: int| 0 <= row < NUM_BLOCKS ==> (#[trigger] rows@[row])@.len() == NUM_BLOCKS,
            forall|row: int, col: int|
                0 <= row < NUM_BLOCKS && 0 <= col < NUM_BLOCKS ==> #[trigger] rows@[row]@[col]
                    == symbol_of(self@[row][col]),
    {
        proof {
            use_type_invariant(self);
        }
        let mut rows: Vec<Vec<char>> = Vec::new();
        let mut row: usize = 0;
        while row < NUM_BLOCKS
            invariant
                row <= NUM_BLOCKS,
                self.space@.len() == NUM_BLOCKS * NUM_BLOCKS,
                rows@.len() == row,
                forall|r: int| 0 <= r < row ==> (#[trigger] rows@[r])@.len() == NUM_BLOCKS,
                forall|r: int, c: int|
                    0 <= r < row && 0 <= c < NUM_BLOCKS ==> #[trigger] rows@[r]@[c] == symbol_of(
                        self@[r][c],
                    ),
            decreases NUM_BLOCKS - row,
        {
            let mut line: Vec<char> = Vec::new();
            let mut col: usize = 0;
            while col < NUM_BLOCKS
                invariant
                    row < NUM_BLOCKS,
                    col <= NUM_BLOCKS,
                    self.space@.len() == NUM_BLOCKS * NUM_BLOCKS,
                    line@.len() == col,
                    forall|c: int|
                        0 <= c < col ==> #[trigger] line@[c] == symbol_of(self@[row as int][c]),
                decreases NUM_BLOCKS - col,
            {
                line.push(self.space[row * NUM_BLOCKS + col].symbol());
                col = col + 1;
            }
            rows.push(line);
            row = row + 1;
        }
        rows
    }

    /// The number of used bits.
    pub fn used(&self) -> (count: usize)
        ensures
            count == used_in_grid(self@),
    {
        proof {
            use_type_invariant(self);
        }
        let mut count: usize = 0;
        let mut row: usize = 0;
        while row < NUM_BLOCKS
            invariant
                row <= NUM_BLOCKS,
                self.space@.len() == NUM_BLOCKS * NUM_BLOCKS,
                count == used_in_grid(self@.take(row as int)),
                count <= row * NUM_BLOCKS,
            decreases NUM_BLOCKS - row,
        {
            let mut in_row: usize = 0;
            let mut col: usize = 0;
            while col < NUM_BLOCKS
                invariant
                    col <= NUM_BLOCKS,
                    row < NUM_BLOCKS,
                    self.space@.len() == NUM_BLOCKS * NUM_BLOCKS,
                    in_row == used_in_row(self@[row as int].take(col as int)),
                    in_row <= col,
                decreases NUM_BLOCKS - col,
            {
                proof {
                    let bits = self@[row as int];
                    assert(bits.take(col + 1).drop_last() == bits.take(col as int));
                    assert(bits.take(col + 1).last() == self.space@[row * NUM_BLOCKS + col]@);
                }
                if self.space[row * NUM_BLOCKS + col].is_set() {
                    in_row = in_row + 1;
                }
                col = col + 1;
            }
            proof {
                assert(self@[row as int].take(col as int) == self@[row as int]);
                assert(self@.take(row + 1).drop_last() == self@.take(row as int));
                assert(self@.take(row + 1).last() == self@[row as int]);
            }
            count = count + in_row;
            row = row + 1;
        }
        assert(self@.take(row as int) == self@);
        count
    }

    /// How many bits are used and not assigned to a region.
    closed spec fn pending(&self) -> nat {
        count_open(self.space@)
    }

    /// Assigns the open bit in the given row and column to a region.
    fn assign(&mut self, idx: (usize, usize), region: usize)
        requires
            idx.0 < NUM_BLOCKS,
            idx.1 < NUM_BLOCKS,
            1 <= region <= isize::MAX,
            label(old(self)@, cell_of(idx)) == BitModel::Used,
        ensures
            is_square(final(self)@),
            final(self).pending() + 1 == old(self).pending(),
            forall|a: (int, int)|
                in_grid(a) ==> #[trigger] label(final(self)@, a) == if a == cell_of(idx) {
                    BitModel::Region(region as nat)
                } else {
                    label(old(self)@, a)
                },
    {
        proof {
            use_type_invariant(&*self);
        }
        let ghost before = self.space@;
        let at = idx.0 * NUM_BLOCKS + idx.1;
        let bit = &mut self.space[at];
        bit.set_region(region);
        proof {
            assert(self.space@ == before.update(at as int, self.space@[at as int]));
            lemma_count_open_assign(before, at as int, self.space@[at as int]);
            assert forall|a: (int, int)| in_grid(a) implies #[trigger] label(self@, a) == if a
                == cell_of(idx) {
                BitModel::Region(region as nat)
            } else {
                label(old(self)@, a)
            } by {
                let k = a.0 * NUM_BLOCKS + a.1;
                assert(k == at <==> a == cell_of(idx));
            }
        }
    }

    /// Assigns the open cell `idx` and every open cell connected to it to a region.
    fn set_region_from(
        &mut self,
        idx: (usize, usize),
        region: usize,
        Ghost(grid): Ghost<Seq<Seq<BitModel>>>,
    )
        requires
            idx.0 < NUM_BLOCKS,
            idx.1 < NUM_BLOCKS,
            1 <= region <= isize::MAX,
            labelled_upto(grid, old(self)@, (region - 1) as nat),
            label(old(self)@, cell_of(idx)) == BitModel::Used,
        ensures
            labelled_upto(grid, final(self)@, region as nat),
            label(final(self)@, cell_of(idx)) == BitModel::Region(region as nat),
            forall|a: (int, int)|
                in_grid(a) && #[trigger] label(old(self)@, a) != BitModel::Used ==> label(
                    final(self)@,
                    a,
                ) == label(old(self)@, a),
            forall|a: (int, int)|
                in_grid(a) ==> #[trigger] label(final(self)@, a) == label(old(self)@, a) || label(
                    final(self)@,
                    a,
                ) == BitModel::Region(region as nat),
    {
        let mut stack: Vec<(usize, usize)> = Vec::new();
        stack.push(idx);
        proof {
            lemma_fill_start(grid, self@, region as nat, idx);
            assert(stack@ == seq![idx]);
        }
        while stack.len() > 0
            invariant
                1 <= region <= isize::MAX,
                filling(grid, self@, region as nat, cell_of(idx), stack@),
                forall|a: (int, int)|
                    in_grid(a) && #[trigger] label(old(self)@, a) != BitModel::Used ==> label(
                        self@,
                        a,
                    ) == label(old(self)@, a),
                forall|a: (int, int)|
                    in_grid(a) ==> #[trigger] label(self@, a) == label(old(self)@, a) || label(
                        self@,
                        a,
                    ) == BitModel::Region(region as nat),
            decreases self.pending(), stack@.len(),
        {
            let ghost before = stack@;
            let ghost now = self@;
            let at = stack.pop().unwrap();
            proof {
                assert(before == stack@.push(at));
                assert(before[before.len() - 1] == at);
                assert(in_grid(cell_of(at)));
            }
            if self.bit(at).region().is_none() {
                self.assign(at, region);
                let mut around = neighbours(NUM_BLOCKS, at);
                proof {
                    lemma_fill_assign(grid, now, self@, region as nat, cell_of(idx), stack@, at);
                }
                stack.append(&mut around);
            } else {
                proof {
                    lemma_fill_skip(grid, now, region as nat, cell_of(idx), stack@, at);
                }
            }
        }
        proof {
            assert(stack@ == Seq::<(usize, usize)>::empty());
            lemma_fill_done(grid, self@, region as nat, cell_of(idx));
        }
    }

    /// Assigns every used bit without a region to one: two bits to the same region
    /// exactly if a path of such bits leads from one to the other. The regions are
    /// numbered from 1, and their number is returned.
    pub fn label_regions(&mut self) -> (count: usize)
        ensures
            is_labelling(old(self)@, final(self)@, count as nat),
    {
        proof {
            use_type_invariant(&*self);
        }
        let ghost grid = self@;
        let mut count: usize = 0;
        let mut row: usize = 0;
        proof {
            lemma_label_start(grid);
        }
        while row < NUM_BLOCKS
            invariant
                row <= NUM_BLOCKS,
                count <= row * NUM_BLOCKS,
                labelled_upto(grid, self@, count as nat),
                forall|a: (int, int)|
                    in_grid(a) && a.0 < row ==> #[trigger] label(self@, a) != BitModel::Used,
            decreases NUM_BLOCKS - row,
        {
            let mut col: usize = 0;
            while col < NUM_BLOCKS
                invariant
                    row < NUM_BLOCKS,
                    col <= NUM_BLOCKS,
                    count <= row * NUM_BLOCKS + col,
                    labelled_upto(grid, self@, count as nat),
                    forall|a: (int, int)|
                        in_grid(a) && (a.0 < row || (a.0 == row && a.1 < col)) ==> #[trigger] label(
                            self@,
                            a,
                        ) != BitModel::Used,
                decreases NUM_BLOCKS - col,
            {
                let idx = (row, col);
                if self.bit(idx).region().is_none() {
                    count = count + 1;
                    self.set_region_from(idx, count, Ghost(grid));
                }
                proof {
                    assert(label(self@, cell_of(idx)) != BitModel::Used);
                }
                col = col + 1;
            }
            row = row + 1;
        }
        proof {
            assert forall|a: (int, int)| is_open(grid, a) implies #[trigger] label(self@, a)
                != BitModel::Used by {
                assert(in_grid(a));
            }
            lemma_labelling_complete(grid, self@, count as nat);
        }
        count
    }

    /// The number of regions that the used bits without a region form: two bits are
    /// in the same region exactly if a path of such bits, each above, below, left or
    /// right of the one before, leads from one to the other.
    pub fn regions(&self) -> (count: usize)
        ensures
            exists|labelled: Seq<Seq<BitModel>>| is_labelling(self@, labelled, count as nat),
    {
        let mut disk = self.clone();
        let count = disk.label_regions();
        proof {
            assert(is_labelling(self@, disk@, count as nat));
        }
        count
    }

    /// The bit in the given row and column.
    pub fn bit(&self, idx: (usize, usize)) -> (bit: &Bit)
        requires
            idx.0 < NUM_BLOCKS,
            idx.1 < NUM_BLOCKS,
        ensures
            bit@ == self@[idx.0 as int][idx.1 as int],
            is_square(self@),
    {
        proof {
            use_type_invariant(self);
        }
        &self.space[idx.0 * NUM_BLOCKS + idx.1]
    }

    /// The bit in the given row and column, for changing it. All other bits stay.
    pub fn bit_mut(&mut self, idx: (usize, usize)) -> (bit: &mut Bit)
        requires
            idx.0 < NUM_BLOCKS,
            idx.1 < NUM_BLOCKS,
        ensures
            bit@ == old(self)@[idx.0 as int][idx.1 as int],
            is_square(final(self)@),
            forall|row: int, col: int|
                0 <= row < NUM_BLOCKS && 0 <= col < NUM_BLOCKS ==> #[trigger] final(self)@[row][col]
                    == if row == idx.0 && col == idx.1 {
                    final(bit)@
                } else {
                    old(self)@[row][col]
                },
    {
        proof {
            use_type_invariant(&*self);
        }
        &mut self.space[idx.0 * NUM_BLOCKS + idx.1]
    }
}

} // verus!
