//! The base layout optimiser: the tiles of a base, which tiles boost or drain which, the
//! drawing of a layout, and the counting and enumeration of tile choices.
use vstd::prelude::*;
use crate::text::push_str;

verus! {

broadcast use vstd::seq_lib::group_seq_properties;

/// What stands on a tile.
#[derive(Clone, Copy, PartialEq, Eq, Structural, Debug)]
pub enum Tile {
    Empty,
    Mats,
    Parts,
    Components,
    Booster,
    DrainReduce,
}

/// How a tile is drawn, three characters wide.
pub open spec fn symbol_of(t: Tile) -> Seq<char> {
    match t {
        Tile::Empty => "   "@,
        Tile::Mats => " B "@,
        Tile::Parts => " P "@,
        Tile::Components => " C "@,
        Tile::Booster => " + "@,
        Tile::DrainReduce => " X "@,
    }
}

impl Tile {
    /// How the tile is drawn, three characters wide.
    pub fn symbol(self) -> (r: &'static str)
        ensures
            r@ == symbol_of(self),
    {
        match self {
            Tile::Empty => "   ",
            Tile::Mats => " B ",
            Tile::Parts => " P ",
            Tile::Components => " C ",
            Tile::Booster => " + ",
            Tile::DrainReduce => " X ",
        }
    }
}

/// One of the bases whose layout can be optimised.
#[derive(Clone, Copy, PartialEq, Eq, Debug)]
pub enum Base {
    Base3,
    Base4,
    Base5,
}

/// The shape of a base: its size, its blocked `(row, column)` cells, the reach of a booster,
/// and whether boosters and drains swap shapes (boosters reaching diagonally, drains along rows
/// and columns).
pub struct BaseLayout {
    pub height: usize,
    pub width: usize,
    pub blocked: Vec<(usize, usize)>,
    pub boost_range: i32,
    pub swapped_shapes: bool,
}

/// A base shape by its plain values.
pub struct BaseLayoutView {
    pub height: usize,
    pub width: usize,
    pub blocked: Seq<(usize, usize)>,
    pub boost_range: i32,
    pub swapped_shapes: bool,
}

impl View for BaseLayout {
    type V = BaseLayoutView;

    open spec fn view(&self) -> BaseLayoutView {
        BaseLayoutView {
            height: self.height,
            width: self.width,
            blocked: self.blocked@,
            boost_range: self.boost_range,
            swapped_shapes: self.swapped_shapes,
        }
    }
}

/// The shape of each base.
pub open spec fn layout_of(base: Base) -> BaseLayoutView {
    match base {
        Base::Base3 => BaseLayoutView {
            height: 5,
            width: 5,
            blocked: seq![(0usize, 1usize), (0, 3), (2, 2), (4, 0), (4, 4)],
            boost_range: 2,
            swapped_shapes: false,
        },
        Base::Base4 => BaseLayoutView {
            height: 5,
            width: 6,
            blocked: seq![(0usize, 4usize), (1, 0), (1, 5), (2, 1), (2, 4), (3, 0), (3, 5), (4, 1)],
            boost_range: 2,
            swapped_shapes: false,
        },
        Base::Base5 => BaseLayoutView {
            height: 5,
            width: 6,
            blocked: seq![(0usize, 3usize), (1, 3), (1, 4), (2, 2), (2, 3), (3, 1), (3, 2), (4, 2)],
            boost_range: 1,
            swapped_shapes: true,
        },
    }
}

impl Base {
    /// The shape of this base.
    pub fn layout(self) -> (r: BaseLayout)
        ensures
            r@ == layout_of(self),
    {
        match self {
            Base::Base3 => {
                let r = BaseLayout {
                    height: 5,
                    width: 5,
                    blocked: vec![(0, 1), (0, 3), (2, 2), (4, 0), (4, 4)],
                    boost_range: 2,
                    swapped_shapes: false,
                };
                assert(r@.blocked =~= layout_of(self).blocked);
                r
            },
            Base::Base4 => {
                let r = BaseLayout {
                    height: 5,
                    width: 6,
                    blocked: vec![(0, 4), (1, 0), (1, 5), (2, 1), (2, 4), (3, 0), (3, 5), (4, 1)],
                    boost_range: 2,
                    swapped_shapes: false,
                };
                assert(r@.blocked =~= layout_of(self).blocked);
                r
            },
            Base::Base5 => {
                let r = BaseLayout {
                    height: 5,
                    width: 6,
                    blocked: vec![(0, 3), (1, 3), (1, 4), (2, 2), (2, 3), (3, 1), (3, 2), (4, 2)],
                    boost_range: 1,
                    swapped_shapes: true,
                };
                assert(r@.blocked =~= layout_of(self).blocked);
                r
            },
        }
    }
}

/// The usable cells of columns `0..c` of row `r`, in column order.
pub open spec fn row_cells(blocked: Seq<(usize, usize)>, r: usize, c: int) -> Seq<(usize, usize)>
    decreases c,
{
    if c <= 0 {
        Seq::empty()
    } else if blocked.contains((r, (c - 1) as usize)) {
        row_cells(blocked, r, c - 1)
    } else {
        row_cells(blocked, r, c - 1).push((r, (c - 1) as usize))
    }
}

/// The usable cells of rows `0..r`, row by row.
pub open spec fn usable_cells(l: BaseLayoutView, r: int) -> Seq<(usize, usize)>
    decreases r,
{
    if r <= 0 {
        Seq::empty()
    } else {
        usable_cells(l, r - 1) + row_cells(l.blocked, (r - 1) as usize, l.width as int)
    }
}

/// `|x|`.
pub open spec fn abs(x: int) -> int {
    if x < 0 { -x } else { x }
}

/// Whether `q` lies along `p`'s row or column, at most `range` away.
pub open spec fn is_plus(p: (usize, usize), q: (usize, usize), range: int) -> bool {
    let dr = q.0 as int - p.0 as int;
    let dc = q.1 as int - p.1 as int;
    ((dr == 0) != (dc == 0)) && abs(dr) <= range && abs(dc) <= range
}

/// Whether `q` is a diagonal neighbour of `p`.
pub open spec fn is_x(p: (usize, usize), q: (usize, usize)) -> bool {
    let dr = q.0 as int - p.0 as int;
    let dc = q.1 as int - p.1 as int;
    abs(dr) == 1 && abs(dc) == 1
}

/// Whether a booster on `q` boosts the producer on `p`.
pub open spec fn boosts(l: BaseLayoutView, p: (usize, usize), q: (usize, usize)) -> bool {
    if l.swapped_shapes { is_x(p, q) } else { is_plus(p, q, l.boost_range as int) }
}

/// Whether a drain reducer on `q` reduces the drain of the producer on `p`.
pub open spec fn drains(l: BaseLayoutView, p: (usize, usize), q: (usize, usize)) -> bool {
    if l.swapped_shapes { is_plus(p, q, l.boost_range as int) } else { is_x(p, q) }
}

/// The indices `j < k` other than `i` whose cell boosts (`boost`) or drains cell `i`.
pub open spec fn related(l: BaseLayoutView, u: Seq<(usize, usize)>, i: int, k: int, boost: bool) -> Seq<usize>
    decreases k,
{
    if k <= 0 {
        Seq::empty()
    } else {
        let prev = related(l, u, i, k - 1, boost);
        if k - 1 != i && (if boost { boosts(l, u[i], u[k - 1]) } else { drains(l, u[i], u[k - 1]) }) {
            prev.push((k - 1) as usize)
        } else {
            prev
        }
    }
}

/// The tiles of a base: its usable cells (row by row), and for each the usable tiles whose
/// booster boosts it and whose drain reducer reduces its drain.
pub struct Board {
    pub base: Base,
    pub usable: Vec<(usize, usize)>,
    pub boost_adj: Vec<Vec<usize>>,
    pub drain_adj: Vec<Vec<usize>>,
}

/// `r` is the board of base `base`.
pub open spec fn is_board_of(r: Board, base: Base) -> bool {
    let l = layout_of(base);
    let u = usable_cells(l, l.height as int);
    &&& r.base == base
    &&& r.usable@ == u
    &&& r.boost_adj@.len() == u.len()
    &&& r.drain_adj@.len() == u.len()
    &&& forall|i: int| 0 <= i < u.len() ==> (#[trigger] r.boost_adj@[i])@ == related(l, u, i, u.len() as int, true)
    &&& forall|i: int| 0 <= i < u.len() ==> (#[trigger] r.drain_adj@[i])@ == related(l, u, i, u.len() as int, false)
}

fn blocked_has(blocked: &Vec<(usize, usize)>, cell: (usize, usize)) -> (r: bool)
    ensures
        r == blocked@.contains(cell),
{
    let mut i: usize = 0;
    while i < blocked.len()
        invariant
            i <= blocked.len(),
            forall|k: int| 0 <= k < i ==> blocked@[k] != cell,
        decreases blocked.len() - i,
    {
        if blocked[i].0 == cell.0 && blocked[i].1 == cell.1 {
            assert(blocked@[i as int] == cell);
            return true;
        }
        i = i + 1;
    }
    false
}

proof fn lemma_usable_small(l: BaseLayoutView, r: int)
    requires
        l.height <= 5,
        l.width <= 6,
        0 <= r <= l.height,
    ensures
        forall|k: int| 0 <= k < usable_cells(l, r).len() ==> (#[trigger] usable_cells(l, r)[k]).0 < 5
            && usable_cells(l, r)[k].1 < 6,
    decreases r,
{
    if r > 0 {
        lemma_usable_small(l, r - 1);
        lemma_row_small(l.blocked, (r - 1) as usize, l.width as int);
        let a = usable_cells(l, r - 1);
        let b = row_cells(l.blocked, (r - 1) as usize, l.width as int);
        assert forall|k: int| 0 <= k < (a + b).len() implies (#[trigger] (a + b)[k]).0 < 5 && (a + b)[k].1 < 6 by {
            if k >= a.len() {
                assert((a + b)[k] == b[k - a.len()]);
            }
        }
    }
}

proof fn lemma_row_small(blocked: Seq<(usize, usize)>, r: usize, c: int)
    requires
        r < 5,
        c <= 6,
    ensures
        forall|k: int| 0 <= k < row_cells(blocked, r, c).len() ==> (#[trigger] row_cells(blocked, r, c)[k]).0 == r
            && row_cells(blocked, r, c)[k].1 < 6,
    decreases c,
{
    if c > 0 {
        lemma_row_small(blocked, r, c - 1);
        let prev = row_cells(blocked, r, c - 1);
        let cell: (usize, usize) = (r, (c - 1) as usize);
        assert(cell.1 < 6);
        if !blocked.contains(cell) {
            assert forall|k: int| 0 <= k < prev.push(cell).len() implies (#[trigger] prev.push(cell)[k]).0 == r
                && prev.push(cell)[k].1 < 6 by {
                if k < prev.len() {
                    assert(prev.push(cell)[k] == prev[k]);
                }
            }
        }
    }
}

impl Board {
    /// The board of a base.
    pub fn new(base: Base) -> (r: Board)
        ensures
            is_board_of(r, base),
    {
        let layout = base.layout();
        let ghost l = layout_of(base);
        let h = layout.height;
        let w = layout.width;
        let mut usable: Vec<(usize, usize)> = Vec::new();
        let mut row: usize = 0;
        while row < h
            invariant
                layout@ == l,
                h == l.height,
                w == l.width,
                row <= h,
                usable@ == usable_cells(l, row as int),
            decreases h - row,
        {
            let ghost before = usable@;
            let mut c: usize = 0;
            while c < w
                invariant
                    layout@ == l,
                    h == l.height,
                    w == l.width,
                    row < h,
                    c <= w,
                    usable@ == before + row_cells(l.blocked, row, c as int),
                decreases w - c,
            {
                if !blocked_has(&layout.blocked, (row, c)) {
                    usable.push((row, c));
                    assert(usable@ =~= before + row_cells(l.blocked, row, c + 1));
                } else {
                    assert(row_cells(l.blocked, row, c + 1) == row_cells(l.blocked, row, c as int));
                }
                c = c + 1;
            }
            row = row + 1;
        }
        proof {
            lemma_usable_small(l, l.height as int);
        }
        let ghost u = usable@;
        let n = usable.len();
        let range = layout.boost_range as i64;
        let swapped = layout.swapped_shapes;
        let mut boost_adj: Vec<Vec<usize>> = Vec::new();
        let mut drain_adj: Vec<Vec<usize>> = Vec::new();
        let mut i: usize = 0;
        while i < n
            invariant
                layout@ == l,
                u == usable@,
                u == usable_cells(l, l.height as int),
                n == u.len(),
                range == l.boost_range as int,
                swapped == l.swapped_shapes,
                forall|k: int| 0 <= k < u.len() ==> (#[trigger] u[k]).0 < 5 && u[k].1 < 6,
                i <= n,
                boost_adj@.len() == i,
                drain_adj@.len() == i,
                forall|a: int| 0 <= a < i ==> (#[trigger] boost_adj@[a])@ == related(l, u, a, n as int, true),
                forall|a: int| 0 <= a < i ==> (#[trigger] drain_adj@[a])@ == related(l, u, a, n as int, false),
            decreases n - i,
        {
            let (ri, ci) = usable[i];
            let mut bl: Vec<usize> = Vec::new();
            let mut dl: Vec<usize> = Vec::new();
            let mut j: usize = 0;
            while j < n
                invariant
                    layout@ == l,
                    u == usable@,
                    n == u.len(),
                    range == l.boost_range as int,
                    swapped == l.swapped_shapes,
                    forall|k: int| 0 <= k < u.len() ==> (#[trigger] u[k]).0 < 5 && u[k].1 < 6,
                    i < n,
                    (ri, ci) == u[i as int],
                    j <= n,
                    bl@ == related(l, u, i as int, j as int, true),
                    dl@ == related(l, u, i as int, j as int, false),
                decreases n - j,
            {
                if i != j {
                    let (rj, cj) = usable[j];
                    assert((rj, cj) == u[j as int]);
                    let rd: i64 = rj as i64 - ri as i64;
                    let cd: i64 = cj as i64 - ci as i64;
                    let ard: i64 = if rd < 0 { -rd } else { rd };
                    let acd: i64 = if cd < 0 { -cd } else { cd };
                    let plus = ((rd == 0) != (cd == 0)) && ard <= range && acd <= range;
                    let x = ard == 1 && acd == 1;
                    assert(plus == is_plus(u[i as int], u[j as int], l.boost_range as int));
                    assert(x == is_x(u[i as int], u[j as int]));
                    if swapped {
                        if x {
                            bl.push(j);
                        }
                        if plus {
                            dl.push(j);
                        }
                    } else {
                        if plus {
                            bl.push(j);
                        }
                        if x {
                            dl.push(j);
                        }
                    }
                }
                j = j + 1;
            }
            boost_adj.push(bl);
            drain_adj.push(dl);
            i = i + 1;
        }
        Board { base, usable, boost_adj, drain_adj }
    }

    /// The number of usable tiles.
    pub fn n(&self) -> (r: usize)
        ensures
            r == self.usable@.len(),
    {
        self.usable.len()
    }
}

/// The tile standing on cell `(r, c)` of a layout: the tile of that usable cell, or empty.
pub open spec fn tile_at(usable: Seq<(usize, usize)>, tiles: Seq<Tile>, r: usize, c: usize) -> Tile
    decreases usable.len(),
{
    if usable.len() == 0 {
        Tile::Empty
    } else if usable.last() == (r, c) {
        tiles[usable.len() - 1]
    } else {
        tile_at(usable.drop_last(), tiles, r, c)
    }
}

/// The drawing of the first `c` cells of row `r`.
pub open spec fn layout_row_text(usable: Seq<(usize, usize)>, tiles: Seq<Tile>, r: usize, c: int) -> Seq<char>
    decreases c,
{
    if c <= 0 {
        Seq::empty()
    } else {
        layout_row_text(usable, tiles, r, c - 1) + symbol_of(tile_at(usable, tiles, r, (c - 1) as usize))
    }
}

fn tile_at_exec(usable: &Vec<(usize, usize)>, tiles: &Vec<Tile>, r: usize, c: usize) -> (t: Tile)
    requires
        tiles@.len() >= usable@.len(),
    ensures
        t == tile_at(usable@, tiles@, r, c),
{
    let mut k: usize = usable.len();
    while k > 0
        invariant
            k <= usable.len(),
            tiles@.len() >= usable@.len(),
            tile_at(usable@, tiles@, r, c) == tile_at(usable@.take(k as int), tiles@, r, c),
        decreases k,
    {
        let p = usable[k - 1];
        assert(usable@.take(k as int).last() == p);
        assert(usable@.take(k as int).drop_last() =~= usable@.take(k - 1));
        if p.0 == r && p.1 == c {
            return tiles[k - 1];
        }
        k = k - 1;
    }
    Tile::Empty
}

/// The drawing of a layout of tiles on a board, one text per row. Where two usable entries name
/// the same cell, the later one is drawn.
pub fn layout_rows(board: &Board, tiles: &Vec<Tile>) -> (r: Vec<String>)
    requires
        tiles@.len() >= board.usable@.len(),
    ensures
        r@.len() == layout_of(board.base).height,
        forall|i: int| 0 <= i < r@.len() ==> (#[trigger] r@[i])@ == layout_row_text(
            board.usable@,
            tiles@,
            i as usize,
            layout_of(board.base).width as int,
        ),
{
    let layout = board.base.layout();
    let mut out: Vec<String> = Vec::new();
    let mut row: usize = 0;
    while row < layout.height
        invariant
            layout@ == layout_of(board.base),
            tiles@.len() >= board.usable@.len(),
            row <= layout.height,
            out@.len() == row,
            forall|i: int| 0 <= i < row ==> (#[trigger] out@[i])@ == layout_row_text(
                board.usable@,
                tiles@,
                i as usize,
                layout.width as int,
            ),
        decreases layout.height - row,
    {
        let mut line = String::new();
        let mut c: usize = 0;
        while c < layout.width
            invariant
                tiles@.len() >= board.usable@.len(),
                c <= layout.width,
                line@ == layout_row_text(board.usable@, tiles@, row, c as int),
            decreases layout.width - c,
        {
            let t = tile_at_exec(&board.usable, tiles, row, c);
            push_str(&mut line, t.symbol());
            c = c + 1;
        }
        out.push(line);
        row = row + 1;
    }
    out
}

/// The indices of the tiles among the first `k` that are boosters, in increasing order.
pub open spec fn booster_slots_of(tiles: Seq<Tile>, k: int) -> Seq<usize>
    decreases k,
{
    if k <= 0 {
        Seq::empty()
    } else if tiles[k - 1] == Tile::Booster {
        booster_slots_of(tiles, k - 1).push((k - 1) as usize)
    } else {
        booster_slots_of(tiles, k - 1)
    }
}

/// The indices of the booster tiles, in increasing order: the tiles left free once the producers
/// are placed.
pub fn booster_slots(tiles: &Vec<Tile>) -> (r: Vec<usize>)
    ensures
        r@ == booster_slots_of(tiles@, tiles@.len() as int),
{
    let mut r: Vec<usize> = Vec::new();
    let mut i: usize = 0;
    while i < tiles.len()
        invariant
            i <= tiles@.len(),
            r@ == booster_slots_of(tiles@, i as int),
        decreases tiles@.len() - i,
    {
        if tiles[i] == Tile::Booster {
            r.push(i);
        }
        i = i + 1;
    }
    r
}

/// Bit `b` of `mask` is set.
pub open spec fn bit_set(mask: u64, b: u64) -> bool {
    (mask >> b) & 1u64 == 1u64
}

/// The tile that bit `b` of `mask` puts on its slot: a drain reducer where the bit is set, a
/// booster where it is clear.
pub open spec fn mask_tile(mask: u64, b: u64) -> Tile {
    if bit_set(mask, b) { Tile::DrainReduce } else { Tile::Booster }
}

/// The tiles after the slots `slots[0..b]` have been given, in order, the tiles of their bits of
/// `mask`.
pub open spec fn masked(tiles: Seq<Tile>, slots: Seq<usize>, mask: u64, b: int) -> Seq<Tile>
    decreases b,
{
    if b <= 0 {
        tiles
    } else {
        masked(tiles, slots, mask, b - 1).update(slots[b - 1] as int, mask_tile(mask, (b - 1) as u64))
    }
}

proof fn lemma_masked_len(tiles: Seq<Tile>, slots: Seq<usize>, mask: u64, b: int)
    requires
        0 <= b <= slots.len(),
        forall|i: int| 0 <= i < slots.len() ==> (#[trigger] slots[i]) < tiles.len(),
    ensures
        masked(tiles, slots, mask, b).len() == tiles.len(),
    decreases b,
{
    if b > 0 {
        lemma_masked_len(tiles, slots, mask, b - 1);
    }
}

proof fn lemma_masked_at(tiles: Seq<Tile>, slots: Seq<usize>, mask: u64, b: int, j: int)
    requires
        0 <= b <= slots.len(),
        forall|i: int| 0 <= i < slots.len() ==> (#[trigger] slots[i]) < tiles.len(),
        forall|x: int, y: int| 0 <= x < y < slots.len() ==> slots[x] != slots[y],
        0 <= j < tiles.len(),
    ensures
        masked(tiles, slots, mask, b)[j] == (if exists|x: int| 0 <= x < b && slots[x] == j {
            mask_tile(mask, (choose|x: int| 0 <= x < b && slots[x] == j) as u64)
        } else {
            tiles[j]
        }),
    decreases b,
{
    if b > 0 {
        lemma_masked_at(tiles, slots, mask, b - 1, j);
        lemma_masked_len(tiles, slots, mask, b - 1);
        if slots[b - 1] == j {
            assert(exists|x: int| 0 <= x < b && slots[x] == j);
            let x = choose|x: int| 0 <= x < b && slots[x] == j;
            assert(x == b - 1);
            assert(!exists|y: int| 0 <= y < b - 1 && slots[y] == j);
        } else {
            if exists|x: int| 0 <= x < b && slots[x] == j {
                let x = choose|x: int| 0 <= x < b && slots[x] == j;
                assert(0 <= x < b - 1 && slots[x] == j);
            }
        }
    }
}

/// Gives each slot `slots[b]` the tile of bit `b` of `mask`: a drain reducer where the bit is
/// set, a booster where it is clear. Where the slots are distinct, a slot gets exactly the tile
/// of its own bit and every other tile stays.
pub fn assign_mask(tiles: &mut Vec<Tile>, slots: &Vec<usize>, mask: u64)
    requires
        slots@.len() <= 64,
        forall|i: int| 0 <= i < slots@.len() ==> (#[trigger] slots@[i]) < old(tiles)@.len(),
    ensures
        final(tiles)@ == masked(old(tiles)@, slots@, mask, slots@.len() as int),
        final(tiles)@.len() == old(tiles)@.len(),
        (forall|x: int, y: int| 0 <= x < y < slots@.len() ==> slots@[x] != slots@[y]) ==> {
            &&& forall|b: int| 0 <= b < slots@.len() ==> final(tiles)@[#[trigger] slots@[b] as int]
                == mask_tile(mask, b as u64)
            &&& forall|j: int|
                0 <= j < old(tiles)@.len() && !slots@.contains(j as usize) ==> final(tiles)@[j]
                    == old(tiles)@[j]
        },
{
    let ghost t0 = tiles@;
    let mut bit: usize = 0;
    while bit < slots.len()
        invariant
            slots@.len() <= 64,
            forall|i: int| 0 <= i < slots@.len() ==> (#[trigger] slots@[i]) < t0.len(),
            bit <= slots@.len(),
            tiles@ == masked(t0, slots@, mask, bit as int),
            tiles@.len() == t0.len(),
        decreases slots@.len() - bit,
    {
        let b: u64 = bit as u64;
        let on = mask & (1u64 << b) != 0;
        proof {
            assert(on == bit_set(mask, b)) by (bit_vector)
                requires
                    b < 64,
                    on == (mask & (1u64 << b) != 0),
            ;
        }
        let idx = slots[bit];
        if on {
            tiles.set(idx, Tile::DrainReduce);
        } else {
            tiles.set(idx, Tile::Booster);
        }
        bit = bit + 1;
    }
    proof {
        if forall|x: int, y: int| 0 <= x < y < slots@.len() ==> slots@[x] != slots@[y] {
            assert forall|b: int| 0 <= b < slots@.len() implies tiles@[#[trigger] slots@[b] as int]
                == mask_tile(mask, b as u64) by {
                lemma_masked_at(t0, slots@, mask, slots@.len() as int, slots@[b] as int);
                let x = choose|x: int| 0 <= x < slots@.len() && slots@[x] == slots@[b] as int;
                assert(x == b);
            }
            assert forall|j: int| 0 <= j < t0.len() && !slots@.contains(j as usize) implies tiles@[j]
                == t0[j] by {
                lemma_masked_at(t0, slots@, mask, slots@.len() as int, j);
                if exists|x: int| 0 <= x < slots@.len() && slots@[x] == j {
                    let x = choose|x: int| 0 <= x < slots@.len() && slots@[x] == j;
                    assert(slots@.contains(slots@[x]));
                }
            }
        }
    }
}

/// The number of the tiles at the indices `adj[0..k]` that are `kind`.
pub open spec fn count_kind(tiles: Seq<Tile>, adj: Seq<usize>, kind: Tile, k: int) -> nat
    decreases k,
{
    if k <= 0 {
        0
    } else {
        count_kind(tiles, adj, kind, k - 1) + (if tiles[adj[k - 1] as int] == kind { 1nat } else { 0 })
    }
}

/// How many of the tiles at the indices `adj` are `kind`: how many boosters boost a producer, or
/// how many drain reducers reduce its drain.
pub fn neighbour_count(tiles: &Vec<Tile>, adj: &Vec<usize>, kind: Tile) -> (r: usize)
    requires
        forall|i: int| 0 <= i < adj@.len() ==> (#[trigger] adj@[i]) < tiles@.len(),
    ensures
        r == count_kind(tiles@, adj@, kind, adj@.len() as int),
{
    let mut r: usize = 0;
    let mut i: usize = 0;
    while i < adj.len()
        invariant
            forall|i: int| 0 <= i < adj@.len() ==> (#[trigger] adj@[i]) < tiles@.len(),
            i <= adj@.len(),
            r == count_kind(tiles@, adj@, kind, i as int),
            r <= i,
        decreases adj@.len() - i,
    {
        if tiles[adj[i]] == kind {
            r = r + 1;
        }
        i = i + 1;
    }
    r
}

/// Puts `tile` on each of the indices `positions`; every other tile stays.
pub fn place_tiles(tiles: &mut Vec<Tile>, positions: &Vec<usize>, tile: Tile)
    requires
        forall|i: int| 0 <= i < positions@.len() ==> (#[trigger] positions@[i]) < old(tiles)@.len(),
    ensures
        final(tiles)@.len() == old(tiles)@.len(),
        forall|j: int| 0 <= j < old(tiles)@.len() ==> final(tiles)@[j] == (if positions@.contains(
            j as usize,
        ) {
            tile
        } else {
            old(tiles)@[j]
        }),
{
    let ghost t0 = tiles@;
    let len0 = tiles.len();
    let mut i: usize = 0;
    while i < positions.len()
        invariant
            forall|i: int| 0 <= i < positions@.len() ==> (#[trigger] positions@[i]) < t0.len(),
            i <= positions@.len(),
            tiles@.len() == t0.len(),
            t0.len() == len0,
            forall|j: int| 0 <= j < t0.len() ==> tiles@[j] == (if positions@.take(i as int).contains(
                j as usize,
            ) {
                tile
            } else {
                t0[j]
            }),
        decreases positions@.len() - i,
    {
        let p = positions[i];
        tiles.set(p, tile);
        proof {
            assert forall|j: int| 0 <= j < t0.len() implies tiles@[j] == (if positions@.take(
                i + 1,
            ).contains(j as usize) {
                tile
            } else {
                t0[j]
            }) by {
                let a = positions@.take(i as int);
                let b = positions@.take(i + 1);
                assert(b =~= a.push(p));
                if j == p as int {
                    assert(b[i as int] == j as usize);
                } else {
                    if a.contains(j as usize) {
                        let w = choose|w: int| 0 <= w < a.len() && a[w] == j as usize;
                        assert(b[w] == j as usize);
                    }
                    if b.contains(j as usize) {
                        let w = choose|w: int| 0 <= w < b.len() && b[w] == j as usize;
                        assert((j as usize) as int == j);
                        assert(b[i as int] == p);
                        assert(w != i);
                        assert(a[w] == j as usize);
                    }
                }
            }
        }
        i = i + 1;
    }
    assert(positions@.take(positions@.len() as int) =~= positions@);
}

proof fn lemma_booster_slots(tiles: Seq<Tile>, k: int)
    requires
        0 <= k <= tiles.len(),
        tiles.len() <= usize::MAX,
    ensures
        forall|i: int| 0 <= i < booster_slots_of(tiles, k).len() ==> (#[trigger] booster_slots_of(tiles, k)[i]) < k
            && tiles[booster_slots_of(tiles, k)[i] as int] == Tile::Booster,
        forall|x: int, y: int| 0 <= x < y < booster_slots_of(tiles, k).len() ==> booster_slots_of(tiles, k)[x]
            < booster_slots_of(tiles, k)[y],
    decreases k,
{
    if k > 0 {
        lemma_booster_slots(tiles, k - 1);
    }
}

/// The booster slots are increasing indices of boosters, and giving them any mask and then the
/// empty mask (as the booster/drain enumeration does when it is done) leaves the tiles as they
/// were.
pub proof fn law_mask_restores(tiles: Seq<Tile>, mask: u64)
    requires
        tiles.len() <= usize::MAX,
        booster_slots_of(tiles, tiles.len() as int).len() <= 64,
    ensures
        ({
            let slots = booster_slots_of(tiles, tiles.len() as int);
            &&& forall|x: int, y: int| 0 <= x < y < slots.len() ==> slots[x] < slots[y]
            &&& forall|i: int| 0 <= i < slots.len() ==> tiles[#[trigger] slots[i] as int] == Tile::Booster
            &&& masked(masked(tiles, slots, mask, slots.len() as int), slots, 0, slots.len() as int)
                == tiles
        }),
{
    let slots = booster_slots_of(tiles, tiles.len() as int);
    lemma_booster_slots(tiles, tiles.len() as int);
    let r = slots.len() as int;
    let once = masked(tiles, slots, mask, r);
    lemma_masked_len(tiles, slots, mask, r);
    lemma_masked_len(once, slots, 0, r);
    let twice = masked(once, slots, 0, r);
    assert forall|j: int| 0 <= j < tiles.len() implies twice[j] == tiles[j] by {
        lemma_masked_at(once, slots, 0, r, j);
        if exists|x: int| 0 <= x < r && slots[x] == j {
            let x = choose|x: int| 0 <= x < r && slots[x] == j;
            let b = x as u64;
            assert((0u64 >> b) & 1u64 == 0u64) by (bit_vector);
        } else {
            lemma_masked_at(tiles, slots, mask, r, j);
        }
    }
    assert(twice =~= tiles);
}

proof fn lemma_related(l: BaseLayoutView, u: Seq<(usize, usize)>, i: int, k: int, boost: bool)
    requires
        0 <= k <= u.len() <= usize::MAX,
    ensures
        forall|x: int| 0 <= x < related(l, u, i, k, boost).len() ==> (#[trigger] related(l, u, i, k, boost)[x]) < k
            && related(l, u, i, k, boost)[x] != i,
        forall|x: int, y: int| 0 <= x < y < related(l, u, i, k, boost).len() ==> related(l, u, i, k, boost)[x]
            < related(l, u, i, k, boost)[y],
    decreases k,
{
    if k > 0 {
        lemma_related(l, u, i, k - 1, boost);
        let prev = related(l, u, i, k - 1, boost);
        let cond = k - 1 != i && (if boost { boosts(l, u[i], u[k - 1]) } else { drains(l, u[i], u[k - 1]) });
        if cond {
            let cur = prev.push((k - 1) as usize);
            assert(related(l, u, i, k, boost) == cur);
            assert forall|x: int| 0 <= x < cur.len() implies (#[trigger] cur[x]) < k && cur[x] != i by {
                if x < prev.len() {
                    assert(cur[x] == prev[x]);
                }
            }
            assert forall|x: int, y: int| 0 <= x < y < cur.len() implies cur[x] < cur[y] by {
                assert(cur[x] == prev[x]);
                if y < prev.len() {
                    assert(cur[y] == prev[y]);
                }
            }
        } else {
            assert(related(l, u, i, k, boost) == prev);
        }
    }
}

/// The tiles that boost or drain a tile are other tiles of the board, each listed once, in
/// increasing order.
pub proof fn law_board_adjacency(r: Board, base: Base)
    requires
        is_board_of(r, base),
        r.usable@.len() <= usize::MAX,
    ensures
        forall|i: int, x: int| 0 <= i < r.usable@.len() && 0 <= x < r.boost_adj@[i]@.len() ==> (#[trigger] r.boost_adj@[i]@[x])
            < r.usable@.len() && r.boost_adj@[i]@[x] != i,
        forall|i: int, x: int| 0 <= i < r.usable@.len() && 0 <= x < r.drain_adj@[i]@.len() ==> (#[trigger] r.drain_adj@[i]@[x])
            < r.usable@.len() && r.drain_adj@[i]@[x] != i,
        forall|i: int, x: int, y: int| 0 <= i < r.usable@.len() && 0 <= x < y < r.boost_adj@[i]@.len() ==> r.boost_adj@[i]@[x]
            < r.boost_adj@[i]@[y],
        forall|i: int, x: int, y: int| 0 <= i < r.usable@.len() && 0 <= x < y < r.drain_adj@[i]@.len() ==> r.drain_adj@[i]@[x]
            < r.drain_adj@[i]@[y],
{
    let l = layout_of(base);
    let u = r.usable@;
    assert forall|i: int, x: int| 0 <= i < u.len() && 0 <= x < r.boost_adj@[i]@.len() implies (#[trigger] r.boost_adj@[i]@[x])
        < u.len() && r.boost_adj@[i]@[x] != i by {
        lemma_related(l, u, i, u.len() as int, true);
    }
    assert forall|i: int, x: int| 0 <= i < u.len() && 0 <= x < r.drain_adj@[i]@.len() implies (#[trigger] r.drain_adj@[i]@[x])
        < u.len() && r.drain_adj@[i]@[x] != i by {
        lemma_related(l, u, i, u.len() as int, false);
    }
    assert forall|i: int, x: int, y: int| 0 <= i < u.len() && 0 <= x < y < r.boost_adj@[i]@.len() implies r.boost_adj@[i]@[x]
        < r.boost_adj@[i]@[y] by {
        lemma_related(l, u, i, u.len() as int, true);
    }
    assert forall|i: int, x: int, y: int| 0 <= i < u.len() && 0 <= x < y < r.drain_adj@[i]@.len() implies r.drain_adj@[i]@[x]
        < r.drain_adj@[i]@[y] by {
        lemma_related(l, u, i, u.len() as int, false);
    }
}

} // verus!
