//! The boost map search of the base layout tool: the map of usable cells, which cells each cell
//! boosts, and the drawing of a chosen set of cells.
use vstd::prelude::*;
use crate::text::push_str;

verus! {

/// Columns of the map.
pub const W: usize = 6;
/// Rows of the map.
pub const H: usize = 5;

/// Whether cell `(i, j)` of the map is blocked.
pub open spec fn blocked_cell(i: int, j: int) -> bool {
    (i == 0 && j == 4) || (i == 1 && j == 0) || (i == 1 && j == 5) || (i == 2 && j == 1)
        || (i == 2 && j == 4) || (i == 3 && j == 0) || (i == 3 && j == 5) || (i == 4 && j == 1)
}

/// The map: `1` for a usable cell, `0` for a blocked one.
pub open spec fn map_cell(i: int, j: int) -> i32 {
    if blocked_cell(i, j) { 0 } else { 1 }
}

/// The map of usable (`1`) and blocked (`0`) cells.
pub fn blank_map() -> (r: [[i32; 6]; 5])
    ensures
        forall|i: int, j: int| 0 <= i < 5 && 0 <= j < 6 ==> #[trigger] r[i][j] == map_cell(i, j),
{
    let mut r = [[1i32; 6]; 5];
    let mut row = r[0];
    row[4] = 0;
    r[0] = row;
    let mut row = r[1];
    row[0] = 0;
    row[5] = 0;
    r[1] = row;
    let mut row = r[2];
    row[1] = 0;
    row[4] = 0;
    r[2] = row;
    let mut row = r[3];
    row[0] = 0;
    row[5] = 0;
    r[3] = row;
    let mut row = r[4];
    row[1] = 0;
    r[4] = row;
    r
}

/// The offsets a cell reaches, in the order they are tried: two steps along a row or column
/// in either direction (never both at once, never none).
pub open spec fn reach_offsets() -> Seq<(int, int)> {
    seq![(-2int, 0int), (-1, 0), (0, -2), (0, -1), (0, 1), (0, 2), (1, 0), (2, 0)]
}

/// Whether `(a, b)` is a usable cell of the map.
pub open spec fn usable_at(map: [[i32; 6]; 5], a: int, b: int) -> bool {
    0 <= a < 5 && 0 <= b < 6 && map[a][b] == 1
}

/// The usable cells that cell `(i, j)` reaches through the first `k` offsets, in order.
pub open spec fn reached(map: [[i32; 6]; 5], i: int, j: int, k: int) -> Seq<(i32, i32)>
    decreases k,
{
    if k <= 0 {
        Seq::empty()
    } else {
        let o = reach_offsets()[k - 1];
        if usable_at(map, i + o.0, j + o.1) {
            reached(map, i, j, k - 1).push(((i + o.0) as i32, (j + o.1) as i32))
        } else {
            reached(map, i, j, k - 1)
        }
    }
}

/// For each cell `(i, j)`, the usable cells it reaches: `r[i][j]`.
pub fn relations(map: &[[i32; 6]; 5]) -> (r: Vec<Vec<Vec<(i32, i32)>>>)
    ensures
        r@.len() == 5,
        forall|i: int| 0 <= i < 5 ==> (#[trigger] r@[i])@.len() == 6,
        forall|i: int, j: int| 0 <= i < 5 && 0 <= j < 6 ==> (#[trigger] r@[i]@[j])@ == reached(*map, i, j, 8),
{
    let offs: [(i32, i32); 8] = [(-2, 0), (-1, 0), (0, -2), (0, -1), (0, 1), (0, 2), (1, 0), (2, 0)];
    assert forall|k: int| 0 <= k < 8 implies (offs@[k].0 as int, offs@[k].1 as int) == reach_offsets()[k] by {}
    let mut r: Vec<Vec<Vec<(i32, i32)>>> = Vec::new();
    let mut i: usize = 0;
    while i < 5
        invariant
            i <= 5,
            forall|k: int| 0 <= k < 8 ==> (offs@[k].0 as int, offs@[k].1 as int) == reach_offsets()[k],
            r@.len() == i,
            forall|a: int| 0 <= a < i ==> (#[trigger] r@[a])@.len() == 6,
            forall|a: int, b: int| 0 <= a < i && 0 <= b < 6 ==> (#[trigger] r@[a]@[b])@ == reached(*map, a, b, 8),
        decreases 5 - i,
    {
        let mut row: Vec<Vec<(i32, i32)>> = Vec::new();
        let mut j: usize = 0;
        while j < 6
            invariant
                i < 5,
                j <= 6,
                forall|k: int| 0 <= k < 8 ==> (offs@[k].0 as int, offs@[k].1 as int) == reach_offsets()[k],
                row@.len() == j,
                forall|b: int| 0 <= b < j ==> (#[trigger] row@[b])@ == reached(*map, i as int, b, 8),
            decreases 6 - j,
        {
            let mut cell: Vec<(i32, i32)> = Vec::new();
            let mut k: usize = 0;
            while k < 8
                invariant
                    i < 5,
                    j < 6,
                    k <= 8,
                    forall|x: int| 0 <= x < 8 ==> (offs@[x].0 as int, offs@[x].1 as int) == reach_offsets()[x],
                    cell@ == reached(*map, i as int, j as int, k as int),
                decreases 8 - k,
            {
                let (dk, dl) = offs[k];
                assert((dk as int, dl as int) == reach_offsets()[k as int]);
                let a: i32 = i as i32 + dk;
                let b: i32 = j as i32 + dl;
                if 0 <= a && a < 5 && 0 <= b && b < 6 && map[a as usize][b as usize] == 1 {
                    cell.push((a, b));
                }
                k = k + 1;
            }
            row.push(cell);
            j = j + 1;
        }
        r.push(row);
        i = i + 1;
    }
    r
}

/// Whether cell `(i, j)` is among the chosen cells.
pub open spec fn chosen(state: Seq<(i32, i32)>, i: int, j: int) -> bool {
    state.contains((i as i32, j as i32))
}

/// How cell `(i, j)` is drawn: ` ! ` when chosen, blank when blocked, ` . ` otherwise.
pub open spec fn cell_drawing(state: Seq<(i32, i32)>, i: int, j: int) -> Seq<char> {
    if chosen(state, i, j) { " ! "@ } else if blocked_cell(i, j) { "   "@ } else { " . "@ }
}

/// The drawing of the first `j` cells of row `i`.
pub open spec fn row_drawing(state: Seq<(i32, i32)>, i: int, j: int) -> Seq<char>
    decreases j,
{
    if j <= 0 {
        Seq::empty()
    } else {
        row_drawing(state, i, j - 1) + cell_drawing(state, i, j - 1)
    }
}

/// The drawing of the map with the chosen cells marked, one text per row.
pub fn board_rows(state: &Vec<(i32, i32)>) -> (r: Vec<String>)
    requires
        forall|k: int| 0 <= k < state@.len() ==> 0 <= (#[trigger] state@[k]).0 < 5 && 0 <= state@[k].1 < 6,
    ensures
        r@.len() == 5,
        forall|i: int| 0 <= i < 5 ==> (#[trigger] r@[i])@ == row_drawing(state@, i, 6),
{
    let mut m = blank_map();
    let mut k: usize = 0;
    while k < state.len()
        invariant
            k <= state.len(),
            forall|x: int| 0 <= x < state@.len() ==> 0 <= (#[trigger] state@[x]).0 < 5 && 0 <= state@[x].1 < 6,
            forall|i: int, j: int| 0 <= i < 5 && 0 <= j < 6 ==> #[trigger] m[i][j] == if state@.take(k as int).contains((i as i32, j as i32)) {
                2
            } else {
                map_cell(i, j)
            },
        decreases state.len() - k,
    {
        let (a, b) = state[k];
        let mut row = m[a as usize];
        row[b as usize] = 2;
        m[a as usize] = row;
        assert forall|i: int, j: int| 0 <= i < 5 && 0 <= j < 6 implies #[trigger] m[i][j] == if state@.take(k + 1).contains((i as i32, j as i32)) {
            2
        } else {
            map_cell(i, j)
        } by {
            let t = state@.take(k + 1);
            assert(t.last() == (a, b));
            if t.contains((i as i32, j as i32)) && !state@.take(k as int).contains((i as i32, j as i32)) {
                let x = choose|x: int| 0 <= x < t.len() && t[x] == (i as i32, j as i32);
                if x < k {
                    assert(state@.take(k as int)[x] == (i as i32, j as i32));
                }
            }
            if state@.take(k as int).contains((i as i32, j as i32)) {
                let x = choose|x: int| 0 <= x < k && state@.take(k as int)[x] == (i as i32, j as i32);
                assert(t[x] == (i as i32, j as i32));
            }
        }
        k = k + 1;
    }
    assert(state@.take(state.len() as int) =~= state@);
    let mut out: Vec<String> = Vec::new();
    let mut i: usize = 0;
    while i < 5
        invariant
            i <= 5,
            out@.len() == i,
            forall|a: int| 0 <= a < i ==> (#[trigger] out@[a])@ == row_drawing(state@, a, 6),
            forall|a: int, b: int| 0 <= a < 5 && 0 <= b < 6 ==> #[trigger] m[a][b] == if state@.contains((a as i32, b as i32)) {
                2
            } else {
                map_cell(a, b)
            },
        decreases 5 - i,
    {
        let mut line = String::new();
        let mut j: usize = 0;
        while j < 6
            invariant
                i < 5,
                j <= 6,
                line@ == row_drawing(state@, i as int, j as int),
                forall|a: int, b: int| 0 <= a < 5 && 0 <= b < 6 ==> #[trigger] m[a][b] == if state@.contains((a as i32, b as i32)) {
                    2
                } else {
                    map_cell(a, b)
                },
            decreases 6 - j,
        {
            let v = m[i][j];
            assert(v == m[i as int][j as int]);
            if v == 0 {
                push_str(&mut line, "   ");
            } else if v == 1 {
                push_str(&mut line, " . ");
            } else {
                push_str(&mut line, " ! ");
            }
            j = j + 1;
        }
        out.push(line);
        i = i + 1;
    }
    out
}

/// The tile counts of a parts search: material tiles and parts tiles.
pub struct PartSearchParams {
    pub mat_tiles: usize,
    pub parts_tiles: usize,
}

/// The tile counts of a components search: material, parts and component tiles.
pub struct ComponentSearchParams {
    pub mat_tiles: usize,
    pub parts_tiles: usize,
    pub component_tiles: usize,
}

impl From<(usize, usize)> for PartSearchParams {
    fn from(p: (usize, usize)) -> (r: Self) {
        PartSearchParams { mat_tiles: p.0, parts_tiles: p.1 }
    }
}

impl vstd::std_specs::convert::FromSpecImpl<(usize, usize)> for PartSearchParams {
    open spec fn obeys_from_spec() -> bool {
        true
    }

    open spec fn from_spec(p: (usize, usize)) -> Self {
        PartSearchParams { mat_tiles: p.0, parts_tiles: p.1 }
    }
}

impl From<(usize, usize, usize)> for ComponentSearchParams {
    fn from(p: (usize, usize, usize)) -> (r: Self) {
        ComponentSearchParams { mat_tiles: p.0, parts_tiles: p.1, component_tiles: p.2 }
    }
}

impl vstd::std_specs::convert::FromSpecImpl<(usize, usize, usize)> for ComponentSearchParams {
    open spec fn obeys_from_spec() -> bool {
        true
    }

    open spec fn from_spec(p: (usize, usize, usize)) -> Self {
        ComponentSearchParams { mat_tiles: p.0, parts_tiles: p.1, component_tiles: p.2 }
    }
}

/// The first usable cell after position `p` in row-major order (position `6 * i + j` for cell
/// `(i, j)`), if any.
pub open spec fn next_usable(map: [[i32; 6]; 5], p: int) -> Option<int>
    decreases 30 - p,
{
    if p + 1 >= 30 || p + 1 < 0 {
        None
    } else if map[(p + 1) / 6][(p + 1) % 6] == 1 {
        Some(p + 1)
    } else {
        next_usable(map, p + 1)
    }
}

/// The usable cell that follows `(i, j)` in row-major order, the next cell the search adds
/// after `(i, j)`; `None` past the last row.
pub fn next_cell(map: &[[i32; 6]; 5], i: i32, j: i32) -> (r: Option<(i32, i32)>)
    requires
        0 <= i < 5,
        0 <= j < 6,
    ensures
        r == (match next_usable(*map, 6 * i + j) {
            Some(q) => Some(((q / 6) as i32, (q % 6) as i32)),
            None => None,
        }),
{
    let mut a: i32 = i;
    let mut b: i32 = j;
    loop
        invariant
            0 <= a < 5,
            0 <= b < 6,
            next_usable(*map, 6 * i + j) == next_usable(*map, 6 * a + b),
        decreases 30 - (6 * a + b),
    {
        b = b + 1;
        if b == 6 {
            a = a + 1;
            b = 0;
        }
        if a < 5 {
            assert((6 * a + b) / 6 == a && (6 * a + b) % 6 == b);
            if map[a as usize][b as usize] == 1 {
                return Some((a, b));
            }
        } else {
            return None;
        }
    }
}

/// How often `c` occurs in `list`.
pub open spec fn occurrences(list: Seq<(i32, i32)>, c: (i32, i32)) -> nat
    decreases list.len(),
{
    if list.len() == 0 {
        0
    } else {
        occurrences(list.drop_last(), c) + (if list.last() == c { 1nat } else { 0 })
    }
}

/// The cells that cell `p` reaches.
pub open spec fn rel_at(rel: Seq<Vec<Vec<(i32, i32)>>>, p: (i32, i32)) -> Seq<(i32, i32)> {
    rel[p.0 as int]@[p.1 as int]@
}

/// How many times the first `x` chosen cells reach cell `c`: how often its score is multiplied.
pub open spec fn boost_count(rel: Seq<Vec<Vec<(i32, i32)>>>, state: Seq<(i32, i32)>, c: (i32, i32), x: int) -> nat
    decreases x,
{
    if x <= 0 {
        0
    } else {
        boost_count(rel, state, c, x - 1) + occurrences(rel_at(rel, state[x - 1]), c)
    }
}

/// How many cells the first `x` chosen cells reach in all, counting each reach.
pub open spec fn reach_total(rel: Seq<Vec<Vec<(i32, i32)>>>, state: Seq<(i32, i32)>, x: int) -> nat
    decreases x,
{
    if x <= 0 {
        0
    } else {
        reach_total(rel, state, x - 1) + rel_at(rel, state[x - 1]).len()
    }
}

proof fn lemma_reach_total_mono(rel: Seq<Vec<Vec<(i32, i32)>>>, state: Seq<(i32, i32)>, a: int, b: int)
    requires
        0 <= a <= b,
    ensures
        reach_total(rel, state, a) <= reach_total(rel, state, b),
    decreases b - a,
{
    if a < b {
        lemma_reach_total_mono(rel, state, a, b - 1);
    }
}

/// The score a cell starts from: nothing on a chosen cell, its map value elsewhere.
pub open spec fn cell_base(map: [[i32; 6]; 5], state: Seq<(i32, i32)>, i: int, j: int) -> i32 {
    if chosen(state, i, j) { 0 } else { map[i][j] }
}

fn has_cell(state: &Vec<(i32, i32)>, c: (i32, i32)) -> (r: bool)
    ensures
        r == state@.contains(c),
{
    let mut k: usize = 0;
    while k < state.len()
        invariant
            k <= state@.len(),
            forall|x: int| 0 <= x < k ==> state@[x] != c,
        decreases state@.len() - k,
    {
        if state[k].0 == c.0 && state[k].1 == c.1 {
            assert(state@[k as int] == c);
            return true;
        }
        k = k + 1;
    }
    false
}

fn count_reaches(rel: &Vec<Vec<Vec<(i32, i32)>>>, state: &Vec<(i32, i32)>, c: (i32, i32)) -> (r: usize)
    requires
        rel@.len() == 5,
        forall|i: int| 0 <= i < 5 ==> (#[trigger] rel@[i])@.len() == 6,
        forall|k: int| 0 <= k < state@.len() ==> 0 <= (#[trigger] state@[k]).0 < 5 && 0 <= state@[k].1 < 6,
        reach_total(rel@, state@, state@.len() as int) <= usize::MAX,
    ensures
        r == boost_count(rel@, state@, c, state@.len() as int),
{
    let mut cnt: usize = 0;
    let mut x: usize = 0;
    while x < state.len()
        invariant
            rel@.len() == 5,
            forall|i: int| 0 <= i < 5 ==> (#[trigger] rel@[i])@.len() == 6,
            forall|k: int| 0 <= k < state@.len() ==> 0 <= (#[trigger] state@[k]).0 < 5 && 0 <= state@[k].1 < 6,
            reach_total(rel@, state@, state@.len() as int) <= usize::MAX,
            x <= state@.len(),
            cnt == boost_count(rel@, state@, c, x as int),
            cnt <= reach_total(rel@, state@, x as int),
        decreases state@.len() - x,
    {
        let s = state[x];
        let list = &rel[s.0 as usize][s.1 as usize];
        assert(list@ == rel_at(rel@, state@[x as int]));
        proof {
            lemma_reach_total_mono(rel@, state@, x + 1, state@.len() as int);
        }
        let mut q: usize = 0;
        let ghost base = cnt;
        while q < list.len()
            invariant
                q <= list@.len(),
                cnt == base + occurrences(list@.take(q as int), c),
                base <= reach_total(rel@, state@, x as int),
                reach_total(rel@, state@, x as int) + list@.len() <= usize::MAX,
                occurrences(list@.take(q as int), c) <= q,
            decreases list@.len() - q,
        {
            let p = list[q];
            assert(list@.take(q + 1).drop_last() =~= list@.take(q as int));
            assert(list@.take(q + 1).last() == p);
            if p.0 == c.0 && p.1 == c.1 {
                cnt = cnt + 1;
            }
            q = q + 1;
        }
        assert(list@.take(list@.len() as int) =~= list@);
        x = x + 1;
    }
    cnt
}

/// For each cell `(i, j)` of the map, what its score is made of: the value it starts from (zero
/// on a chosen cell, its map value elsewhere) and how many times the chosen cells multiply it,
/// once for each chosen cell that reaches it.
pub fn cell_factors(
    map: &[[i32; 6]; 5],
    rel: &Vec<Vec<Vec<(i32, i32)>>>,
    state: &Vec<(i32, i32)>,
) -> (r: Vec<Vec<(i32, usize)>>)
    requires
        rel@.len() == 5,
        forall|i: int| 0 <= i < 5 ==> (#[trigger] rel@[i])@.len() == 6,
        forall|k: int| 0 <= k < state@.len() ==> 0 <= (#[trigger] state@[k]).0 < 5 && 0 <= state@[k].1 < 6,
        reach_total(rel@, state@, state@.len() as int) <= usize::MAX,
    ensures
        r@.len() == 5,
        forall|i: int| 0 <= i < 5 ==> (#[trigger] r@[i])@.len() == 6,
        forall|i: int, j: int| 0 <= i < 5 && 0 <= j < 6 ==> (#[trigger] r@[i]@[j]).0 == cell_base(*map, state@, i, j)
            && r@[i]@[j].1 == boost_count(rel@, state@, (i as i32, j as i32), state@.len() as int),
{
    let mut r: Vec<Vec<(i32, usize)>> = Vec::new();
    let mut i: usize = 0;
    while i < 5
        invariant
            rel@.len() == 5,
            forall|i: int| 0 <= i < 5 ==> (#[trigger] rel@[i])@.len() == 6,
            forall|k: int| 0 <= k < state@.len() ==> 0 <= (#[trigger] state@[k]).0 < 5 && 0 <= state@[k].1 < 6,
            reach_total(rel@, state@, state@.len() as int) <= usize::MAX,
            i <= 5,
            r@.len() == i,
            forall|a: int| 0 <= a < i ==> (#[trigger] r@[a])@.len() == 6,
            forall|a: int, b: int| 0 <= a < i && 0 <= b < 6 ==> (#[trigger] r@[a]@[b]).0 == cell_base(*map, state@, a, b)
                && r@[a]@[b].1 == boost_count(rel@, state@, (a as i32, b as i32), state@.len() as int),
        decreases 5 - i,
    {
        let mut row: Vec<(i32, usize)> = Vec::new();
        let mut j: usize = 0;
        while j < 6
            invariant
                rel@.len() == 5,
                forall|i: int| 0 <= i < 5 ==> (#[trigger] rel@[i])@.len() == 6,
                forall|k: int| 0 <= k < state@.len() ==> 0 <= (#[trigger] state@[k]).0 < 5 && 0 <= state@[k].1 < 6,
                reach_total(rel@, state@, state@.len() as int) <= usize::MAX,
                i < 5,
                j <= 6,
                row@.len() == j,
                forall|b: int| 0 <= b < j ==> (#[trigger] row@[b]).0 == cell_base(*map, state@, i as int, b)
                    && row@[b].1 == boost_count(rel@, state@, (i as i32, b as i32), state@.len() as int),
            decreases 6 - j,
        {
            let c: (i32, i32) = (i as i32, j as i32);
            let base: i32 = if has_cell(state, c) { 0 } else { map[i][j] };
            let n = count_reaches(rel, state, c);
            row.push((base, n));
            j = j + 1;
        }
        r.push(row);
        i = i + 1;
    }
    r
}

} // verus!
