//! The Wave Function Collapse solver: a grid of candidate sets, entropy-based
//! cell selection, collapse and constraint propagation.
use rand::seq::IteratorRandom;
use std::collections::HashMap;
use std::collections::VecDeque;
use vstd::prelude::*;

use crate::config::{Config, Direction, DirectionalRules};
use crate::utils::{adjacent_before, in_grid, is_model_of, is_sample_grid, occurs_before};

verus! {

broadcast use vstd::std_specs::hash::group_hash_axioms;

/// Why a generation run produced no grid.
#[derive(Clone, Copy, Debug, PartialEq, Eq, Structural)]
pub enum GenerateError {
    /// An output dimension, the tile size or the number of levels is zero.
    InvalidConfig,
    /// The output grid has more cells than this machine can index.
    TooLarge,
    /// Some cell was left with no candidate level.
    Contradiction,
}

/// Row-major position of cell `(x, y)` in a grid `width` cells wide.
pub open spec fn index_of(width: int, x: int, y: int) -> int {
    y * width + x
}

/// The neighbour of `(x, y)` in direction `d`, if it lies inside the grid.
pub open spec fn spec_neighbor(width: int, height: int, x: int, y: int, d: Direction) -> Option<(int, int)> {
    let nx = x + d.dx();
    let ny = y + d.dy();
    if 0 <= nx < width && 0 <= ny < height {
        Some((nx, ny))
    } else {
        None
    }
}

/// `w` is allowed in direction `d` of a cell whose candidates are `cands`:
/// the model records `w` in that direction for one of the candidates.
pub open spec fn allowed_by(adj: Map<u8, DirectionalRules>, cands: Seq<u8>, d: Direction, w: u8) -> bool {
    exists|i: int|
        0 <= i < cands.len() && adj.contains_key(#[trigger] cands[i]) && adj[cands[i]].spec_levels(
            d,
        ).contains(w)
}

/// The number of candidates over all cells.
pub open spec fn total_candidates(cells: Seq<Vec<u8>>) -> nat
    decreases cells.len(),
{
    if cells.len() == 0 {
        0
    } else {
        total_candidates(cells.drop_last()) + cells.last()@.len()
    }
}

/// Each cell of `a` holds a subset of the candidates of the same cell of `b`,
/// and no more of them.
pub open spec fn shrinks(a: Seq<Vec<u8>>, b: Seq<Vec<u8>>) -> bool {
    &&& a.len() == b.len()
    &&& forall|i: int| 0 <= i < a.len() ==> #[trigger] a[i]@.len() <= b[i]@.len()
    &&& forall|i: int, w: u8| 0 <= i < a.len() && #[trigger] a[i]@.contains(w) ==> b[i]@.contains(w)
}

proof fn lemma_index_bounds(width: int, height: int, x: int, y: int)
    requires
        0 <= x < width,
        0 <= y < height,
    ensures
        0 <= index_of(width, x, y) < width * height,
{
    assert(0 <= y * width) by (nonlinear_arith)
        requires
            0 <= y,
            0 <= width,
    ;
    assert(y * width + x < width * height) by (nonlinear_arith)
        requires
            0 <= x < width,
            0 <= y < height,
    ;
}

proof fn lemma_total_update(cells: Seq<Vec<u8>>, i: int, c: Vec<u8>)
    requires
        0 <= i < cells.len(),
    ensures
        total_candidates(cells.update(i, c)) == total_candidates(cells) - cells[i]@.len() + c@.len(),
    decreases cells.len(),
{
    let u = cells.update(i, c);
    if i == cells.len() - 1 {
        assert(u.drop_last() =~= cells.drop_last());
    } else {
        lemma_total_update(cells.drop_last(), i, c);
        assert(u.drop_last() =~= cells.drop_last().update(i, c));
    }
}

proof fn lemma_total_shrinks(a: Seq<Vec<u8>>, b: Seq<Vec<u8>>)
    requires
        shrinks(a, b),
    ensures
        total_candidates(a) <= total_candidates(b),
    decreases a.len(),
{
    if a.len() > 0 {
        assert(a[a.len() - 1]@.len() <= b[b.len() - 1]@.len());
        lemma_total_shrinks(a.drop_last(), b.drop_last());
    }
}

/// Relies on rand's `IteratorRandom::choose` over the range `0..n`, drawing
/// from `rand::rng()`: `None` when the range is empty, else one of its values.
#[verifier::external_body]
fn choose_index(n: usize) -> (r: Option<usize>)
    ensures
        r is None <==> n == 0,
        r matches Some(i) ==> i < n,
{
    (0..n).choose(&mut rand::rng())
}

/// The solver's state: a `width` by `height` grid, row-major, in which each
/// cell holds the levels in `1..=levels` that it may still take.
pub struct WaveGrid {
    pub width: usize,
    pub height: usize,
    pub levels: u8,
    pub cells: Vec<Vec<u8>>,
}

impl WaveGrid {
    /// One entry per cell; each cell's candidates distinct and in `1..=levels`.
    pub open spec fn wf(&self) -> bool {
        &&& self.cells@.len() == self.width * self.height
        &&& self.width * self.height <= usize::MAX
        &&& forall|i: int| 0 <= i < self.cells@.len() ==> #[trigger] self.cells@[i]@.no_duplicates()
        &&& forall|i: int, j: int|
            0 <= i < self.cells@.len() && 0 <= j < self.cells@[i]@.len() ==> 1 <= #[trigger] self.cells@[i]@[j]
                <= self.levels
    }

    /// The candidates of cell `(x, y)`.
    pub open spec fn cell(&self, x: int, y: int) -> Seq<u8> {
        self.cells@[index_of(self.width as int, x, y)]@
    }

    /// `(x, y)` is a cell of the grid.
    pub open spec fn contains_cell(&self, x: int, y: int) -> bool {
        0 <= x < self.width && 0 <= y < self.height
    }

    /// The cell still has more than one candidate.
    pub open spec fn is_open(&self, x: int, y: int) -> bool {
        self.contains_cell(x, y) && self.cell(x, y).len() > 1
    }

    /// A grid in which every cell may take every level in `1..=levels`.
    pub fn new(width: usize, height: usize, levels: u8) -> (r: WaveGrid)
        requires
            width * height <= usize::MAX,
        ensures
            r.wf(),
            r.width == width,
            r.height == height,
            r.levels == levels,
            forall|x: int, y: int, w: u8|
                r.contains_cell(x, y) ==> (#[trigger] r.cell(x, y).contains(w) <==> 1 <= w <= levels),
            forall|x: int, y: int| r.contains_cell(x, y) ==> #[trigger] r.cell(x, y).len() == levels,
            forall|x: int, y: int|
                r.contains_cell(x, y) ==> #[trigger] r.cell(x, y) == Seq::new(levels as nat, |i: int| (i + 1) as u8),
            forall|i: int| 0 <= i < r.cells@.len() ==> #[trigger] r.cells@[i]@.len() == levels,
    {
        let mut all: Vec<u8> = Vec::new();
        let mut l: u16 = 1;
        while l <= levels as u16
            invariant
                1 <= l <= levels + 1,
                all@.len() == l - 1,
                forall|j: int| 0 <= j < all@.len() ==> #[trigger] all@[j] == j + 1,
            decreases levels + 1 - l,
        {
            all.push(l as u8);
            l += 1;
        }
        assert forall|w: u8| #[trigger] all@.contains(w) <==> 1 <= w <= levels by {
            if 1 <= w <= levels {
                assert(all@[w - 1] == w);
            }
        }
        let n = width * height;
        let mut cells: Vec<Vec<u8>> = Vec::new();
        let mut i: usize = 0;
        while i < n
            invariant
                0 <= i <= n,
                cells@.len() == i,
                forall|k: int| 0 <= k < i ==> (#[trigger] cells@[k])@ == all@,
            decreases n - i,
        {
            cells.push(all.clone());
            i += 1;
        }
        assert(all@ =~= Seq::new(levels as nat, |i: int| (i + 1) as u8));
        let r = WaveGrid { width, height, levels, cells };
        assert forall|x: int, y: int| r.contains_cell(x, y) implies 0 <= index_of(width as int, x, y)
            < r.cells@.len() by {
            lemma_index_bounds(width as int, height as int, x, y);
        }
        r
    }

    /// Position of cell `(x, y)` in `cells`.
    pub fn cell_index(&self, x: usize, y: usize) -> (r: usize)
        requires
            self.wf(),
            self.contains_cell(x as int, y as int),
        ensures
            r == index_of(self.width as int, x as int, y as int),
            r < self.cells@.len(),
    {
        proof {
            lemma_index_bounds(self.width as int, self.height as int, x as int, y as int);
            assert(y * self.width <= y * self.width + x);
        }
        y * self.width + x
    }

    /// The number of candidates left in cell `(x, y)`.
    pub fn entropy(&self, x: usize, y: usize) -> (r: usize)
        requires
            self.wf(),
            self.contains_cell(x as int, y as int),
        ensures
            r == self.cell(x as int, y as int).len(),
    {
        self.cells[self.cell_index(x, y)].len()
    }

    /// The candidates left in cell `(x, y)`.
    pub fn candidates(&self, x: usize, y: usize) -> (r: &Vec<u8>)
        requires
            self.wf(),
            self.contains_cell(x as int, y as int),
        ensures
            r@ == self.cell(x as int, y as int),
    {
        &self.cells[self.cell_index(x, y)]
    }
}

/// The smallest entropy above one among the cells, if some cell is open.
pub open spec fn is_least_open_entropy(g: WaveGrid, x: int, y: int) -> bool {
    &&& g.is_open(x, y)
    &&& forall|a: int, b: int| #[trigger] g.is_open(a, b) ==> g.cell(x, y).len() <= g.cell(a, b).len()
}

/// All the open cells whose entropy is the least among open cells, each once.
pub fn least_entropy_cells(grid: &WaveGrid) -> (r: Vec<(usize, usize)>)
    requires
        grid.wf(),
    ensures
        forall|x: usize, y: usize| #[trigger] r@.contains((x, y)) <==> is_least_open_entropy(*grid, x as int, y as int),
        r@.no_duplicates(),
        r@.len() == 0 <==> (forall|a: int, b: int| !#[trigger] grid.is_open(a, b)),
{
    let width = grid.width;
    let height = grid.height;
    let mut min: usize = usize::MAX;
    let mut found = false;
    let mut y: usize = 0;
    while y < height
        invariant
            grid.wf(),
            width == grid.width,
            height == grid.height,
            0 <= y <= height,
            found ==> min > 1,
            !found ==> min == usize::MAX,
            found <==> exists|a: int, b: int| b < y && #[trigger] grid.is_open(a, b),
            forall|a: int, b: int| b < y && #[trigger] grid.is_open(a, b) ==> min <= grid.cell(a, b).len(),
            found ==> exists|a: int, b: int| b < y && #[trigger] grid.is_open(a, b) && grid.cell(a, b).len() == min,
        decreases height - y,
    {
        let mut x: usize = 0;
        while x < width
            invariant
                grid.wf(),
                width == grid.width,
                height == grid.height,
                0 <= y < height,
                0 <= x <= width,
                found ==> min > 1,
                !found ==> min == usize::MAX,
                found <==> exists|a: int, b: int|
                    (b < y || (b == y && a < x)) && #[trigger] grid.is_open(a, b),
                forall|a: int, b: int|
                    (b < y || (b == y && a < x)) && #[trigger] grid.is_open(a, b) ==> min <= grid.cell(a, b).len(),
                found ==> exists|a: int, b: int|
                    (b < y || (b == y && a < x)) && #[trigger] grid.is_open(a, b) && grid.cell(a, b).len() == min,
            decreases width - x,
        {
            let len = grid.entropy(x, y);
            if len > 1 && (!found || len < min) {
                min = len;
                found = true;
            }
            assert(len > 1 ==> grid.is_open(x as int, y as int));
            x += 1;
        }
        y += 1;
    }
    let mut r: Vec<(usize, usize)> = Vec::new();
    if !found {
        assert forall|a: int, b: int| !#[trigger] grid.is_open(a, b) by {}
        return r;
    }
    let mut y: usize = 0;
    while y < height
        invariant
            grid.wf(),
            width == grid.width,
            height == grid.height,
            0 <= y <= height,
            min > 1,
            forall|a: int, b: int| #[trigger] grid.is_open(a, b) ==> min <= grid.cell(a, b).len(),
            exists|a: int, b: int| #[trigger] grid.is_open(a, b) && grid.cell(a, b).len() == min,
            forall|k: int| 0 <= k < r@.len() ==> (#[trigger] r@[k]).1 < y,
            forall|a: usize, b: usize|
                #[trigger] r@.contains((a, b)) <==> (b < y && grid.is_open(a as int, b as int) && grid.cell(
                    a as int,
                    b as int,
                ).len() == min),
            r@.no_duplicates(),
        decreases height - y,
    {
        let mut x: usize = 0;
        while x < width
            invariant
                grid.wf(),
                width == grid.width,
                height == grid.height,
                0 <= y < height,
                0 <= x <= width,
                min > 1,
                forall|a: int, b: int| #[trigger] grid.is_open(a, b) ==> min <= grid.cell(a, b).len(),
                exists|a: int, b: int| #[trigger] grid.is_open(a, b) && grid.cell(a, b).len() == min,
                forall|k: int|
                    0 <= k < r@.len() ==> (#[trigger] r@[k]).1 < y || ((r@[k]).1 == y && (r@[k]).0 < x),
                forall|a: usize, b: usize|
                    #[trigger] r@.contains((a, b)) <==> ((b < y || (b == y && a < x)) && grid.is_open(
                        a as int,
                        b as int,
                    ) && grid.cell(a as int, b as int).len() == min),
                r@.no_duplicates(),
            decreases width - x,
        {
            let len = grid.entropy(x, y);
            if len == min {
                let ghost old_r = r@;
                r.push((x, y));
                proof {
                    assert(!old_r.contains((x, y)));
                    assert forall|a: usize, b: usize|
                        #[trigger] r@.contains((a, b)) <==> old_r.contains((a, b)) || (a, b) == (x, y) by {
                        if old_r.contains((a, b)) {
                            let k = choose|k: int| 0 <= k < old_r.len() && old_r[k] == (a, b);
                            assert(r@[k] == (a, b));
                        }
                        if (a, b) == (x, y) {
                            assert(r@[r@.len() - 1] == (a, b));
                        }
                    }
                }
            }
            x += 1;
        }
        y += 1;
    }
    proof {
        let (a, b) = choose|a: int, b: int| #[trigger] grid.is_open(a, b) && grid.cell(a, b).len() == min;
        assert(r@.contains((a as usize, b as usize)));
    }
    r
}

/// One open cell of least entropy, picked at random among the tied ones, or
/// `None` when no cell is open.
pub fn find_least_entropy_cell(grid: &WaveGrid) -> (r: Option<(usize, usize)>)
    requires
        grid.wf(),
    ensures
        r is None <==> (forall|a: int, b: int| !#[trigger] grid.is_open(a, b)),
        r matches Some(c) ==> is_least_open_entropy(*grid, c.0 as int, c.1 as int),
{
    let tied = least_entropy_cells(grid);
    match choose_index(tied.len()) {
        Some(i) => {
            assert(tied@.contains(tied@[i as int]));
            Some(tied[i])
        },
        None => None,
    }
}


proof fn lemma_index_injective(width: int, x1: int, y1: int, x2: int, y2: int)
    requires
        0 <= x1 < width,
        0 <= x2 < width,
        0 <= y1,
        0 <= y2,
        index_of(width, x1, y1) == index_of(width, x2, y2),
    ensures
        x1 == x2 && y1 == y2,
{
    if y1 < y2 {
        assert(y1 * width + width <= y2 * width) by (nonlinear_arith)
            requires
                y1 < y2,
                0 <= width,
        ;
    } else if y2 < y1 {
        assert(y2 * width + width <= y1 * width) by (nonlinear_arith)
            requires
                y2 < y1,
                0 <= width,
        ;
    }
}

/// The direction handled at step `k` of a propagation sweep.
pub open spec fn spec_direction_at(k: int) -> Direction {
    if k == 0 {
        Direction::Top
    } else if k == 1 {
        Direction::Bottom
    } else if k == 2 {
        Direction::Left
    } else {
        Direction::Right
    }
}

fn direction_at(k: usize) -> (d: Direction)
    ensures
        d == spec_direction_at(k as int),
{
    if k == 0 {
        Direction::Top
    } else if k == 1 {
        Direction::Bottom
    } else if k == 2 {
        Direction::Left
    } else {
        Direction::Right
    }
}

/// The neighbour of `(x, y)` in direction `d` inside a `width` by `height`
/// grid, if there is one.
pub fn neighbor(width: usize, height: usize, x: usize, y: usize, d: Direction) -> (r: Option<(usize, usize)>)
    requires
        x < width,
        y < height,
    ensures
        match spec_neighbor(width as int, height as int, x as int, y as int, d) {
            Some((nx, ny)) => r == Some((nx as usize, ny as usize)),
            None => r is None,
        },
{
    match d {
        Direction::Top => if y > 0 { Some((x, y - 1)) } else { None },
        Direction::Bottom => if y + 1 < height { Some((x, y + 1)) } else { None },
        Direction::Left => if x > 0 { Some((x - 1, y)) } else { None },
        Direction::Right => if x + 1 < width { Some((x + 1, y)) } else { None },
    }
}

/// For each level `w`, whether the model allows `w` in direction `d` of a cell
/// whose candidates are `current`: slot `w` of the result says so.
pub fn allowed_levels(current: &Vec<u8>, d: Direction, adjacency: &HashMap<u8, DirectionalRules>) -> (r: Vec<bool>)
    ensures
        r@.len() == 256,
        forall|w: u8| #[trigger] r@[w as int] <==> allowed_by(adjacency@, current@, d, w),
{
    let mut r: Vec<bool> = Vec::new();
    let mut w: usize = 0;
    while w < 256
        invariant
            0 <= w <= 256,
            r@.len() == w,
            forall|u: int| 0 <= u < w ==> !#[trigger] r@[u],
        decreases 256 - w,
    {
        r.push(false);
        w += 1;
    }
    let mut i: usize = 0;
    while i < current.len()
        invariant
            0 <= i <= current@.len(),
            r@.len() == 256,
            forall|u: u8| #[trigger] r@[u as int] <==> allowed_by(adjacency@, current@.subrange(0, i as int), d, u),
        decreases current@.len() - i,
    {
        let ghost before = r@;
        let own = current[i];
        match adjacency.get(&own) {
            Some(rule) => {
                let levels = rule.levels(d);
                let mut j: usize = 0;
                while j < levels.len()
                    invariant
                        0 <= j <= levels@.len(),
                        levels@ == adjacency@[own].spec_levels(d),
                        adjacency@.contains_key(own),
                        r@.len() == 256,
                        forall|u: u8| #[trigger] r@[u as int] <==> before[u as int] || levels@.subrange(0, j as int).contains(u),
                    decreases levels@.len() - j,
                {
                    let u = levels[j];
                    r.set(u as usize, true);
                    proof {
                        assert forall|v: u8| #[trigger] r@[v as int] <==> before[v as int] || levels@.subrange(0, j + 1).contains(v) by {
                            if levels@.subrange(0, j as int).contains(v) {
                                let k = choose|k: int| 0 <= k < j && #[trigger] levels@.subrange(0, j as int)[k] == v;
                                assert(levels@.subrange(0, j + 1)[k] == v);
                            }
                            if levels@.subrange(0, j + 1).contains(v) {
                                let k = choose|k: int| 0 <= k < j + 1 && #[trigger] levels@.subrange(0, j + 1)[k] == v;
                                if k < j {
                                    assert(levels@.subrange(0, j as int)[k] == v);
                                }
                            }
                            if v == u {
                                assert(levels@.subrange(0, j + 1)[j as int] == v);
                            }
                        }
                    }
                    j += 1;
                }
                proof {
                    assert(levels@.subrange(0, levels@.len() as int) =~= levels@);
                }
            },
            None => {},
        }
        proof {
            let pre = current@.subrange(0, i as int);
            let post = current@.subrange(0, i + 1);
            assert forall|u: u8| #[trigger] r@[u as int] <==> allowed_by(adjacency@, post, d, u) by {
                if allowed_by(adjacency@, pre, d, u) {
                    let k = choose|k: int| 0 <= k < pre.len() && adjacency@.contains_key(#[trigger] pre[k])
                        && adjacency@[pre[k]].spec_levels(d).contains(u);
                    assert(post[k] == pre[k]);
                }
                if allowed_by(adjacency@, post, d, u) {
                    let k = choose|k: int| 0 <= k < post.len() && adjacency@.contains_key(#[trigger] post[k])
                        && adjacency@[post[k]].spec_levels(d).contains(u);
                    if k < i {
                        assert(pre[k] == post[k]);
                    } else {
                        assert(post[k] == own);
                    }
                }
                if adjacency@.contains_key(own) && adjacency@[own].spec_levels(d).contains(u) {
                    assert(post[i as int] == own);
                }
            }
        }
        i += 1;
    }
    proof {
        assert(current@.subrange(0, current@.len() as int) =~= current@);
    }
    r
}

/// The candidates of `cell` that `allowed` admits, in their order.
pub fn restrict(cell: &Vec<u8>, allowed: &Vec<bool>) -> (r: Vec<u8>)
    requires
        allowed@.len() == 256,
    ensures
        forall|w: u8| #[trigger] r@.contains(w) <==> cell@.contains(w) && allowed@[w as int],
        r@.len() <= cell@.len(),
        cell@.no_duplicates() ==> r@.no_duplicates(),
        forall|j: int| 0 <= j < r@.len() ==> cell@.contains(#[trigger] r@[j]),
        r@.len() == cell@.len() ==> r@ == cell@,
        (forall|j: int| 0 <= j < cell@.len() ==> #[trigger] allowed@[cell@[j] as int]) ==> r@ == cell@,
{
    let mut r: Vec<u8> = Vec::new();
    let mut i: usize = 0;
    while i < cell.len()
        invariant
            0 <= i <= cell@.len(),
            allowed@.len() == 256,
            r@.len() <= i,
            r@.len() == i ==> r@ == cell@.subrange(0, i as int),
            (forall|j: int| 0 <= j < i ==> #[trigger] allowed@[cell@[j] as int]) ==> r@.len() == i,
            forall|w: u8| #[trigger] r@.contains(w) <==> cell@.subrange(0, i as int).contains(w) && allowed@[w as int],
            cell@.no_duplicates() ==> r@.no_duplicates(),
            forall|j: int| 0 <= j < r@.len() ==> cell@.subrange(0, i as int).contains(#[trigger] r@[j]),
        decreases cell@.len() - i,
    {
        let w = cell[i];
        let ghost old_r = r@;
        let ghost pre = cell@.subrange(0, i as int);
        let ghost post = cell@.subrange(0, i + 1);
        proof {
            assert forall|u: u8| pre.contains(u) implies #[trigger] post.contains(u) by {
                let k = choose|k: int| 0 <= k < pre.len() && pre[k] == u;
                assert(post[k] == u);
            }
            assert(post[i as int] == w);
            assert forall|u: u8| #[trigger] post.contains(u) implies pre.contains(u) || u == w by {
                let k = choose|k: int| 0 <= k < post.len() && post[k] == u;
                if k < i {
                    assert(pre[k] == u);
                }
            }
        }
        if allowed[w as usize] {
            r.push(w);
            proof {
                if old_r.len() == i {
                    assert(r@ =~= post);
                }
                if cell@.no_duplicates() {
                    assert(!pre.contains(w)) by {
                        if pre.contains(w) {
                            let k = choose|k: int| 0 <= k < pre.len() && pre[k] == w;
                            assert(cell@[k] == cell@[i as int]);
                        }
                    }
                    assert(!old_r.contains(w));
                }
                assert forall|u: u8| #[trigger] r@.contains(u) <==> old_r.contains(u) || u == w by {
                    if old_r.contains(u) {
                        let k = choose|k: int| 0 <= k < old_r.len() && old_r[k] == u;
                        assert(r@[k] == u);
                    }
                    if u == w {
                        assert(r@[r@.len() - 1] == u);
                    }
                }
                assert forall|j: int| 0 <= j < r@.len() implies post.contains(#[trigger] r@[j]) by {
                    if j < old_r.len() {
                        assert(r@[j] == old_r[j]);
                    }
                }
            }
        } else {
            proof {
                assert forall|j: int| 0 <= j < r@.len() implies post.contains(#[trigger] r@[j]) by {}
            }
        }
        i += 1;
    }
    proof {
        assert(cell@.subrange(0, cell@.len() as int) =~= cell@);
    }
    r
}


impl WaveGrid {
    /// Replaces the candidates at position `i` of `cells`.
    fn set_cell(&mut self, i: usize, c: Vec<u8>)
        requires
            i < old(self).cells@.len(),
        ensures
            final(self).cells@ == old(self).cells@.update(i as int, c),
            final(self).width == old(self).width,
            final(self).height == old(self).height,
            final(self).levels == old(self).levels,
    {
        self.cells.set(i, c);
    }
}

/// Commits cell `(x, y)` to its `k`-th candidate: afterwards that level is
/// the cell's only candidate, and no other cell changes.
pub fn collapse_cell(grid: &mut WaveGrid, x: usize, y: usize, k: usize)
    requires
        old(grid).wf(),
        old(grid).contains_cell(x as int, y as int),
        k < old(grid).cell(x as int, y as int).len(),
    ensures
        final(grid).wf(),
        final(grid).width == old(grid).width,
        final(grid).height == old(grid).height,
        final(grid).levels == old(grid).levels,
        final(grid).cells@ == old(grid).cells@.update(
            index_of(old(grid).width as int, x as int, y as int),
            final(grid).cells@[index_of(old(grid).width as int, x as int, y as int)],
        ),
        final(grid).cell(x as int, y as int) == seq![old(grid).cell(x as int, y as int)[k as int]],
        shrinks(final(grid).cells@, old(grid).cells@),
        total_candidates(final(grid).cells@) < total_candidates(old(grid).cells@) || old(grid).cell(
            x as int,
            y as int,
        ).len() == 1,
{
    let i = grid.cell_index(x, y);
    let choice = grid.cells[i][k];
    let mut single: Vec<u8> = Vec::new();
    single.push(choice);
    let ghost before = grid.cells@;
    grid.set_cell(i, single);
    proof {
        assert(single@ =~= seq![choice]);
        lemma_total_update(before, i as int, single);
        assert forall|j: int, w: u8| 0 <= j < grid.cells@.len() && #[trigger] grid.cells@[j]@.contains(w)
            implies before[j]@.contains(w) by {
            if j == i {
                assert(before[j]@[k as int] == w);
            }
        }
    }
}

/// Position of direction `d` in a propagation sweep.
pub open spec fn dir_index(d: Direction) -> int {
    match d {
        Direction::Top => 0,
        Direction::Bottom => 1,
        Direction::Left => 2,
        Direction::Right => 3,
    }
}

/// The arc from `(x, y)` in direction `d` is consistent: every candidate of
/// that neighbour is allowed there by some candidate of `(x, y)`.
pub open spec fn arc_holds(g: WaveGrid, adj: Map<u8, DirectionalRules>, x: int, y: int, d: Direction) -> bool {
    match spec_neighbor(g.width as int, g.height as int, x, y, d) {
        Some(n) => forall|w: u8| #[trigger] g.cell(n.0, n.1).contains(w) ==> allowed_by(adj, g.cell(x, y), d, w),
        None => true,
    }
}

/// Propagation is owed a consistent arc from `(a, b)` in direction `d`: the
/// arc held at the start, or `(a, b)` is the seed, or it lost candidates.
pub open spec fn arc_owed(
    g: WaveGrid,
    start: WaveGrid,
    adj: Map<u8, DirectionalRules>,
    sx: int,
    sy: int,
    a: int,
    b: int,
    d: Direction,
) -> bool {
    arc_holds(start, adj, a, b, d) || (a == sx && b == sy) || g.cell(a, b).len() < start.cell(a, b).len()
}

/// Replacing cell `i` by a subset of its candidates keeps every arc whose
/// source is another cell.
proof fn lemma_arc_kept(g1: WaveGrid, g2: WaveGrid, adj: Map<u8, DirectionalRules>, i: int, a: int, b: int, d: Direction)
    requires
        g1.wf(),
        g2.width == g1.width,
        g2.height == g1.height,
        0 <= i < g1.cells@.len(),
        g2.cells@.len() == g1.cells@.len(),
        forall|j: int| 0 <= j < g1.cells@.len() && j != i ==> #[trigger] g2.cells@[j]@ == g1.cells@[j]@,
        forall|w: u8| #[trigger] g2.cells@[i]@.contains(w) ==> g1.cells@[i]@.contains(w),
        g1.contains_cell(a, b),
        index_of(g1.width as int, a, b) != i,
        arc_holds(g1, adj, a, b, d),
    ensures
        arc_holds(g2, adj, a, b, d),
        g2.cell(a, b) == g1.cell(a, b),
{
    lemma_index_bounds(g1.width as int, g1.height as int, a, b);
    match spec_neighbor(g1.width as int, g1.height as int, a, b, d) {
        Some(n) => {
            lemma_index_bounds(g1.width as int, g1.height as int, n.0, n.1);
            assert forall|w: u8| #[trigger] g2.cell(n.0, n.1).contains(w) implies allowed_by(adj, g2.cell(a, b), d, w) by {
                assert(g1.cell(n.0, n.1).contains(w));
            }
        },
        None => {},
    }
}

/// If cell `(a, b)` has lost level `w` since `start`, some neighbour's
/// current candidates do not allow `w` there.
pub open spec fn removal_justified(
    g: WaveGrid,
    start: WaveGrid,
    adj: Map<u8, DirectionalRules>,
    a: int,
    b: int,
    w: u8,
) -> bool {
    start.cell(a, b).contains(w) && !g.cell(a, b).contains(w) ==> exists|cx: int, cy: int, d: Direction|
        g.contains_cell(cx, cy) && #[trigger] spec_neighbor(g.width as int, g.height as int, cx, cy, d) == Some(
            (a, b),
        ) && !allowed_by(adj, g.cell(cx, cy), d, w)
}

/// Fewer candidates allow no more levels.
proof fn lemma_allowed_by_mono(adj: Map<u8, DirectionalRules>, s1: Seq<u8>, s2: Seq<u8>, d: Direction, w: u8)
    requires
        forall|u: u8| #[trigger] s1.contains(u) ==> s2.contains(u),
        allowed_by(adj, s1, d, w),
    ensures
        allowed_by(adj, s2, d, w),
{
    let i = choose|i: int| 0 <= i < s1.len() && adj.contains_key(#[trigger] s1[i]) && adj[s1[i]].spec_levels(d).contains(w);
    assert(s1.contains(s1[i]));
    let j = choose|j: int| 0 <= j < s2.len() && s2[j] == s1[i];
    assert(adj.contains_key(s2[j]));
}

/// Narrowing cell `(nx, ny)` to levels that `(cx, cy)` allows in direction
/// `d` keeps every lost level justified.
proof fn lemma_justified_kept(
    g1: WaveGrid,
    g2: WaveGrid,
    start: WaveGrid,
    adj: Map<u8, DirectionalRules>,
    cx: int,
    cy: int,
    d: Direction,
    nx: int,
    ny: int,
)
    requires
        g1.wf(),
        g2.width == g1.width,
        g2.height == g1.height,
        g2.cells@.len() == g1.cells@.len(),
        g1.contains_cell(cx, cy),
        spec_neighbor(g1.width as int, g1.height as int, cx, cy, d) == Some((nx, ny)),
        forall|j: int| 0 <= j < g1.cells@.len() && j != index_of(g1.width as int, nx, ny) ==> #[trigger] g2.cells@[j]@ == g1.cells@[j]@,
        forall|w: u8| #[trigger] g2.cell(nx, ny).contains(w) ==> g1.cell(nx, ny).contains(w),
        forall|w: u8| g1.cell(nx, ny).contains(w) && !g2.cell(nx, ny).contains(w) ==> !allowed_by(adj, g2.cell(cx, cy), d, w),
        forall|a: int, b: int, w: u8| g1.contains_cell(a, b) ==> #[trigger] removal_justified(g1, start, adj, a, b, w),
    ensures
        forall|a: int, b: int, w: u8| g2.contains_cell(a, b) ==> #[trigger] removal_justified(g2, start, adj, a, b, w),
{
    let ni = index_of(g1.width as int, nx, ny);
    lemma_index_bounds(g1.width as int, g1.height as int, nx, ny);
    assert forall|a: int, b: int| #[trigger] g2.contains_cell(a, b) implies forall|u: u8| #[trigger] g2.cell(a, b).contains(u) ==> g1.cell(a, b).contains(u) by {
        lemma_index_bounds(g1.width as int, g1.height as int, a, b);
        if index_of(g1.width as int, a, b) == ni {
            lemma_index_injective(g1.width as int, a, b, nx, ny);
        }
    }
    assert forall|a: int, b: int, w: u8| g2.contains_cell(a, b) implies #[trigger] removal_justified(g2, start, adj, a, b, w) by {
        lemma_index_bounds(g1.width as int, g1.height as int, a, b);
        if start.cell(a, b).contains(w) && !g2.cell(a, b).contains(w) {
            if g1.cell(a, b).contains(w) {
                if index_of(g1.width as int, a, b) != ni {
                    assert(g2.cell(a, b) == g1.cell(a, b));
                }
                else {
                    lemma_index_injective(g1.width as int, a, b, nx, ny);
                }
                assert(spec_neighbor(g2.width as int, g2.height as int, cx, cy, d) == Some((a, b)));
            } else {
                assert(removal_justified(g1, start, adj, a, b, w));
                let (px, py, pd) = choose|px: int, py: int, pd: Direction|
                    g1.contains_cell(px, py) && #[trigger] spec_neighbor(g1.width as int, g1.height as int, px, py, pd)
                        == Some((a, b)) && !allowed_by(adj, g1.cell(px, py), pd, w);
                assert(g2.contains_cell(px, py));
                if allowed_by(adj, g2.cell(px, py), pd, w) {
                    lemma_allowed_by_mono(adj, g2.cell(px, py), g1.cell(px, py), pd, w);
                }
                assert(spec_neighbor(g2.width as int, g2.height as int, px, py, pd) == Some((a, b)));
            }
        }
    }
}

/// `s` picks, for each cell of `g` (by position in `cells`), a subset of its
/// candidates such that every arc is consistent within `s`: each level that
/// `s` keeps in a neighbour is allowed there by some level `s` keeps in the
/// cell.
pub open spec fn is_stable_subgrid(g: WaveGrid, adj: Map<u8, DirectionalRules>, s: Seq<Seq<u8>>) -> bool {
    &&& s.len() == g.cells@.len()
    &&& forall|i: int, w: u8| 0 <= i < s.len() && #[trigger] s[i].contains(w) ==> g.cells@[i]@.contains(w)
    &&& forall|x: int, y: int, d: Direction, w: u8|
        g.contains_cell(x, y) && spec_neighbor(g.width as int, g.height as int, x, y, d) is Some && #[trigger] s[index_of(
            g.width as int,
            x + d.dx(),
            y + d.dy(),
        )].contains(w) ==> #[trigger] allowed_by(adj, s[index_of(g.width as int, x, y)], d, w)
}

/// Every level that `s` picks for a cell is still a candidate there in `g`.
pub open spec fn keeps(g: WaveGrid, s: Seq<Seq<u8>>) -> bool {
    forall|i: int, w: u8| 0 <= i < s.len() && #[trigger] s[i].contains(w) ==> g.cells@[i]@.contains(w)
}

/// Narrowing cell `(nx, ny)` to the levels that `(cx, cy)` allows keeps what
/// a stable sub-grid of the start picks.
proof fn lemma_stable_kept(
    g1: WaveGrid,
    g2: WaveGrid,
    start: WaveGrid,
    adj: Map<u8, DirectionalRules>,
    cx: int,
    cy: int,
    d: Direction,
    nx: int,
    ny: int,
    s: Seq<Seq<u8>>,
)
    requires
        g1.wf(),
        start.width == g1.width,
        start.height == g1.height,
        g2.cells@.len() == g1.cells@.len(),
        start.cells@.len() == g1.cells@.len(),
        g2.width == g1.width,
        g1.contains_cell(cx, cy),
        spec_neighbor(g1.width as int, g1.height as int, cx, cy, d) == Some((nx, ny)),
        forall|j: int| 0 <= j < g1.cells@.len() && j != index_of(g1.width as int, nx, ny) ==> #[trigger] g2.cells@[j]@ == g1.cells@[j]@,
        forall|w: u8| g1.cell(nx, ny).contains(w) && allowed_by(adj, g1.cell(cx, cy), d, w) ==> #[trigger] g2.cell(nx, ny).contains(w),
        is_stable_subgrid(start, adj, s),
        keeps(g1, s),
    ensures
        keeps(g2, s),
{
    let ni = index_of(g1.width as int, nx, ny);
    let ci = index_of(g1.width as int, cx, cy);
    lemma_index_bounds(g1.width as int, g1.height as int, nx, ny);
    lemma_index_bounds(g1.width as int, g1.height as int, cx, cy);
    assert forall|i: int, w: u8| 0 <= i < s.len() && #[trigger] s[i].contains(w) implies g2.cells@[i]@.contains(w) by {
        assert(g1.cells@[i]@.contains(w));
        if i == ni {
            assert(allowed_by(adj, s[ci], d, w));
            assert forall|u: u8| #[trigger] s[ci].contains(u) implies g1.cell(cx, cy).contains(u) by {}
            lemma_allowed_by_mono(adj, s[ci], g1.cell(cx, cy), d, w);
            assert(g2.cell(nx, ny).contains(w));
        }
    }
}

/// Restores local consistency after cell `(x, y)` changed: a worklist of
/// cells, seeded with `(x, y)`, is drained; each neighbour of a cell taken
/// from it keeps only the levels that the model allows next to one of that
/// cell's candidates, and goes on the worklist when it lost some. Afterwards
/// every arc out of the seed, out of a cell that lost candidates, or that was
/// consistent before, is consistent; every level that a cell lost is one
/// that the remaining candidates of some neighbour do not allow there; every
/// level picked by a sub-grid of the input whose arcs are all consistent
/// stays; and when the arcs out of the seed already hold, nothing changes, so
/// propagating twice from one seed changes nothing the second time.
#[verifier::rlimit(60)]
pub fn propagate(grid: &mut WaveGrid, x: usize, y: usize, adjacency: &HashMap<u8, DirectionalRules>)
    requires
        old(grid).wf(),
        old(grid).contains_cell(x as int, y as int),
    ensures
        final(grid).wf(),
        final(grid).width == old(grid).width,
        final(grid).height == old(grid).height,
        final(grid).levels == old(grid).levels,
        shrinks(final(grid).cells@, old(grid).cells@),
        forall|a: int, b: int, d: Direction|
            old(grid).contains_cell(a, b) && arc_owed(*final(grid), *old(grid), adjacency@, x as int, y as int, a, b, d)
                ==> #[trigger] arc_holds(*final(grid), adjacency@, a, b, d),
        forall|a: int, b: int, w: u8|
            old(grid).contains_cell(a, b) ==> #[trigger] removal_justified(*final(grid), *old(grid), adjacency@, a, b, w),
        forall|s: Seq<Seq<u8>>| #[trigger] is_stable_subgrid(*old(grid), adjacency@, s) ==> keeps(*final(grid), s),
        (forall|d: Direction| #[trigger] arc_holds(*old(grid), adjacency@, x as int, y as int, d)) ==> candidate_sets(
            *final(grid),
        ) == candidate_sets(*old(grid)),
{
    let width = grid.width;
    let height = grid.height;
    let ghost start = *grid;
    let ghost adj = adjacency@;
    let ghost seed_ok = forall|d: Direction| #[trigger] arc_holds(start, adj, x as int, y as int, d);
    let mut queue: VecDeque<(usize, usize)> = VecDeque::new();
    queue.push_back((x, y));
    proof {
        assert forall|a: usize, b: usize, d: Direction|
            grid.contains_cell(a as int, b as int) && arc_owed(*grid, start, adj, x as int, y as int, a as int, b as int, d)
                && !queue@.contains((a, b)) implies #[trigger] arc_holds(*grid, adj, a as int, b as int, d) by {
            if a == x && b == y {
                assert(queue@[0] == (a, b));
            }
        }
        assert forall|a: int, b: int, w: u8| grid.contains_cell(a, b) implies #[trigger] removal_justified(*grid, start, adj, a, b, w) by {}
    }
    while queue.len() > 0
        invariant
            grid.wf(),
            grid.width == width,
            grid.height == height,
            grid.levels == start.levels,
            start == *old(grid),
            adj == adjacency@,
            shrinks(grid.cells@, start.cells@),
            forall|j: int| 0 <= j < queue@.len() ==> grid.contains_cell(
                (#[trigger] queue@[j]).0 as int,
                queue@[j].1 as int,
            ),
            forall|a: usize, b: usize, d: Direction|
                grid.contains_cell(a as int, b as int) && arc_owed(*grid, start, adj, x as int, y as int, a as int, b as int, d)
                    && !queue@.contains((a, b)) ==> #[trigger] arc_holds(*grid, adj, a as int, b as int, d),
            forall|a: int, b: int, w: u8| grid.contains_cell(a, b) ==> #[trigger] removal_justified(*grid, start, adj, a, b, w),
            forall|s: Seq<Seq<u8>>| #[trigger] is_stable_subgrid(start, adj, s) ==> keeps(*grid, s),
            start.width == width,
            start.height == height,
            seed_ok == forall|d: Direction| #[trigger] arc_holds(start, adj, x as int, y as int, d),
            seed_ok ==> candidate_sets(*grid) == candidate_sets(start),
            seed_ok ==> forall|j: int| 0 <= j < queue@.len() ==> #[trigger] queue@[j] == (x, y),
        decreases total_candidates(grid.cells@) + queue@.len(),
    {
        let ghost measure = total_candidates(grid.cells@) + queue@.len();
        let ghost q0 = queue@;
        let popped = queue.pop_front();
        let (cx, cy) = popped.unwrap();
        assert(grid.contains_cell(cx as int, cy as int)) by {
            assert(q0[0] == (cx, cy));
        }
        assert forall|j: int| 0 <= j < queue@.len() implies grid.contains_cell(
            (#[trigger] queue@[j]).0 as int,
            queue@[j].1 as int,
        ) by {
            assert(queue@[j] == q0[j + 1]);
        }
        proof {
            if seed_ok {
                assert(q0[0] == (x, y));
                assert forall|j: int| 0 <= j < queue@.len() implies #[trigger] queue@[j] == (x, y) by {
                    assert(queue@[j] == q0[j + 1]);
                }
            }
            assert forall|a: usize, b: usize, d: Direction|
                grid.contains_cell(a as int, b as int) && arc_owed(*grid, start, adj, x as int, y as int, a as int, b as int, d)
                    && !queue@.contains((a, b)) && !(a == cx && b == cy) implies #[trigger] arc_holds(*grid, adj, a as int, b as int, d) by {
                if q0.contains((a, b)) {
                    let j = choose|j: int| 0 <= j < q0.len() && q0[j] == (a, b);
                    assert(j != 0);
                    assert(queue@[j - 1] == (a, b));
                }
            }
        }
        let ci = grid.cell_index(cx, cy);
        let current = copy_levels(&grid.cells[ci]);
        let mut k: usize = 0;
        while k < 4
            invariant
                grid.wf(),
                grid.width == width,
                grid.height == height,
                grid.levels == start.levels,
                start == *old(grid),
                adj == adjacency@,
                shrinks(grid.cells@, start.cells@),
                forall|j: int| 0 <= j < queue@.len() ==> grid.contains_cell(
                    (#[trigger] queue@[j]).0 as int,
                    queue@[j].1 as int,
                ),
                grid.contains_cell(cx as int, cy as int),
                ci == index_of(width as int, cx as int, cy as int),
                current@ == grid.cell(cx as int, cy as int),
                0 <= k <= 4,
                total_candidates(grid.cells@) + queue@.len() < measure,
                forall|a: usize, b: usize, d: Direction|
                    grid.contains_cell(a as int, b as int) && arc_owed(*grid, start, adj, x as int, y as int, a as int, b as int, d)
                        && !queue@.contains((a, b)) && !(a == cx && b == cy && dir_index(d) >= k)
                        ==> #[trigger] arc_holds(*grid, adj, a as int, b as int, d),
                forall|a: int, b: int, w: u8| grid.contains_cell(a, b) ==> #[trigger] removal_justified(*grid, start, adj, a, b, w),
                forall|s: Seq<Seq<u8>>| #[trigger] is_stable_subgrid(start, adj, s) ==> keeps(*grid, s),
                start.width == width,
                start.height == height,
                seed_ok == forall|d: Direction| #[trigger] arc_holds(start, adj, x as int, y as int, d),
                seed_ok ==> candidate_sets(*grid) == candidate_sets(start),
                seed_ok ==> forall|j: int| 0 <= j < queue@.len() ==> #[trigger] queue@[j] == (x, y),
                seed_ok ==> cx == x && cy == y,
            decreases 4 - k,
        {
            let d = direction_at(k);
            match neighbor(width, height, cx, cy, d) {
                Some((nx, ny)) => {
                    let allowed = allowed_levels(&current, d, adjacency);
                    let ni = grid.cell_index(nx, ny);
                    let narrowed = restrict(&grid.cells[ni], &allowed);
                    let shrunk = narrowed.len() < grid.cells[ni].len();
                    let ghost before = grid.cells@;
                    let ghost g1 = *grid;
                    let ghost q1 = queue@;
                    grid.set_cell(ni, narrowed);
                    proof {
                        lemma_total_update(before, ni as int, narrowed);
                        assert forall|j: int, w: u8|
                            0 <= j < grid.cells@.len() && #[trigger] grid.cells@[j]@.contains(w) implies start.cells@[j]@.contains(w) by {
                            assert(before[j]@.contains(w));
                        }
                        assert forall|j: int| 0 <= j < grid.cells@.len() implies #[trigger] grid.cells@[j]@.len() <= start.cells@[j]@.len() by {
                            assert(before[j]@.len() <= start.cells@[j]@.len());
                        }
                        assert forall|j: int, m: int| 0 <= j < grid.cells@.len() && 0 <= m < grid.cells@[j]@.len()
                            implies 1 <= #[trigger] grid.cells@[j]@[m] <= grid.levels by {
                            if j == ni {
                                let w = grid.cells@[j]@[m];
                                assert(before[j]@.contains(w));
                                let q = choose|q: int| 0 <= q < before[j]@.len() && before[j]@[q] == w;
                                assert(1 <= before[j]@[q] <= grid.levels);
                            }
                        }
                        if ni == ci {
                            lemma_index_injective(width as int, nx as int, ny as int, cx as int, cy as int);
                            match d {
                                Direction::Top => {},
                                Direction::Bottom => {},
                                Direction::Left => {},
                                Direction::Right => {},
                            }
                        }
                        assert(ni != ci);
                        assert(forall|j: int| 0 <= j < g1.cells@.len() && j != ni ==> #[trigger] grid.cells@[j]@ == g1.cells@[j]@);
                        lemma_index_bounds(width as int, height as int, cx as int, cy as int);
                        assert(grid.cells@[ci as int]@ == g1.cells@[ci as int]@);
                        assert(g1.cell(cx as int, cy as int) == current@);
                        assert(grid.cell(cx as int, cy as int) == current@);
                        lemma_index_bounds(width as int, height as int, nx as int, ny as int);
                        assert forall|w: u8| #[trigger] grid.cell(nx as int, ny as int).contains(w) implies g1.cell(nx as int, ny as int).contains(w) by {}
                        assert forall|w: u8| g1.cell(nx as int, ny as int).contains(w) && !grid.cell(nx as int, ny as int).contains(w)
                            implies !allowed_by(adj, grid.cell(cx as int, cy as int), d, w) by {
                            assert(!allowed@[w as int]);
                        }
                        lemma_justified_kept(g1, *grid, start, adj, cx as int, cy as int, d, nx as int, ny as int);
                        assert forall|w: u8| g1.cell(nx as int, ny as int).contains(w) && allowed_by(adj, g1.cell(cx as int, cy as int), d, w)
                            implies #[trigger] grid.cell(nx as int, ny as int).contains(w) by {
                            assert(allowed@[w as int]);
                        }
                        assert forall|st: Seq<Seq<u8>>| #[trigger] is_stable_subgrid(start, adj, st) implies keeps(*grid, st) by {
                            lemma_stable_kept(g1, *grid, start, adj, cx as int, cy as int, d, nx as int, ny as int, st);
                        }
                    }
                    proof {
                        if seed_ok {
                            assert(arc_holds(start, adj, x as int, y as int, d));
                            assert(spec_neighbor(width as int, height as int, cx as int, cy as int, d) == Some((nx as int, ny as int)));
                            assert(candidate_sets(g1)[ni as int] == candidate_sets(start)[ni as int]);
                            assert(candidate_sets(g1)[ci as int] == candidate_sets(start)[ci as int]);
                            assert(g1.cells@[ni as int]@ == start.cells@[ni as int]@);
                            assert(current@ == start.cell(x as int, y as int));
                            assert forall|j: int| 0 <= j < before[ni as int]@.len() implies #[trigger] allowed@[before[ni as int]@[j] as int] by {
                                let w = before[ni as int]@[j];
                                assert(start.cell(nx as int, ny as int).contains(w));
                            }
                            assert(narrowed@ == before[ni as int]@);
                            assert(candidate_sets(*grid) =~= candidate_sets(g1));
                        }
                    }
                    if shrunk {
                        queue.push_back((nx, ny));
                        assert(queue@[queue@.len() - 1] == (nx, ny));
                    }
                    proof {
                        assert forall|a: usize, b: usize, dd: Direction|
                            grid.contains_cell(a as int, b as int) && arc_owed(*grid, start, adj, x as int, y as int, a as int, b as int, dd)
                                && !queue@.contains((a, b)) && !(a == cx && b == cy && dir_index(dd) >= k + 1)
                                implies #[trigger] arc_holds(*grid, adj, a as int, b as int, dd) by {
                            if a == cx && b == cy && dd == d {
                                assert forall|w: u8| #[trigger] grid.cell(nx as int, ny as int).contains(w)
                                    implies allowed_by(adj, grid.cell(cx as int, cy as int), d, w) by {
                                    assert(allowed@[w as int]);
                                }
                            } else if a == nx && b == ny {
                                assert(!shrunk);
                                assert(narrowed@ == before[ni as int]@);
                                assert(grid.cells@ =~= g1.cells@.update(ni as int, narrowed));
                                assert(forall|j: int| 0 <= j < g1.cells@.len() ==> #[trigger] grid.cells@[j]@ == g1.cells@[j]@);
                                assert(arc_owed(g1, start, adj, x as int, y as int, a as int, b as int, dd));
                                assert(!q1.contains((a, b)));
                                assert(arc_holds(g1, adj, a as int, b as int, dd));
                                match spec_neighbor(width as int, height as int, a as int, b as int, dd) {
                                    Some(n) => {
                                        lemma_index_bounds(width as int, height as int, n.0, n.1);
                                        lemma_index_bounds(width as int, height as int, a as int, b as int);
                                        assert forall|w: u8| #[trigger] grid.cell(n.0, n.1).contains(w)
                                            implies allowed_by(adj, grid.cell(a as int, b as int), dd, w) by {
                                            assert(g1.cell(n.0, n.1).contains(w));
                                        }
                                    },
                                    None => {},
                                }
                            } else {
                                if index_of(width as int, a as int, b as int) == ni {
                                    lemma_index_injective(width as int, a as int, b as int, nx as int, ny as int);
                                }
                                lemma_index_bounds(width as int, height as int, a as int, b as int);
                                assert(grid.cell(a as int, b as int) == g1.cell(a as int, b as int));
                                assert(arc_owed(g1, start, adj, x as int, y as int, a as int, b as int, dd));
                                if q1.contains((a, b)) {
                                    let j = choose|j: int| 0 <= j < q1.len() && q1[j] == (a, b);
                                    assert(queue@[j] == (a, b));
                                }
                                assert(arc_holds(g1, adj, a as int, b as int, dd));
                                lemma_arc_kept(g1, *grid, adj, ni as int, a as int, b as int, dd);
                            }
                        }
                    }
                },
                None => {
                    proof {
                        assert forall|a: usize, b: usize, dd: Direction|
                            grid.contains_cell(a as int, b as int) && arc_owed(*grid, start, adj, x as int, y as int, a as int, b as int, dd)
                                && !queue@.contains((a, b)) && !(a == cx && b == cy && dir_index(dd) >= k + 1)
                                implies #[trigger] arc_holds(*grid, adj, a as int, b as int, dd) by {
                            if a == cx && b == cy && dd == d {
                            } else {
                                assert(arc_holds(*grid, adj, a as int, b as int, dd));
                            }
                        }
                    }
                },
            }
            k += 1;
        }
    }
    proof {
        assert forall|a: int, b: int, d: Direction|
            start.contains_cell(a, b) && arc_owed(*grid, start, adj, x as int, y as int, a, b, d)
                implies #[trigger] arc_holds(*grid, adj, a, b, d) by {
            assert(queue@.len() == 0);
            assert(!queue@.contains((a as usize, b as usize)));
            assert(arc_holds(*grid, adj, (a as usize) as int, (b as usize) as int, d));
        }
    }
}

/// An element-by-element copy of `v`.
fn copy_levels(v: &Vec<u8>) -> (r: Vec<u8>)
    ensures
        r@ == v@,
{
    let mut r: Vec<u8> = Vec::new();
    let mut i: usize = 0;
    while i < v.len()
        invariant
            0 <= i <= v@.len(),
            r@ == v@.subrange(0, i as int),
        decreases v@.len() - i,
    {
        r.push(v[i]);
        i += 1;
        assert(r@ =~= v@.subrange(0, i as int));
    }
    assert(v@.subrange(0, v@.len() as int) =~= v@);
    r
}

/// Every cell has exactly one candidate left.
pub open spec fn all_collapsed(g: WaveGrid) -> bool {
    forall|x: int, y: int| #[trigger] g.contains_cell(x, y) ==> g.cell(x, y).len() == 1
}

/// The grid of levels that a solved wave grid stands for: row `y` holds the
/// sole candidate of each cell `(x, y)`. A cell without exactly one candidate
/// makes it a contradiction.
pub fn final_levels(grid: &WaveGrid) -> (r: Result<Vec<Vec<u8>>, GenerateError>)
    requires
        grid.wf(),
    ensures
        r is Ok <==> all_collapsed(*grid),
        r is Err ==> r == Err::<Vec<Vec<u8>>, GenerateError>(GenerateError::Contradiction),
        r matches Ok(rows) ==> {
            &&& rows@.len() == grid.height
            &&& forall|y: int| 0 <= y < grid.height ==> (#[trigger] rows@[y])@.len() == grid.width
            &&& forall|x: int, y: int|
                grid.contains_cell(x, y) ==> #[trigger] rows@[y]@[x] == grid.cell(x, y)[0]
        },
{
    let mut rows: Vec<Vec<u8>> = Vec::new();
    let mut y: usize = 0;
    while y < grid.height
        invariant
            grid.wf(),
            0 <= y <= grid.height,
            rows@.len() == y,
            forall|b: int| 0 <= b < y ==> (#[trigger] rows@[b])@.len() == grid.width,
            forall|a: int, b: int| 0 <= b < y && grid.contains_cell(a, b) ==> #[trigger] grid.cell(a, b).len() == 1,
            forall|a: int, b: int| 0 <= b < y && grid.contains_cell(a, b) ==> #[trigger] rows@[b]@[a] == grid.cell(a, b)[0],
        decreases grid.height - y,
    {
        let mut row: Vec<u8> = Vec::new();
        let mut x: usize = 0;
        while x < grid.width
            invariant
                grid.wf(),
                0 <= y < grid.height,
                0 <= x <= grid.width,
                row@.len() == x,
                forall|a: int| 0 <= a < x ==> #[trigger] grid.cell(a, y as int).len() == 1,
                forall|a: int| 0 <= a < x ==> #[trigger] row@[a] == grid.cell(a, y as int)[0],
            decreases grid.width - x,
        {
            let c = grid.candidates(x, y);
            if c.len() != 1 {
                proof {
                    assert(grid.contains_cell(x as int, y as int));
                }
                return Err(GenerateError::Contradiction);
            }
            row.push(c[0]);
            x += 1;
        }
        let ghost old_rows = rows@;
        rows.push(row);
        proof {
            assert forall|a: int, b: int| 0 <= b < y + 1 && grid.contains_cell(a, b) implies #[trigger] grid.cell(a, b).len() == 1 by {
                if b == y {
                    assert(grid.cell(a, y as int).len() == 1);
                }
            }
            assert forall|a: int, b: int| 0 <= b < y + 1 && grid.contains_cell(a, b) implies #[trigger] rows@[b]@[a] == grid.cell(a, b)[0] by {
                if b == y {
                    assert(row@[a] == grid.cell(a, y as int)[0]);
                } else {
                    assert(rows@[b] == old_rows[b]);
                }
            }
            assert forall|b: int| 0 <= b < y + 1 implies (#[trigger] rows@[b])@.len() == grid.width by {
                if b < y {
                    assert(rows@[b] == old_rows[b]);
                }
            }
        }
        y += 1;
    }
    assert forall|a: int, b: int| #[trigger] grid.contains_cell(a, b) implies grid.cell(a, b).len() == 1 by {}
    Ok(rows)
}

/// The configuration cannot describe a run: a zero dimension or no levels.
pub open spec fn is_invalid_config(c: &Config) -> bool {
    c.output_width == 0 || c.output_height == 0 || c.tile_size == 0 || c.luminance_levels == 0
}

/// Output width in cells: `output_width * tile_size`.
pub open spec fn output_columns(c: &Config) -> int {
    c.output_width * c.tile_size
}

/// Output height in cells: `output_height * tile_size`.
pub open spec fn output_rows(c: &Config) -> int {
    c.output_height * c.tile_size
}

/// The output grid's sides do not fit in `u32`, or its cell count in `usize`.
pub open spec fn is_too_large(c: &Config) -> bool {
    output_columns(c) > u32::MAX || output_rows(c) > u32::MAX || output_columns(c) * output_rows(c)
        > usize::MAX
}

/// The model allows level `b` in direction `d` of a cell of level `a`.
pub open spec fn pair_allowed(adj: Map<u8, DirectionalRules>, a: u8, d: Direction, b: u8) -> bool {
    adj.contains_key(a) && adj[a].spec_levels(d).contains(b)
}

/// In a `width` by `height` grid of levels, every cell's neighbour in each
/// direction holds a level that the model allows there.
pub open spec fn is_consistent_output(rows: Seq<Vec<u8>>, adj: Map<u8, DirectionalRules>, width: int, height: int) -> bool {
    forall|x: int, y: int, d: Direction|
        0 <= x < width && 0 <= y < height && spec_neighbor(width, height, x, y, d) is Some ==> #[trigger] pair_allowed(
            adj,
            rows[y]@[x],
            d,
            rows[y + d.dy()]@[x + d.dx()],
        )
}

/// The model allows every level of `1..=levels` next to every such level,
/// in every direction.
pub open spec fn allows_everything(adj: Map<u8, DirectionalRules>, levels: u8) -> bool {
    forall|v: u8, d: Direction, w: u8| 1 <= v <= levels && 1 <= w <= levels ==> #[trigger] pair_allowed(adj, v, d, w)
}

/// The candidates of every cell, by position in `cells`.
pub open spec fn candidate_sets(g: WaveGrid) -> Seq<Seq<u8>> {
    g.cells@.map_values(|c: Vec<u8>| c@)
}

/// A grid of one cell, or one whose model allows everything, is a stable
/// sub-grid of itself while no cell is empty.
proof fn lemma_nonempty_grid_stable(g: WaveGrid, adj: Map<u8, DirectionalRules>)
    requires
        g.wf(),
        forall|i: int| 0 <= i < g.cells@.len() ==> #[trigger] g.cells@[i]@.len() >= 1,
        g.width * g.height == 1 || allows_everything(adj, g.levels),
    ensures
        is_stable_subgrid(g, adj, candidate_sets(g)),
{
    let s = candidate_sets(g);
    assert forall|x: int, y: int, d: Direction, w: u8|
        g.contains_cell(x, y) && spec_neighbor(g.width as int, g.height as int, x, y, d) is Some && #[trigger] s[index_of(
            g.width as int,
            x + d.dx(),
            y + d.dy(),
        )].contains(w) implies #[trigger] allowed_by(adj, s[index_of(g.width as int, x, y)], d, w) by {
        let nx = x + d.dx();
        let ny = y + d.dy();
        if g.width * g.height == 1 {
            assert(g.width == 1 && g.height == 1) by (nonlinear_arith)
                requires
                    g.width * g.height == 1,
                    0 <= x < g.width,
                    0 <= y < g.height,
            ;
            match d {
                Direction::Top => {},
                Direction::Bottom => {},
                Direction::Left => {},
                Direction::Right => {},
            }
        } else {
            lemma_index_bounds(g.width as int, g.height as int, x, y);
            lemma_index_bounds(g.width as int, g.height as int, nx, ny);
            let ci = index_of(g.width as int, x, y);
            let ni = index_of(g.width as int, nx, ny);
            let j = choose|j: int| 0 <= j < s[ni].len() && s[ni][j] == w;
            assert(1 <= g.cells@[ni]@[j] <= g.levels);
            assert(1 <= g.cells@[ci]@[0] <= g.levels);
            assert(pair_allowed(adj, s[ci][0], d, w));
        }
    }
}

/// What a generation run returns: each configuration error exactly when the
/// configuration has it; otherwise an output of the configured size with
/// levels in `1..=luminance_levels`, which with more than one level is
/// consistent with the model; or a contradiction. The output is always
/// produced when there is a single level, a single cell, or a model that
/// allows every level next to every level.
pub open spec fn generation_outcome(
    config: &Config,
    adj: Map<u8, DirectionalRules>,
    r: Result<Vec<Vec<u8>>, GenerateError>,
) -> bool {
    &&& r == Err::<Vec<Vec<u8>>, GenerateError>(GenerateError::InvalidConfig) <==> is_invalid_config(config)
    &&& r == Err::<Vec<Vec<u8>>, GenerateError>(GenerateError::TooLarge) <==> !is_invalid_config(config)
        && is_too_large(config)
    &&& r == Err::<Vec<Vec<u8>>, GenerateError>(GenerateError::Contradiction) ==> !is_invalid_config(config)
        && !is_too_large(config) && config.luminance_levels >= 2
    &&& !is_invalid_config(config) && !is_too_large(config) && (output_columns(config) * output_rows(config) == 1
        || allows_everything(adj, config.luminance_levels)) ==> r is Ok
    &&& r matches Ok(rows) ==> {
        &&& rows@.len() == output_rows(config)
        &&& forall|y: int| 0 <= y < rows@.len() ==> (#[trigger] rows@[y])@.len() == output_columns(config)
        &&& forall|y: int, x: int|
            0 <= y < rows@.len() && 0 <= x < rows@[y]@.len() ==> 1 <= #[trigger] rows@[y]@[x] <= config.luminance_levels
        &&& config.luminance_levels >= 2 ==> is_consistent_output(rows@, adj, output_columns(config), output_rows(config))
    }
}

/// Every arc is consistent or comes out of an open cell.
pub open spec fn arcs_settled_or_open(g: WaveGrid, adj: Map<u8, DirectionalRules>) -> bool {
    forall|a: int, b: int, d: Direction|
        g.contains_cell(a, b) ==> #[trigger] arc_holds(g, adj, a, b, d) || g.is_open(a, b)
}

/// A collapse of `(x, y)` followed by propagation from it keeps every arc
/// consistent or out of an open cell.
proof fn lemma_step_settles(g0: WaveGrid, g1: WaveGrid, g2: WaveGrid, adj: Map<u8, DirectionalRules>, x: int, y: int)
    requires
        g0.wf(),
        g1.wf(),
        g0.contains_cell(x, y),
        g1.width == g0.width,
        g1.height == g0.height,
        g2.width == g0.width,
        g2.height == g0.height,
        g1.cells@ == g0.cells@.update(index_of(g0.width as int, x, y), g1.cells@[index_of(g0.width as int, x, y)]),
        shrinks(g1.cells@, g0.cells@),
        shrinks(g2.cells@, g1.cells@),
        forall|a: int, b: int, d: Direction|
            g1.contains_cell(a, b) && arc_owed(g2, g1, adj, x, y, a, b, d) ==> #[trigger] arc_holds(g2, adj, a, b, d),
        arcs_settled_or_open(g0, adj),
    ensures
        arcs_settled_or_open(g2, adj),
{
    let i = index_of(g0.width as int, x, y);
    lemma_index_bounds(g0.width as int, g0.height as int, x, y);
    assert forall|a: int, b: int, d: Direction| g2.contains_cell(a, b) implies #[trigger] arc_holds(g2, adj, a, b, d)
        || g2.is_open(a, b) by {
        lemma_index_bounds(g0.width as int, g0.height as int, a, b);
        let j = index_of(g0.width as int, a, b);
        assert(g2.cells@[j]@.len() <= g1.cells@[j]@.len());
        if a == x && b == y {
            assert(arc_owed(g2, g1, adj, x, y, a, b, d));
        } else if g2.cell(a, b).len() < g1.cell(a, b).len() {
            assert(arc_owed(g2, g1, adj, x, y, a, b, d));
        } else {
            if j == i {
                lemma_index_injective(g0.width as int, a, b, x, y);
            }
            assert(g1.cells@[j] == g0.cells@[j]);
            if !g0.is_open(a, b) {
                assert(arc_holds(g0, adj, a, b, d));
                assert forall|w: u8| #[trigger] g1.cells@[i]@.contains(w) implies g0.cells@[i]@.contains(w) by {}
                assert forall|k: int| 0 <= k < g0.cells@.len() && k != i implies #[trigger] g1.cells@[k]@ == g0.cells@[k]@ by {
                    assert(g1.cells@[k] == g0.cells@[k]);
                }
                lemma_arc_kept(g0, g1, adj, i, a, b, d);
                assert(arc_owed(g2, g1, adj, x, y, a, b, d));
            }
        }
    }
}

/// Runs the solver on a fresh `output_width * tile_size` by
/// `output_height * tile_size` grid of all levels `1..=luminance_levels`:
/// while some cell is open, one of least entropy is collapsed to a random
/// candidate and the change is propagated; then the sole candidate of every
/// cell is read out.
pub fn generate_output(config: &Config, adjacency: &HashMap<u8, DirectionalRules>) -> (r: Result<
    Vec<Vec<u8>>,
    GenerateError,
>)
    ensures
        generation_outcome(config, adjacency@, r),
{
    if config.output_width == 0 || config.output_height == 0 || config.tile_size == 0
        || config.luminance_levels == 0 {
        return Err(GenerateError::InvalidConfig);
    }
    let width = match config.output_width.checked_mul(config.tile_size) {
        Some(w) => w as usize,
        None => {
            return Err(GenerateError::TooLarge);
        },
    };
    let height = match config.output_height.checked_mul(config.tile_size) {
        Some(h) => h as usize,
        None => {
            return Err(GenerateError::TooLarge);
        },
    };
    if width.checked_mul(height).is_none() {
        return Err(GenerateError::TooLarge);
    }
    let ghost adj = adjacency@;
    let mut grid = WaveGrid::new(width, height, config.luminance_levels);
    let mut done = false;
    while !done
        invariant
            grid.wf(),
            grid.width == width,
            grid.height == height,
            grid.levels == config.luminance_levels,
            adj == adjacency@,
            config.luminance_levels >= 2 ==> arcs_settled_or_open(grid, adj),
            config.luminance_levels == 1 ==> all_collapsed(grid),
            (width * height == 1 || allows_everything(adj, config.luminance_levels)) ==> forall|i: int|
                0 <= i < grid.cells@.len() ==> #[trigger] grid.cells@[i]@.len() >= 1,
            done ==> forall|a: int, b: int| !#[trigger] grid.is_open(a, b),
        decreases total_candidates(grid.cells@) + if done { 0nat } else { 1nat },
    {
        match find_least_entropy_cell(&grid) {
            Some((x, y)) => {
                let n = grid.entropy(x, y);
                match choose_index(n) {
                    Some(k) => {
                        let ghost g0 = grid;
                        collapse_cell(&mut grid, x, y, k);
                        let ghost g1 = grid;
                        proof {
                            if width * height == 1 || allows_everything(adj, config.luminance_levels) {
                                assert forall|i: int| 0 <= i < g1.cells@.len() implies #[trigger] g1.cells@[i]@.len() >= 1 by {
                                    lemma_index_bounds(width as int, height as int, x as int, y as int);
                                    if i != index_of(width as int, x as int, y as int) {
                                        assert(g1.cells@[i] == g0.cells@[i]);
                                        assert(g0.cells@[i]@.len() >= 1);
                                    }
                                }
                                lemma_nonempty_grid_stable(g1, adj);
                            }
                        }
                        propagate(&mut grid, x, y, adjacency);
                        proof {
                            lemma_total_shrinks(grid.cells@, g1.cells@);
                            if width * height == 1 || allows_everything(adj, config.luminance_levels) {
                                let st = candidate_sets(g1);
                                assert(keeps(grid, st));
                                assert forall|i: int| 0 <= i < grid.cells@.len() implies #[trigger] grid.cells@[i]@.len() >= 1 by {
                                    assert(st[i].contains(st[i][0]));
                                    assert(grid.cells@[i]@.contains(st[i][0]));
                                }
                            }
                            if config.luminance_levels >= 2 {
                                lemma_step_settles(g0, g1, grid, adj, x as int, y as int);
                            }
                        }
                    },
                    None => {
                        done = true;
                    },
                }
            },
            None => {
                done = true;
            },
        }
    }
    proof {
        if width * height == 1 || allows_everything(adj, config.luminance_levels) {
            assert forall|a: int, b: int| #[trigger] grid.contains_cell(a, b) implies grid.cell(a, b).len() == 1 by {
                lemma_index_bounds(width as int, height as int, a, b);
                assert(!grid.is_open(a, b));
                assert(grid.cells@[index_of(width as int, a, b)]@.len() >= 1);
            }
        }
    }
    let r = final_levels(&grid);
    proof {
        if r is Ok {
            let rows = r->Ok_0;
            assert forall|y: int, x: int| 0 <= y < rows@.len() && 0 <= x < rows@[y]@.len() implies 1
                <= #[trigger] rows@[y]@[x] <= config.luminance_levels by {
                assert(grid.contains_cell(x, y));
                lemma_index_bounds(width as int, height as int, x, y);
                assert(grid.cell(x, y).len() == 1);
            }
            if config.luminance_levels >= 2 {
                assert forall|x: int, y: int, d: Direction|
                    0 <= x < width && 0 <= y < height && spec_neighbor(width as int, height as int, x, y, d) is Some
                        implies #[trigger] pair_allowed(adj, rows@[y]@[x], d, rows@[y + d.dy()]@[x + d.dx()]) by {
                    assert(grid.contains_cell(x, y));
                    assert(!grid.is_open(x, y));
                    assert(arc_holds(grid, adj, x, y, d));
                    let nx = x + d.dx();
                    let ny = y + d.dy();
                    assert(grid.contains_cell(nx, ny));
                    assert(grid.cell(nx, ny).len() == 1);
                    assert(grid.cell(x, y).len() == 1);
                    assert(grid.cell(nx, ny).contains(grid.cell(nx, ny)[0]));
                    assert(rows@[ny]@[nx] == grid.cell(nx, ny)[0]);
                    assert(rows@[y]@[x] == grid.cell(x, y)[0]);
                    assert(spec_neighbor(grid.width as int, grid.height as int, x, y, d) == Some((nx, ny)));
                    let w = grid.cell(nx, ny)[0];
                    match spec_neighbor(grid.width as int, grid.height as int, x, y, d) {
                        Some(n) => {
                            assert(n == (nx, ny));
                            assert(grid.cell(n.0, n.1).contains(w));
                        },
                        None => {},
                    }
                    assert(allowed_by(adj, grid.cell(x, y), d, rows@[ny]@[nx]));
                }
            }
        }
    }
    r
}

/// Some direction leads from `(x, y)` to another cell of a grid with at
/// least two cells.
proof fn lemma_some_neighbor(width: int, height: int, x: int, y: int) -> (d: Direction)
    requires
        0 <= x < width,
        0 <= y < height,
        width * height >= 2,
    ensures
        spec_neighbor(width, height, x, y, d) is Some,
{
    if width >= 2 {
        if x + 1 < width {
            Direction::Right
        } else {
            Direction::Left
        }
    } else {
        assert(width == 1);
        assert(height >= 2);
        if y + 1 < height {
            Direction::Bottom
        } else {
            Direction::Top
        }
    }
}

/// A sample whose cells are all level 1 yields only level 1: with a single
/// level a run always succeeds, and a successful run on an output of two or
/// more cells, or with a single level, holds level 1 in every cell.
pub proof fn lemma_uniform_sample_yields_uniform_output(
    g: Seq<Seq<u8>>,
    adj: Map<u8, DirectionalRules>,
    config: &Config,
    r: Result<Vec<Vec<u8>>, GenerateError>,
)
    requires
        is_sample_grid(g),
        forall|y: int, x: int| in_grid(g, y, x) ==> #[trigger] g[y][x] == 1,
        is_model_of(g, adj),
        generation_outcome(config, adj, r),
    ensures
        config.luminance_levels == 1 && !is_invalid_config(config) && !is_too_large(config) ==> r is Ok,
        r matches Ok(rows) ==> (config.luminance_levels == 1 || output_columns(config) * output_rows(config) >= 2)
            ==> forall|y: int, x: int|
            0 <= y < rows@.len() && 0 <= x < rows@[y]@.len() ==> #[trigger] rows@[y]@[x] == 1,
{
    if r is Err {
        let e = r->Err_0;
        assert(r == Err::<Vec<Vec<u8>>, GenerateError>(e));
        match e {
            GenerateError::InvalidConfig => {},
            GenerateError::TooLarge => {},
            GenerateError::Contradiction => {},
        }
    }
    if r is Ok {
        let rows = r->Ok_0;
        let w = output_columns(config);
        let h = output_rows(config);
        if config.luminance_levels >= 2 && w * h >= 2 {
            assert forall|y: int, x: int| 0 <= y < rows@.len() && 0 <= x < rows@[y]@.len() implies #[trigger] rows@[y]@[x]
                == 1 by {
                let d = lemma_some_neighbor(w, h, x, y);
                assert(pair_allowed(adj, rows@[y]@[x], d, rows@[y + d.dy()]@[x + d.dx()]));
                let v = rows@[y]@[x];
                assert(adj.contains_key(v));
                assert(occurs_before(g, v, g.len() as int, 0));
                let (py, px) = choose|py: int, px: int|
                    in_grid(g, py, px) && crate::utils::scanned_before(py, px, g.len() as int, 0) && #[trigger] g[py][px] == v;
                assert(g[py][px] == 1);
            }
        }
    }
}

/// A sample of a single cell gives a model with no neighbour in any
/// direction, so a run with two or more levels on an output of two or more
/// cells always ends in a contradiction.
pub proof fn lemma_isolated_level_contradicts(
    g: Seq<Seq<u8>>,
    adj: Map<u8, DirectionalRules>,
    config: &Config,
    r: Result<Vec<Vec<u8>>, GenerateError>,
)
    requires
        is_sample_grid(g),
        g.len() == 1,
        g[0].len() == 1,
        is_model_of(g, adj),
        generation_outcome(config, adj, r),
        !is_invalid_config(config),
        !is_too_large(config),
        config.luminance_levels >= 2,
        output_columns(config) * output_rows(config) >= 2,
    ensures
        r == Err::<Vec<Vec<u8>>, GenerateError>(GenerateError::Contradiction),
{
    if r is Err {
        let e = r->Err_0;
        assert(r == Err::<Vec<Vec<u8>>, GenerateError>(e));
        match e {
            GenerateError::InvalidConfig => {},
            GenerateError::TooLarge => {},
            GenerateError::Contradiction => {},
        }
    }
    if r is Ok {
        let rows = r->Ok_0;
        let w = output_columns(config);
        let h = output_rows(config);
        assert(w >= 1 && h >= 1) by (nonlinear_arith)
            requires
                w >= 0,
                h >= 0,
                w * h >= 2,
        ;
        let d = lemma_some_neighbor(w, h, 0, 0);
        let v = rows@[0]@[0];
        let u = rows@[0 + d.dy()]@[0 + d.dx()];
        assert(pair_allowed(adj, v, d, u));
        assert(adjacent_before(g, v, d, u, g.len() as int, 0));
        let (py, px) = choose|py: int, px: int|
            {
                &&& in_grid(g, py, px)
                &&& crate::utils::scanned_before(py, px, g.len() as int, 0)
                &&& in_grid(g, py + d.dy(), px + d.dx())
                &&& #[trigger] g[py][px] == v
                &&& #[trigger] g[py + d.dy()][px + d.dx()] == u
            };
        assert(false);
    }
}

/// A sample in which no two neighbouring cells share a level (such as a
/// checkerboard) yields, on a successful run with two or more levels, an
/// output in which no two neighbouring cells share a level either.
pub proof fn lemma_alternating_sample_yields_alternating_output(
    g: Seq<Seq<u8>>,
    adj: Map<u8, DirectionalRules>,
    config: &Config,
    r: Result<Vec<Vec<u8>>, GenerateError>,
)
    requires
        is_sample_grid(g),
        forall|y: int, x: int, d: Direction|
            in_grid(g, y, x) && in_grid(g, y + d.dy(), x + d.dx()) ==> #[trigger] g[y][x] != #[trigger] g[y
                + d.dy()][x + d.dx()],
        is_model_of(g, adj),
        generation_outcome(config, adj, r),
        config.luminance_levels >= 2,
    ensures
        r matches Ok(rows) ==> forall|x: int, y: int, d: Direction|
            0 <= x < output_columns(config) && 0 <= y < output_rows(config) && spec_neighbor(
                output_columns(config),
                output_rows(config),
                x,
                y,
                d,
            ) is Some ==> #[trigger] rows@[y]@[x] != #[trigger] rows@[y + d.dy()]@[x + d.dx()],
{
    if r is Ok {
        let rows = r->Ok_0;
        let w = output_columns(config);
        let h = output_rows(config);
        assert forall|x: int, y: int, d: Direction|
            0 <= x < w && 0 <= y < h && spec_neighbor(w, h, x, y, d) is Some implies #[trigger] rows@[y]@[x]
                != #[trigger] rows@[y + d.dy()]@[x + d.dx()] by {
            let v = rows@[y]@[x];
            let u = rows@[y + d.dy()]@[x + d.dx()];
            assert(pair_allowed(adj, v, d, u));
            assert(adjacent_before(g, v, d, u, g.len() as int, 0));
            let (py, px) = choose|py: int, px: int|
                {
                    &&& in_grid(g, py, px)
                    &&& crate::utils::scanned_before(py, px, g.len() as int, 0)
                    &&& in_grid(g, py + d.dy(), px + d.dx())
                    &&& #[trigger] g[py][px] == v
                    &&& #[trigger] g[py + d.dy()][px + d.dx()] == u
                };
            assert(g[py][px] != g[py + d.dy()][px + d.dx()]);
        }
    }
}

} // verus!
