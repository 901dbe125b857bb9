//! Building the adjacency model from a sample grid of levels.
use std::collections::HashMap;
use vstd::prelude::*;

use crate::config::{Direction, DirectionalRules};

verus! {

broadcast use vstd::std_specs::hash::group_hash_axioms;

/// The rows of a grid, as sequences of levels.
pub open spec fn levels_of(grid: Seq<Vec<u8>>) -> Seq<Seq<u8>> {
    grid.map_values(|row: Vec<u8>| row@)
}

/// A sample grid: at least one cell, every row as long as the first.
pub open spec fn is_sample_grid(g: Seq<Seq<u8>>) -> bool {
    &&& g.len() > 0
    &&& g[0].len() > 0
    &&& forall|y: int| 0 <= y < g.len() ==> #[trigger] g[y].len() == g[0].len()
}

/// `(y, x)` is a cell of the grid.
pub open spec fn in_grid(g: Seq<Seq<u8>>, y: int, x: int) -> bool {
    0 <= y < g.len() && 0 <= x < g[0].len()
}

/// Cell `(y, x)` comes before `(sy, sx)` in row-major order.
pub open spec fn scanned_before(y: int, x: int, sy: int, sx: int) -> bool {
    y < sy || (y == sy && x < sx)
}

/// Level `v` occurs in a cell that comes before `(sy, sx)`.
pub open spec fn occurs_before(g: Seq<Seq<u8>>, v: u8, sy: int, sx: int) -> bool {
    exists|y: int, x: int|
        in_grid(g, y, x) && scanned_before(y, x, sy, sx) && #[trigger] g[y][x] == v
}

/// A cell of level `v` that comes before `(sy, sx)` has a neighbour of
/// level `w` in direction `d`.
pub open spec fn adjacent_before(
    g: Seq<Seq<u8>>,
    v: u8,
    d: Direction,
    w: u8,
    sy: int,
    sx: int,
) -> bool {
    exists|y: int, x: int|
        {
            &&& in_grid(g, y, x)
            &&& scanned_before(y, x, sy, sx)
            &&& in_grid(g, y + d.dy(), x + d.dx())
            &&& #[trigger] g[y][x] == v
            &&& #[trigger] g[y + d.dy()][x + d.dx()] == w
        }
}

/// Level `v` occurs somewhere in the grid.
pub open spec fn occurs(g: Seq<Seq<u8>>, v: u8) -> bool {
    occurs_before(g, v, g.len() as int, 0)
}

/// Some cell of level `v` has a neighbour of level `w` in direction `d`.
pub open spec fn adjacent(g: Seq<Seq<u8>>, v: u8, d: Direction, w: u8) -> bool {
    adjacent_before(g, v, d, w, g.len() as int, 0)
}

/// `m` records exactly what a scan of the cells before `(sy, sx)` observed:
/// an entry for each level seen, and for each direction the levels seen next
/// to it there, each once.
pub open spec fn is_model_before(g: Seq<Seq<u8>>, m: Map<u8, DirectionalRules>, sy: int, sx: int) -> bool {
    &&& forall|v: u8| #[trigger] m.contains_key(v) <==> occurs_before(g, v, sy, sx)
    &&& forall|v: u8, d: Direction, w: u8|
        m.contains_key(v) ==> (#[trigger] m[v].spec_levels(d).contains(w) <==> adjacent_before(
            g,
            v,
            d,
            w,
            sy,
            sx,
        ))
    &&& forall|v: u8, d: Direction| m.contains_key(v) ==> #[trigger] m[v].spec_levels(d).no_duplicates()
}

/// `m` is the adjacency model of the whole grid `g`.
pub open spec fn is_model_of(g: Seq<Seq<u8>>, m: Map<u8, DirectionalRules>) -> bool {
    is_model_before(g, m, g.len() as int, 0)
}

/// Adds `w` to the levels in `v`, unless it is there already.
fn add_level(v: &mut Vec<u8>, w: u8)
    ensures
        forall|u: u8| #[trigger] final(v)@.contains(u) <==> old(v)@.contains(u) || u == w,
        old(v)@.no_duplicates() ==> final(v)@.no_duplicates(),
{
    let mut i: usize = 0;
    while i < v.len()
        invariant
            0 <= i <= v.len(),
            forall|j: int| 0 <= j < i ==> v@[j] != w,
        decreases v.len() - i,
    {
        if v[i] == w {
            return;
        }
        i += 1;
    }
    v.push(w);
    proof {
        assert forall|u: u8| #[trigger] v@.contains(u) <==> old(v)@.contains(u) || u == w by {
            if old(v)@.contains(u) {
                let j = choose|j: int| 0 <= j < old(v)@.len() && old(v)@[j] == u;
                assert(v@[j] == u);
            }
            if u == w {
                assert(v@[v@.len() - 1] == u);
            }
        }
    }
}

proof fn lemma_scan_step(
    g: Seq<Seq<u8>>,
    m: Map<u8, DirectionalRules>,
    e: DirectionalRules,
    y: int,
    x: int,
)
    requires
        is_sample_grid(g),
        in_grid(g, y, x),
        is_model_before(g, m, y, x),
        forall|d: Direction| #[trigger] e.spec_levels(d).no_duplicates(),
        forall|d: Direction, w: u8|
            #[trigger] e.spec_levels(d).contains(w) <==> (m.contains_key(g[y][x]) && m[g[y][x]].spec_levels(d).contains(w))
                || (in_grid(g, y + d.dy(), x + d.dx()) && w == g[y + d.dy()][x + d.dx()]),
    ensures
        is_model_before(g, m.insert(g[y][x], e), y, x + 1),
{
    let c = g[y][x];
    let m2 = m.insert(c, e);
    assert forall|v: u8| #[trigger] m2.contains_key(v) <==> occurs_before(g, v, y, x + 1) by {
        if occurs_before(g, v, y, x + 1) && v != c {
            let (py, px) = choose|py: int, px: int|
                in_grid(g, py, px) && scanned_before(py, px, y, x + 1) && #[trigger] g[py][px] == v;
            assert(scanned_before(py, px, y, x));
        }
        if v == c {
            assert(in_grid(g, y, x) && scanned_before(y, x, y, x + 1) && g[y][x] == v);
        } else if occurs_before(g, v, y, x) {
            let (py, px) = choose|py: int, px: int|
                in_grid(g, py, px) && scanned_before(py, px, y, x) && #[trigger] g[py][px] == v;
            assert(scanned_before(py, px, y, x + 1));
        }
    }
    assert forall|v: u8, d: Direction, w: u8| m2.contains_key(v) implies (
    #[trigger] m2[v].spec_levels(d).contains(w) <==> adjacent_before(g, v, d, w, y, x + 1)) by {
        if adjacent_before(g, v, d, w, y, x + 1) {
            let (py, px) = choose|py: int, px: int|
                {
                    &&& in_grid(g, py, px)
                    &&& scanned_before(py, px, y, x + 1)
                    &&& in_grid(g, py + d.dy(), px + d.dx())
                    &&& #[trigger] g[py][px] == v
                    &&& #[trigger] g[py + d.dy()][px + d.dx()] == w
                };
            if py != y || px != x {
                assert(scanned_before(py, px, y, x));
                assert(adjacent_before(g, v, d, w, y, x));
            }
        }
        if adjacent_before(g, v, d, w, y, x) {
            let (py, px) = choose|py: int, px: int|
                {
                    &&& in_grid(g, py, px)
                    &&& scanned_before(py, px, y, x)
                    &&& in_grid(g, py + d.dy(), px + d.dx())
                    &&& #[trigger] g[py][px] == v
                    &&& #[trigger] g[py + d.dy()][px + d.dx()] == w
                };
            assert(scanned_before(py, px, y, x + 1));
            assert(occurs_before(g, v, y, x));
        }
        if v == c && in_grid(g, y + d.dy(), x + d.dx()) && w == g[y + d.dy()][x + d.dx()] {
            assert(scanned_before(y, x, y, x + 1));
        }
    }
}

proof fn lemma_next_row(g: Seq<Seq<u8>>, m: Map<u8, DirectionalRules>, y: int)
    requires
        is_sample_grid(g),
        0 <= y < g.len(),
        is_model_before(g, m, y, g[0].len() as int),
    ensures
        is_model_before(g, m, y + 1, 0),
{
    let w = g[0].len() as int;
    assert forall|py: int, px: int| in_grid(g, py, px) implies scanned_before(py, px, y, w)
        == scanned_before(py, px, y + 1, 0) by {}
    assert forall|v: u8| occurs_before(g, v, y, w) == occurs_before(g, v, y + 1, 0) by {
        if occurs_before(g, v, y + 1, 0) {
            let (py, px) = choose|py: int, px: int|
                in_grid(g, py, px) && scanned_before(py, px, y + 1, 0) && #[trigger] g[py][px] == v;
            assert(scanned_before(py, px, y, w));
        }
    }
    assert forall|v: u8, d: Direction, u: u8| adjacent_before(g, v, d, u, y, w)
        == adjacent_before(g, v, d, u, y + 1, 0) by {
        if adjacent_before(g, v, d, u, y + 1, 0) {
            let (py, px) = choose|py: int, px: int|
                {
                    &&& in_grid(g, py, px)
                    &&& scanned_before(py, px, y + 1, 0)
                    &&& in_grid(g, py + d.dy(), px + d.dx())
                    &&& #[trigger] g[py][px] == v
                    &&& #[trigger] g[py + d.dy()][px + d.dx()] == u
                };
            assert(scanned_before(py, px, y, w));
        }
    }
}

/// Scans every cell of `grid` and records, for each level that occurs, the
/// levels found next to it in each direction.
pub fn extract_directional_rules(grid: &[Vec<u8>]) -> (rules: HashMap<u8, DirectionalRules>)
    requires
        is_sample_grid(levels_of(grid@)),
    ensures
        is_model_of(levels_of(grid@), rules@),
{
    let ghost g = levels_of(grid@);
    let height = grid.len();
    let width = grid[0].len();
    let mut rules: HashMap<u8, DirectionalRules> = HashMap::new();
    let mut y: usize = 0;
    while y < height
        invariant
            g == levels_of(grid@),
            is_sample_grid(g),
            height == g.len(),
            width == g[0].len(),
            0 <= y <= height,
            is_model_before(g, rules@, y as int, 0),
        decreases height - y,
    {
        let mut x: usize = 0;
        while x < width
            invariant
                g == levels_of(grid@),
                is_sample_grid(g),
                height == g.len(),
                width == g[0].len(),
                0 <= y < height,
                0 <= x <= width,
                is_model_before(g, rules@, y as int, x as int),
            decreases width - x,
        {
            assert(g[y as int].len() == width);
            let current = grid[y][x];
            let ghost m = rules@;
            let mut entry = match rules.remove(&current) {
                Some(e) => e,
                None => DirectionalRules::new(),
            };
            let ghost before = entry;
            proof {
                if m.contains_key(current) {
                    assert(before == m[current]);
                }
                assert forall|d: Direction| #[trigger] before.spec_levels(d).no_duplicates() by {
                    if !m.contains_key(current) {
                        assert(before.spec_levels(d).len() == 0);
                    }
                }
                assert(before.top@.no_duplicates() && before.bottom@.no_duplicates()
                    && before.left@.no_duplicates() && before.right@.no_duplicates()) by {
                    assert(before.spec_levels(Direction::Top).no_duplicates());
                    assert(before.spec_levels(Direction::Bottom).no_duplicates());
                    assert(before.spec_levels(Direction::Left).no_duplicates());
                    assert(before.spec_levels(Direction::Right).no_duplicates());
                }
            }
            if y > 0 {
                assert(g[y - 1].len() == width);
                add_level(&mut entry.top, grid[y - 1][x]);
            }
            if y + 1 < height {
                assert(g[y + 1].len() == width);
                add_level(&mut entry.bottom, grid[y + 1][x]);
            }
            if x > 0 {
                add_level(&mut entry.left, grid[y][x - 1]);
            }
            if x + 1 < width {
                add_level(&mut entry.right, grid[y][x + 1]);
            }
            proof {
                let yi = y as int;
                let xi = x as int;
                assert(forall|u: u8| #[trigger] entry.top@.contains(u) <==> before.top@.contains(u)
                    || (yi > 0 && u == g[yi - 1][xi]));
                assert(forall|u: u8| #[trigger] entry.bottom@.contains(u) <==> before.bottom@.contains(u)
                    || (yi + 1 < g.len() && u == g[yi + 1][xi]));
                assert(forall|u: u8| #[trigger] entry.left@.contains(u) <==> before.left@.contains(u)
                    || (xi > 0 && u == g[yi][xi - 1]));
                assert(forall|u: u8| #[trigger] entry.right@.contains(u) <==> before.right@.contains(u)
                    || (xi + 1 < g[0].len() && u == g[yi][xi + 1]));
                assert forall|d: Direction| #[trigger] entry.spec_levels(d).no_duplicates() by {
                    match d {
                        Direction::Top => {},
                        Direction::Bottom => {},
                        Direction::Left => {},
                        Direction::Right => {},
                    }
                }
                assert forall|d: Direction, w: u8| #[trigger] entry.spec_levels(d).contains(w) <==> (
                m.contains_key(g[yi][xi]) && m[g[yi][xi]].spec_levels(d).contains(w)) || (in_grid(
                    g,
                    yi + d.dy(),
                    xi + d.dx(),
                ) && w == g[yi + d.dy()][xi + d.dx()]) by {
                    if !m.contains_key(current) {
                        assert(!before.spec_levels(d).contains(w));
                    }
                    match d {
                        Direction::Top => {},
                        Direction::Bottom => {},
                        Direction::Left => {},
                        Direction::Right => {},
                    }
                }
                lemma_scan_step(g, m, entry, y as int, x as int);
            }
            rules.insert(current, entry);
            assert(rules@ =~= m.insert(current, entry));
            x += 1;
        }
        proof {
            lemma_next_row(g, rules@, y as int);
        }
        y += 1;
    }
    rules
}

/// Two models of the same sample grid hold the same content: the same
/// levels, and for each level and direction the same set of neighbours. So
/// building the model twice from one grid gives identical models.
pub proof fn lemma_model_is_determined(
    g: Seq<Seq<u8>>,
    m1: Map<u8, DirectionalRules>,
    m2: Map<u8, DirectionalRules>,
)
    requires
        is_model_of(g, m1),
        is_model_of(g, m2),
    ensures
        m1.dom() == m2.dom(),
        forall|v: u8, d: Direction|
            m1.contains_key(v) ==> #[trigger] m1[v].spec_levels(d).to_set() == m2[v].spec_levels(d).to_set(),
{
    assert(m1.dom() =~= m2.dom());
    assert forall|v: u8, d: Direction| m1.contains_key(v) implies #[trigger] m1[v].spec_levels(d).to_set()
        == m2[v].spec_levels(d).to_set() by {
        assert forall|w: u8| m1[v].spec_levels(d).to_set().contains(w) == m2[v].spec_levels(d).to_set().contains(
            w,
        ) by {
            assert(m1[v].spec_levels(d).contains(w) == adjacent(g, v, d, w));
            assert(m2[v].spec_levels(d).contains(w) == adjacent(g, v, d, w));
        }
        assert(m1[v].spec_levels(d).to_set() =~= m2[v].spec_levels(d).to_set());
    }
}

} // verus!
