//! Numbering the distinct colours of an image.
use vstd::prelude::*;

verus! {

broadcast use vstd::array::group_array_axioms;

/// The number of pixels over all rows.
pub open spec fn pixel_count(rows: Seq<Vec<[u8; 4]>>) -> nat
    decreases rows.len(),
{
    if rows.len() == 0 {
        0
    } else {
        pixel_count(rows.drop_last()) + rows.last()@.len()
    }
}

/// Colour `c` is the colour of some pixel.
pub open spec fn has_color(rows: Seq<Vec<[u8; 4]>>, c: [u8; 4]) -> bool {
    exists|y: int, x: int| 0 <= y < rows.len() && 0 <= x < rows[y]@.len() && #[trigger] rows[y]@[x] == c
}

/// Colour `c` is the colour of a pixel that comes before `(y, x)`, row by row.
pub open spec fn seen_before(rows: Seq<Vec<[u8; 4]>>, c: [u8; 4], y: int, x: int) -> bool {
    exists|b: int, a: int|
        0 <= b < rows.len() && 0 <= a < rows[b]@.len() && (b < y || (b == y && a < x)) && #[trigger] rows[b]@[a] == c
}

/// The two colours agree in all four channels.
fn same_color(a: &[u8; 4], b: &[u8; 4]) -> (r: bool)
    ensures
        r == (*a == *b),
{
    let r = a[0] == b[0] && a[1] == b[1] && a[2] == b[2] && a[3] == b[3];
    proof {
        if r {
            assert(*a =~= *b);
        }
    }
    r
}

/// Gives each distinct colour of `pixels` an id, counting from 0 in the order
/// in which colours first occur, row by row: the colours by id come back as a
/// palette without repeats, holding only colours that occur, each pixel's id
/// names its colour there, and every smaller id names a colour seen earlier.
pub fn build_color_map(pixels: &[Vec<[u8; 4]>]) -> (r: (Vec<Vec<u32>>, Vec<[u8; 4]>))
    requires
        pixel_count(pixels@) <= u32::MAX,
    ensures
        r.0@.len() == pixels@.len(),
        forall|y: int| 0 <= y < pixels@.len() ==> (#[trigger] r.0@[y])@.len() == pixels@[y]@.len(),
        forall|y: int, x: int|
            0 <= y < pixels@.len() && 0 <= x < pixels@[y]@.len() ==> (#[trigger] r.0@[y]@[x] as int) < r.1@.len()
                && r.1@[r.0@[y]@[x] as int] == pixels@[y]@[x],
        r.1@.no_duplicates(),
        forall|k: int| 0 <= k < r.1@.len() ==> has_color(pixels@, #[trigger] r.1@[k]),
        forall|y: int, x: int, k: int|
            0 <= y < pixels@.len() && 0 <= x < pixels@[y]@.len() && 0 <= k < #[trigger] r.0@[y]@[x] ==> seen_before(
                pixels@,
                #[trigger] r.1@[k],
                y,
                x,
            ),
{
    let mut grid: Vec<Vec<u32>> = Vec::new();
    let mut palette: Vec<[u8; 4]> = Vec::new();
    let mut y: usize = 0;
    while y < pixels.len()
        invariant
            0 <= y <= pixels@.len(),
            pixel_count(pixels@) <= u32::MAX,
            grid@.len() == y,
            forall|b: int| 0 <= b < y ==> (#[trigger] grid@[b])@.len() == pixels@[b]@.len(),
            forall|b: int, a: int|
                0 <= b < y && 0 <= a < pixels@[b]@.len() ==> (#[trigger] grid@[b]@[a] as int) < palette@.len()
                    && palette@[grid@[b]@[a] as int] == pixels@[b]@[a],
            palette@.no_duplicates(),
            forall|k: int| 0 <= k < palette@.len() ==> has_color(pixels@, #[trigger] palette@[k]),
            palette@.len() <= pixel_count(pixels@.subrange(0, y as int)),
            forall|k: int| 0 <= k < palette@.len() ==> seen_before(pixels@, #[trigger] palette@[k], y as int, 0),
            forall|b: int, a: int, k: int|
                0 <= b < y && 0 <= a < pixels@[b]@.len() && 0 <= k < #[trigger] grid@[b]@[a] ==> seen_before(
                    pixels@,
                    #[trigger] palette@[k],
                    b,
                    a,
                ),
        decreases pixels@.len() - y,
    {
        proof {
            lemma_pixel_count_prefix(pixels@, y as int);
        }
        let mut row: Vec<u32> = Vec::new();
        let mut x: usize = 0;
        while x < pixels[y].len()
            invariant
                0 <= y < pixels@.len(),
                0 <= x <= pixels@[y as int]@.len(),
                pixel_count(pixels@) <= u32::MAX,
                pixel_count(pixels@.subrange(0, y + 1)) <= pixel_count(pixels@),
                pixel_count(pixels@.subrange(0, y + 1)) == pixel_count(pixels@.subrange(0, y as int))
                    + pixels@[y as int]@.len(),
                grid@.len() == y,
                row@.len() == x,
                forall|b: int| 0 <= b < y ==> (#[trigger] grid@[b])@.len() == pixels@[b]@.len(),
                forall|b: int, a: int|
                    0 <= b < y && 0 <= a < pixels@[b]@.len() ==> (#[trigger] grid@[b]@[a] as int) < palette@.len()
                        && palette@[grid@[b]@[a] as int] == pixels@[b]@[a],
                forall|a: int| 0 <= a < x ==> (#[trigger] row@[a] as int) < palette@.len()
                    && palette@[row@[a] as int] == pixels@[y as int]@[a],
                palette@.no_duplicates(),
                forall|k: int| 0 <= k < palette@.len() ==> has_color(pixels@, #[trigger] palette@[k]),
                palette@.len() <= pixel_count(pixels@.subrange(0, y as int)) + x,
                forall|k: int| 0 <= k < palette@.len() ==> seen_before(pixels@, #[trigger] palette@[k], y as int, x as int),
                forall|b: int, a: int, k: int|
                    0 <= b < y && 0 <= a < pixels@[b]@.len() && 0 <= k < #[trigger] grid@[b]@[a] ==> seen_before(
                        pixels@,
                        #[trigger] palette@[k],
                        b,
                        a,
                    ),
                forall|a: int, k: int|
                    0 <= a < x && 0 <= k < #[trigger] row@[a] ==> seen_before(pixels@, #[trigger] palette@[k], y as int, a),
            decreases pixels@[y as int]@.len() - x,
        {
            let pixel = pixels[y][x];
            let mut i: usize = 0;
            let mut found = false;
            while i < palette.len() && !found
                invariant
                    0 <= i <= palette@.len(),
                    found ==> i < palette@.len() && palette@[i as int] == pixel,
                    !found ==> forall|j: int| 0 <= j < i ==> palette@[j] != pixel,
                decreases palette@.len() - i + if found { 0int } else { 1int },
            {
                if same_color(&palette[i], &pixel) {
                    found = true;
                } else {
                    i += 1;
                }
            }
            if !found {
                let ghost before = palette@;
                palette.push(pixel);
                proof {
                    assert(palette@[i as int] == pixel);
                    assert forall|k: int| 0 <= k < palette@.len() implies has_color(pixels@, #[trigger] palette@[k]) by {
                        if k < before.len() {
                            assert(palette@[k] == before[k]);
                        } else {
                            assert(pixels@[y as int]@[x as int] == pixel);
                        }
                    }
                    assert forall|b: int, a: int|
                        0 <= b < y && 0 <= a < pixels@[b]@.len() implies (#[trigger] grid@[b]@[a] as int) < palette@.len()
                            && palette@[grid@[b]@[a] as int] == pixels@[b]@[a] by {
                        assert(palette@[grid@[b]@[a] as int] == before[grid@[b]@[a] as int]);
                    }
                    assert forall|a: int| 0 <= a < x implies (#[trigger] row@[a] as int) < palette@.len()
                        && palette@[row@[a] as int] == pixels@[y as int]@[a] by {
                        assert(palette@[row@[a] as int] == before[row@[a] as int]);
                    }
                }
            }
            let ghost before_row = row@;
            row.push(i as u32);
            proof {
                assert forall|a: int| 0 <= a < x + 1 implies (#[trigger] row@[a] as int) < palette@.len()
                    && palette@[row@[a] as int] == pixels@[y as int]@[a] by {
                    if a < x {
                        assert(row@[a] == before_row[a]);
                    }
                }
            }
            x += 1;
        }
        let ghost before_grid = grid@;
        grid.push(row);
        proof {
            assert forall|b: int| 0 <= b < y + 1 implies (#[trigger] grid@[b])@.len() == pixels@[b]@.len() by {
                if b < y {
                    assert(grid@[b] == before_grid[b]);
                }
            }
            assert forall|b: int, a: int|
                0 <= b < y + 1 && 0 <= a < pixels@[b]@.len() implies (#[trigger] grid@[b]@[a] as int) < palette@.len()
                    && palette@[grid@[b]@[a] as int] == pixels@[b]@[a] by {
                if b < y {
                    assert(grid@[b] == before_grid[b]);
                }
            }
        }
        y += 1;
    }
    (grid, palette)
}

proof fn lemma_pixel_count_prefix(rows: Seq<Vec<[u8; 4]>>, y: int)
    requires
        0 <= y < rows.len(),
    ensures
        pixel_count(rows.subrange(0, y + 1)) == pixel_count(rows.subrange(0, y)) + rows[y]@.len(),
        pixel_count(rows.subrange(0, y + 1)) <= pixel_count(rows),
    decreases rows.len(),
{
    assert(rows.subrange(0, y + 1).drop_last() =~= rows.subrange(0, y));
    if y + 1 < rows.len() {
        lemma_pixel_count_prefix(rows.drop_last(), y);
        assert(rows.drop_last().subrange(0, y + 1) =~= rows.subrange(0, y + 1));
        assert(rows.drop_last().subrange(0, y) =~= rows.subrange(0, y));
    } else {
        assert(rows.subrange(0, y + 1) =~= rows);
    }
}

} // verus!
