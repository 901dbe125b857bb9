use std::collections::HashMap;

use waveflow_img::config::{Config, Direction, DirectionalRules};
use waveflow_img::utils::extract_directional_rules;
use waveflow_img::wfc::{
    allowed_levels, collapse_cell, final_levels, find_least_entropy_cell, generate_output,
    least_entropy_cells, neighbor, propagate, restrict, GenerateError, WaveGrid,
};

fn sorted(v: &[u8]) -> Vec<u8> {
    let mut s = v.to_vec();
    s.sort();
    s
}

fn config(w: u32, h: u32, tile: u32, levels: u8) -> Config {
    Config {
        input_image: String::from("sample.png"),
        output_width: w,
        output_height: h,
        tile_size: tile,
        luminance_levels: levels,
    }
}

fn rules(top: Vec<u8>, bottom: Vec<u8>, left: Vec<u8>, right: Vec<u8>) -> DirectionalRules {
    DirectionalRules { top, bottom, left, right }
}

fn assert_rules(r: &DirectionalRules, top: &[u8], bottom: &[u8], left: &[u8], right: &[u8]) {
    assert_eq!(sorted(&r.top), top.to_vec());
    assert_eq!(sorted(&r.bottom), bottom.to_vec());
    assert_eq!(sorted(&r.left), left.to_vec());
    assert_eq!(sorted(&r.right), right.to_vec());
}

#[test]
fn uniform_sample_model() {
    let grid = vec![vec![1u8, 1], vec![1, 1]];
    let m = extract_directional_rules(&grid);
    assert_eq!(m.len(), 1);
    assert_rules(&m[&1], &[1], &[1], &[1], &[1]);
}

#[test]
fn uniform_sample_generates_only_level_one() {
    let grid = vec![vec![1u8, 1], vec![1, 1]];
    let m = extract_directional_rules(&grid);
    let out = generate_output(&config(3, 2, 2, 1), &m).unwrap();
    assert_eq!(out.len(), 4);
    for row in &out {
        assert_eq!(row.len(), 6);
        assert!(row.iter().all(|&v| v == 1));
    }
    // With a second level available, a run either yields all ones or stops on
    // a contradiction when a cell was collapsed to the unseen level.
    for _ in 0..20 {
        match generate_output(&config(2, 2, 1, 2), &m) {
            Ok(out) => assert!(out.iter().all(|row| row.iter().all(|&v| v == 1))),
            Err(e) => assert_eq!(e, GenerateError::Contradiction),
        }
    }
}

#[test]
fn checkerboard_sample_model() {
    let grid = vec![vec![1u8, 2], vec![2, 1]];
    let m = extract_directional_rules(&grid);
    assert_eq!(m.len(), 2);
    assert_rules(&m[&1], &[2], &[2], &[2], &[2]);
    assert_rules(&m[&2], &[1], &[1], &[1], &[1]);
}

#[test]
fn checkerboard_sample_generates_alternating_levels() {
    let grid = vec![vec![1u8, 2], vec![2, 1]];
    let m = extract_directional_rules(&grid);
    for _ in 0..20 {
        let out = generate_output(&config(3, 3, 1, 2), &m).unwrap();
        assert_eq!(out.len(), 3);
        for y in 0..3 {
            for x in 0..3 {
                if x + 1 < 3 {
                    assert_ne!(out[y][x], out[y][x + 1]);
                }
                if y + 1 < 3 {
                    assert_ne!(out[y][x], out[y + 1][x]);
                }
            }
        }
    }
}

#[test]
fn isolated_level_model_is_empty() {
    let grid = vec![vec![7u8]];
    let m = extract_directional_rules(&grid);
    assert_eq!(m.len(), 1);
    assert_rules(&m[&7], &[], &[], &[], &[]);
}

#[test]
fn isolated_level_generation_contradicts() {
    let grid = vec![vec![1u8]];
    let m = extract_directional_rules(&grid);
    for _ in 0..10 {
        assert_eq!(generate_output(&config(2, 1, 1, 2), &m), Err(GenerateError::Contradiction));
        assert_eq!(generate_output(&config(2, 2, 2, 3), &m), Err(GenerateError::Contradiction));
    }
}

#[test]
fn model_construction_is_idempotent() {
    let grid = vec![vec![1u8, 2, 3], vec![3, 3, 1], vec![2, 1, 2]];
    let a = extract_directional_rules(&grid);
    let b = extract_directional_rules(&grid);
    assert_eq!(a.len(), b.len());
    for (k, r) in &a {
        let s = &b[k];
        assert_eq!(sorted(&r.top), sorted(&s.top));
        assert_eq!(sorted(&r.bottom), sorted(&s.bottom));
        assert_eq!(sorted(&r.left), sorted(&s.left));
        assert_eq!(sorted(&r.right), sorted(&s.right));
    }
}

#[test]
fn model_of_row_sample() {
    let grid = vec![vec![1u8, 2, 2, 3]];
    let m = extract_directional_rules(&grid);
    assert_eq!(m.len(), 3);
    assert_rules(&m[&1], &[], &[], &[], &[2]);
    assert_rules(&m[&2], &[], &[], &[1, 2], &[2, 3]);
    assert_rules(&m[&3], &[], &[], &[2], &[]);
}

#[test]
fn invalid_configs_are_rejected() {
    let m = extract_directional_rules(&vec![vec![1u8, 1]]);
    assert_eq!(generate_output(&config(0, 2, 1, 1), &m), Err(GenerateError::InvalidConfig));
    assert_eq!(generate_output(&config(2, 0, 1, 1), &m), Err(GenerateError::InvalidConfig));
    assert_eq!(generate_output(&config(2, 2, 0, 1), &m), Err(GenerateError::InvalidConfig));
    assert_eq!(generate_output(&config(2, 2, 1, 0), &m), Err(GenerateError::InvalidConfig));
    assert_eq!(generate_output(&config(u32::MAX, 1, 2, 1), &m), Err(GenerateError::TooLarge));
}

#[test]
fn output_dimensions_follow_tile_size() {
    let m = extract_directional_rules(&vec![vec![1u8, 1], vec![1, 1]]);
    let out = generate_output(&config(2, 3, 4, 1), &m).unwrap();
    assert_eq!(out.len(), 12);
    assert!(out.iter().all(|row| row.len() == 8));
}

#[test]
fn new_grid_holds_every_level() {
    let g = WaveGrid::new(3, 2, 4);
    assert_eq!(g.cells.len(), 6);
    for c in &g.cells {
        assert_eq!(c, &vec![1u8, 2, 3, 4]);
    }
    assert_eq!(g.entropy(2, 1), 4);
}

#[test]
fn least_entropy_cells_lists_ties() {
    let mut g = WaveGrid::new(3, 2, 4);
    g.cells[1] = vec![1, 2];
    g.cells[4] = vec![3, 4];
    g.cells[5] = vec![2];
    g.cells[0] = vec![];
    assert_eq!(least_entropy_cells(&g), vec![(1, 0), (1, 1)]);
    let c = find_least_entropy_cell(&g).unwrap();
    assert!(c == (1, 0) || c == (1, 1));
}

#[test]
fn single_open_cell_is_found() {
    let mut g = WaveGrid::new(2, 1, 3);
    g.cells[0] = vec![2];
    assert_eq!(find_least_entropy_cell(&g), Some((1, 0)));
    g.cells[1] = vec![1];
    assert_eq!(find_least_entropy_cell(&g), None);
}

#[test]
fn collapse_keeps_chosen_level() {
    let mut g = WaveGrid::new(2, 2, 3);
    collapse_cell(&mut g, 1, 1, 2);
    assert_eq!(g.candidates(1, 1), &vec![3u8]);
    assert_eq!(g.candidates(0, 1), &vec![1u8, 2, 3]);
}

#[test]
fn neighbor_stays_inside_grid() {
    assert_eq!(neighbor(3, 2, 0, 0, Direction::Top), None);
    assert_eq!(neighbor(3, 2, 0, 0, Direction::Left), None);
    assert_eq!(neighbor(3, 2, 0, 0, Direction::Right), Some((1, 0)));
    assert_eq!(neighbor(3, 2, 0, 0, Direction::Bottom), Some((0, 1)));
    assert_eq!(neighbor(3, 2, 2, 1, Direction::Right), None);
    assert_eq!(neighbor(3, 2, 2, 1, Direction::Bottom), None);
    assert_eq!(neighbor(3, 2, 2, 1, Direction::Top), Some((2, 0)));
}

#[test]
fn allowed_levels_is_union_over_candidates() {
    let mut m: HashMap<u8, DirectionalRules> = HashMap::new();
    m.insert(1, rules(vec![], vec![], vec![], vec![2, 3]));
    m.insert(2, rules(vec![], vec![], vec![], vec![4]));
    let a = allowed_levels(&vec![1, 2, 9], Direction::Right, &m);
    assert_eq!(a.len(), 256);
    let on: Vec<usize> = (0..256).filter(|&i| a[i]).collect();
    assert_eq!(on, vec![2, 3, 4]);
    let b = allowed_levels(&vec![1, 2], Direction::Top, &m);
    assert!(b.iter().all(|&x| !x));
}

#[test]
fn restrict_keeps_allowed_in_order() {
    let mut allowed = vec![false; 256];
    allowed[3] = true;
    allowed[1] = true;
    assert_eq!(restrict(&vec![4, 3, 2, 1], &allowed), vec![3, 1]);
    assert_eq!(restrict(&vec![2, 4], &allowed), Vec::<u8>::new());
}

#[test]
fn propagate_narrows_neighbours_transitively() {
    // A strict chain: 1 is followed by 2 on its right, 2 by 3.
    let mut m: HashMap<u8, DirectionalRules> = HashMap::new();
    m.insert(1, rules(vec![], vec![], vec![], vec![2]));
    m.insert(2, rules(vec![], vec![], vec![1], vec![3]));
    m.insert(3, rules(vec![], vec![], vec![2], vec![]));
    let mut g = WaveGrid::new(3, 1, 3);
    collapse_cell(&mut g, 0, 0, 0);
    propagate(&mut g, 0, 0, &m);
    assert_eq!(g.candidates(0, 0), &vec![1u8]);
    assert_eq!(g.candidates(1, 0), &vec![2u8]);
    assert_eq!(g.candidates(2, 0), &vec![3u8]);
    assert_eq!(final_levels(&g), Ok(vec![vec![1, 2, 3]]));
}

#[test]
fn propagate_leaves_empty_set_on_contradiction() {
    let mut m: HashMap<u8, DirectionalRules> = HashMap::new();
    m.insert(1, rules(vec![], vec![], vec![], vec![]));
    let mut g = WaveGrid::new(1, 2, 2);
    collapse_cell(&mut g, 0, 0, 0);
    propagate(&mut g, 0, 0, &m);
    assert_eq!(g.candidates(0, 1), &Vec::<u8>::new());
    assert_eq!(final_levels(&g), Err(GenerateError::Contradiction));
}

#[test]
fn final_levels_reads_sole_candidates() {
    let mut g = WaveGrid::new(2, 2, 4);
    g.cells[0] = vec![4];
    g.cells[1] = vec![3];
    g.cells[2] = vec![2];
    assert_eq!(final_levels(&g), Err(GenerateError::Contradiction));
    g.cells[3] = vec![1];
    assert_eq!(final_levels(&g), Ok(vec![vec![4, 3], vec![2, 1]]));
}

#[test]
fn generated_neighbours_are_allowed_by_the_model() {
    let grid = vec![vec![1u8, 2, 3], vec![2, 3, 1], vec![3, 1, 2]];
    let m = extract_directional_rules(&grid);
    for _ in 0..20 {
        match generate_output(&config(5, 4, 1, 3), &m) {
            Ok(out) => {
                assert_eq!(out.len(), 4);
                for y in 0..4 {
                    assert_eq!(out[y].len(), 5);
                    for x in 0..5 {
                        let here = &m[&out[y][x]];
                        if x + 1 < 5 {
                            assert!(here.right.contains(&out[y][x + 1]));
                        }
                        if x > 0 {
                            assert!(here.left.contains(&out[y][x - 1]));
                        }
                        if y + 1 < 4 {
                            assert!(here.bottom.contains(&out[y + 1][x]));
                        }
                        if y > 0 {
                            assert!(here.top.contains(&out[y - 1][x]));
                        }
                    }
                }
            }
            Err(e) => assert_eq!(e, GenerateError::Contradiction),
        }
    }
}

fn checkerboard_model() -> HashMap<u8, DirectionalRules> {
    let mut m: HashMap<u8, DirectionalRules> = HashMap::new();
    m.insert(1, rules(vec![2], vec![2], vec![2], vec![2]));
    m.insert(2, rules(vec![1], vec![1], vec![1], vec![1]));
    m
}

#[test]
fn propagate_alternates_along_a_chain() {
    let m = checkerboard_model();
    let mut g = WaveGrid::new(3, 1, 2);
    g.cells[0] = vec![1];
    propagate(&mut g, 0, 0, &m);
    assert_eq!(g.cells, vec![vec![1u8], vec![2], vec![1]]);
}

#[test]
fn propagate_leaves_consistent_grid_unchanged() {
    let m = checkerboard_model();
    let mut g = WaveGrid::new(3, 1, 2);
    g.cells[0] = vec![1];
    g.cells[1] = vec![2];
    g.cells[2] = vec![1];
    propagate(&mut g, 1, 0, &m);
    assert_eq!(g.cells, vec![vec![1u8], vec![2], vec![1]]);
}

#[test]
fn single_cell_output_always_succeeds() {
    let m = extract_directional_rules(&vec![vec![1u8]]);
    for _ in 0..20 {
        let out = generate_output(&config(1, 1, 1, 4), &m).unwrap();
        assert_eq!(out.len(), 1);
        assert_eq!(out[0].len(), 1);
        assert!(1 <= out[0][0] && out[0][0] <= 4);
    }
}

#[test]
fn permissive_model_always_succeeds() {
    let mut m: HashMap<u8, DirectionalRules> = HashMap::new();
    for v in 1..=3u8 {
        m.insert(v, rules(vec![1, 2, 3], vec![3, 2, 1], vec![1, 2, 3], vec![2, 1, 3]));
    }
    for _ in 0..20 {
        let out = generate_output(&config(4, 3, 2, 3), &m).unwrap();
        assert_eq!(out.len(), 6);
        assert!(out.iter().all(|row| row.len() == 8 && row.iter().all(|&v| 1 <= v && v <= 3)));
    }
}

#[test]
fn propagate_twice_changes_nothing() {
    let grid = vec![vec![1u8, 2, 3], vec![2, 3, 1], vec![3, 1, 2]];
    let m = extract_directional_rules(&grid);
    let mut g = WaveGrid::new(4, 4, 3);
    collapse_cell(&mut g, 1, 2, 0);
    propagate(&mut g, 1, 2, &m);
    let once = g.cells.clone();
    propagate(&mut g, 1, 2, &m);
    assert_eq!(g.cells, once);
}
