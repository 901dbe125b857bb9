use waveflow_img::palette::build_color_map;

const RED: [u8; 4] = [255, 0, 0, 255];
const BLUE: [u8; 4] = [0, 0, 255, 255];
const GREEN: [u8; 4] = [0, 255, 0, 255];

#[test]
fn colors_numbered_by_first_appearance() {
    let pixels = vec![vec![RED, BLUE], vec![RED, GREEN]];
    let (ids, palette) = build_color_map(&pixels);
    assert_eq!(ids, vec![vec![0, 1], vec![0, 2]]);
    assert_eq!(palette, vec![RED, BLUE, GREEN]);
}

#[test]
fn channels_all_count() {
    let almost_red = [255, 0, 0, 254];
    let pixels = vec![vec![RED, almost_red, RED]];
    let (ids, palette) = build_color_map(&pixels);
    assert_eq!(ids, vec![vec![0, 1, 0]]);
    assert_eq!(palette.len(), 2);
}

#[test]
fn empty_image_has_empty_palette() {
    let pixels: Vec<Vec<[u8; 4]>> = vec![];
    let (ids, palette) = build_color_map(&pixels);
    assert!(ids.is_empty());
    assert!(palette.is_empty());
}
