use tensor_tape::unlimited_ocr::pages::{
    cut_tile, global_view, grids, margin, page_tiles, page_view, pick_crop_ratio, plane_index,
    tile_origin, GRAY,
};

fn distances(w: u32, h: u32, grids: &[(usize, usize)]) -> Vec<u64> {
    let aspect = f64::from(w) / f64::from(h);
    grids
        .iter()
        .map(|g| (aspect - g.0 as f64 / g.1 as f64).abs().to_bits())
        .collect()
}

fn pick(w: u32, h: u32) -> (usize, usize) {
    let g = grids();
    let d = distances(w, h, &g);
    pick_crop_ratio(w, h, &g, &d)
}

/// The search as it is described: every pair once, in the order it is met while
/// the side grows, then stably by the number of tiles.
fn grids_by_search() -> Vec<(usize, usize)> {
    let mut ratios: Vec<(usize, usize)> = Vec::new();
    for n in 2..=32usize {
        for i in 1..=n {
            for j in 1..=n {
                if i * j <= 32 && i * j >= 2 && !ratios.contains(&(i, j)) {
                    ratios.push((i, j));
                }
            }
        }
    }
    ratios.sort_by_key(|r| r.0 * r.1);
    ratios
}

#[test]
fn grids_are_listed_as_the_search_meets_them() {
    assert_eq!(grids(), grids_by_search());
    assert_eq!(&grids()[..5], &[(1, 2), (2, 1), (1, 3), (3, 1), (2, 2)]);
}

#[test]
fn small_pages_are_not_cut() {
    assert_eq!(pick(640, 640), (1, 1));
    assert_eq!(pick(10, 600), (1, 1));
}

#[test]
fn the_closest_ratio_wins() {
    assert_eq!(pick(1280, 640), (2, 1));
    assert_eq!(pick(700, 1400), (1, 2));
    assert_eq!(pick(1000, 1500), (2, 3));
}

#[test]
fn a_tie_goes_to_more_tiles_if_the_page_fills_them() {
    // 2:1 fits (2, 1), (4, 2), (6, 3) and (8, 4) equally well
    assert_eq!(pick(1300, 650), (2, 1));
    assert_eq!(pick(2560, 1280), (4, 2));
    assert_eq!(pick(4000, 2000), (8, 4));
}

#[test]
fn a_page_without_height_is_not_cut() {
    let g = grids();
    let d = distances(1000, 0, &g);
    assert_eq!(pick_crop_ratio(1000, 0, &g, &d), (1, 1));
}

#[test]
fn tiles_go_row_by_row() {
    assert_eq!(tile_origin(0, 3), (0, 0));
    assert_eq!(tile_origin(2, 3), (1280, 0));
    assert_eq!(tile_origin(3, 3), (0, 640));
    assert_eq!(tile_origin(31, 32), (19840, 0));
}

#[test]
fn the_view_is_centred() {
    assert_eq!(margin(1024), 0);
    assert_eq!(margin(1000), 12);
    assert_eq!(margin(1023), 0);
    assert_eq!(margin(1), 511);
}

#[test]
fn planes_follow_each_other() {
    assert_eq!(plane_index(0, 0, 0, 4), 0);
    assert_eq!(plane_index(1, 2, 3, 4), 27);
    assert_eq!(plane_index(2, 3, 3, 4), 47);
}

#[test]
fn the_view_is_gray_around_the_page() {
    let view = global_view(&vec![1, 2, 3, 4, 5, 6], 2, 1);
    assert_eq!(view.len(), 3 * 1024 * 1024);
    // two pixels in the middle, at (511, 511) and (512, 511)
    let at = (511 * 1024 + 511) * 3;
    assert_eq!(&view[at - 1..at + 7], &[127, 1, 2, 3, 4, 5, 6, 127]);
    assert_eq!(view.iter().filter(|b| **b != GRAY).count(), 6);
}

#[test]
fn tiles_are_cut_where_they_begin() {
    let (wc, hc) = (2usize, 1usize);
    let mut page = vec![0u8; 3 * (wc * 640) * (hc * 640)];
    // pixel (640, 1) is pixel (0, 1) of the second tile
    page[(1280 + 640) * 3 + 2] = 9;
    let left = cut_tile(&page, wc, hc, 0);
    let right = cut_tile(&page, wc, hc, 1);
    assert_eq!(left.len(), 3 * 640 * 640);
    assert!(left.iter().all(|b| *b == 0));
    assert_eq!(right[640 * 3 + 2], 9);
    assert_eq!(right.iter().filter(|b| **b != 0).count(), 1);
}

#[test]
fn a_page_is_stretched_onto_its_view() {
    // one colour stays one colour, at another size
    let page = [200u8, 100, 50].repeat(4 * 2);
    let view = page_view(page.clone(), 4, 2, 1024, 512).unwrap();
    assert_eq!(view.len(), 3 * 1024 * 1024);
    assert_eq!(&view[..3], &[127, 127, 127]);
    let inside = 256 * 1024 * 3;
    assert_eq!(&view[inside..inside + 3], &[200, 100, 50]);
    assert_eq!(view.iter().filter(|b| **b == 200).count(), 1024 * 512);
    // at its own size a page stays as it is
    let page: Vec<u8> = (0..24).collect();
    let view = page_view(page.clone(), 4, 2, 4, 2).unwrap();
    let at = (511 * 1024 + 510) * 3;
    assert_eq!(&view[at..at + 12], &page[..12]);
    // too few pixels
    assert!(page_view(page[..23].to_vec(), 4, 2, 4, 2).is_none());
}

#[test]
fn a_page_is_cut_row_by_row() {
    // four colours, one per tile: far from the edges they are kept
    let mut page = Vec::new();
    for y in 0..8 {
        for x in 0..8 {
            let tile = (y / 4) * 2 + x / 4;
            page.extend([50 * (tile as u8 + 1), 0, 0]);
        }
    }
    let tiles = page_tiles(page.clone(), 8, 8, 2, 2).unwrap();
    assert_eq!(tiles.len(), 4);
    for (t, tile) in tiles.iter().enumerate() {
        assert_eq!(tile.len(), 3 * 640 * 640);
        let middle = (320 * 640 + 320) * 3;
        assert_eq!(tile[middle], 50 * (t as u8 + 1));
    }
    assert!(page_tiles(vec![0; 5], 8, 8, 2, 2).is_none());
}
