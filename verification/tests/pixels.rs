use obj_projector::projector::{ProjectionType, Projector, ProjectorParams};
use obj_projector::tiles::TileLayout;

fn grid(width: usize, height: usize) -> ProjectorParams {
    ProjectorParams { width, height, kind: ProjectionType::Vertex }
}

#[test]
fn valid_params_have_positive_sides() {
    assert!(grid(1, 1).is_valid());
    assert!(grid(512, 512).is_valid());
    assert!(!grid(0, 4).is_valid());
    assert!(!grid(4, 0).is_valid());
    assert!(!grid(0, 0).is_valid());
}

#[test]
fn addressable_params_have_a_buffer_that_fits() {
    assert!(grid(512, 512).is_addressable());
    assert!(grid(0, 0).is_addressable());
    assert!(grid(usize::MAX / 3, 1).is_addressable());
    assert!(!grid(usize::MAX / 3 + 1, 1).is_addressable());
    assert!(!grid(usize::MAX, usize::MAX).is_addressable());
    assert!(!grid(1 << 32, 1 << 32).is_addressable());
}

#[test]
fn a_single_face_covers_every_pixel() {
    let p = Projector::new();
    let params = grid(2, 2);
    let l = p.tiles(1, &params).unwrap();
    assert_eq!(p.face_pixels(&l, 0, &params), vec![0, 1, 2, 3]);
}

#[test]
fn blocks_are_listed_row_by_row() {
    let p = Projector::new();
    let params = grid(4, 4);
    let l = TileLayout { tile_width: 2, tile_height: 2, tiles_per_row: 2 };
    assert_eq!(p.face_pixels(&l, 0, &params), vec![0, 1, 4, 5]);
    assert_eq!(p.face_pixels(&l, 1, &params), vec![2, 3, 6, 7]);
    assert_eq!(p.face_pixels(&l, 2, &params), vec![8, 9, 12, 13]);
    assert_eq!(p.face_pixels(&l, 3, &params), vec![10, 11, 14, 15]);
}

#[test]
fn blocks_on_a_wide_grid() {
    let p = Projector::new();
    let params = grid(4, 2);
    let l = p.tiles(2, &params).unwrap();
    assert_eq!(p.face_pixels(&l, 0, &params), vec![0, 1, 4, 5]);
    assert_eq!(p.face_pixels(&l, 1, &params), vec![2, 3, 6, 7]);
}

#[test]
fn single_pixel_tiles() {
    let p = Projector::new();
    let params = grid(3, 2);
    let l = p.tiles(6, &params).unwrap();
    for i in 0..6 {
        assert_eq!(p.face_pixels(&l, i, &params), vec![i]);
    }
}

#[test]
fn leftover_pixels_belong_to_no_face() {
    let p = Projector::new();
    let params = grid(10, 10);
    let l = p.tiles(10, &params).unwrap();
    let mut covered = vec![0usize; 100];
    for i in 0..10 {
        for pixel in p.face_pixels(&l, i, &params) {
            covered[pixel] += 1;
        }
    }
    for row in 0..10 {
        for col in 0..10 {
            // Tiles of three by three: column 9 is left over, and the tenth
            // face takes three pixels of row 9.
            let expected = if col == 9 {
                0
            } else if row < 9 {
                1
            } else if col < 3 {
                1
            } else {
                0
            };
            assert_eq!(covered[row * 10 + col], expected);
        }
    }
}

#[test]
fn a_tile_is_cut_at_the_lower_edge() {
    let p = Projector::new();
    let params = grid(10, 10);
    let l = TileLayout { tile_width: 3, tile_height: 3, tiles_per_row: 3 };
    // The tenth face: tile row 3, tile column 0, pixel rows 9 to 11.
    assert_eq!(p.face_pixels(&l, 9, &params), vec![90, 91, 92]);
}

#[test]
fn a_tile_is_cut_at_the_right_edge() {
    let p = Projector::new();
    let params = grid(5, 2);
    let l = TileLayout { tile_width: 3, tile_height: 2, tiles_per_row: 2 };
    assert_eq!(p.face_pixels(&l, 1, &params), vec![3, 4, 8, 9]);
    let far = TileLayout { tile_width: 5, tile_height: 2, tiles_per_row: 2 };
    assert_eq!(p.face_pixels(&far, 1, &params), Vec::<usize>::new());
}

#[test]
fn tiles_of_no_width_hold_no_pixel() {
    let p = Projector::new();
    let params = grid(4, 4);
    let l = p.tiles(15, &params).unwrap();
    for i in 0..15 {
        assert_eq!(p.face_pixels(&l, i, &params), Vec::<usize>::new());
    }
}

#[test]
fn faces_beyond_the_pixels_wrap_around() {
    let p = Projector::new();
    let params = grid(4, 4);
    let l = p.tiles(40, &params).unwrap();
    assert_eq!(p.face_pixels(&l, 0, &params), vec![0]);
    assert_eq!(p.face_pixels(&l, 5, &params), vec![5]);
    assert_eq!(p.face_pixels(&l, 15, &params), vec![15]);
    assert_eq!(p.face_pixels(&l, 16, &params), vec![0]);
    assert_eq!(p.face_pixels(&l, 39, &params), vec![7]);
    assert_eq!(p.face_pixels(&l, usize::MAX, &params), vec![usize::MAX % 16]);
}

#[test]
fn huge_tiles_do_not_overflow() {
    let p = Projector::new();
    let params = grid(2, 2);
    let l = TileLayout { tile_width: usize::MAX, tile_height: usize::MAX, tiles_per_row: 2 };
    assert_eq!(p.face_pixels(&l, 0, &params), vec![0, 1, 2, 3]);
    assert_eq!(p.face_pixels(&l, 1, &params), Vec::<usize>::new());
    assert_eq!(p.face_pixels(&l, 3, &params), Vec::<usize>::new());
}

#[test]
fn points_are_addressed_by_row_times_height() {
    let p = Projector::new();
    let params = grid(4, 2);
    assert_eq!(p.point_pixel(0, 0, &params), Some(0));
    assert_eq!(p.point_pixel(3, 0, &params), Some(3));
    assert_eq!(p.point_pixel(0, 1, &params), Some(2));
    assert_eq!(p.point_pixel(3, 1, &params), Some(5));
}

#[test]
fn points_on_a_square_grid() {
    let p = Projector::new();
    let params = grid(3, 3);
    assert_eq!(p.point_pixel(1, 2, &params), Some(7));
    assert_eq!(p.point_pixel(2, 2, &params), Some(8));
}

#[test]
fn coordinates_are_held_to_the_grid() {
    let p = Projector::new();
    let params = grid(4, 2);
    assert_eq!(p.point_pixel(-3, 7, &params), Some(2));
    assert_eq!(p.point_pixel(4, 2, &params), Some(5));
    assert_eq!(p.point_pixel(i64::MAX, i64::MAX, &params), Some(5));
    assert_eq!(p.point_pixel(i64::MIN, i64::MIN, &params), Some(0));
    assert_eq!(p.point_pixel(-1, 0, &params), Some(0));
}

#[test]
fn an_address_beyond_the_grid_is_no_pixel() {
    let p = Projector::new();
    let params = grid(2, 4);
    assert_eq!(p.point_pixel(0, 1, &params), Some(4));
    assert_eq!(p.point_pixel(1, 1, &params), Some(5));
    assert_eq!(p.point_pixel(0, 2, &params), None);
    assert_eq!(p.point_pixel(1, 3, &params), None);
}

#[test]
fn two_points_of_one_cell_share_a_pixel() {
    let p = Projector::new();
    let params = grid(8, 8);
    let first = p.point_pixel(3, 5, &params);
    let second = p.point_pixel(3, 5, &params);
    assert_eq!(first, Some(43));
    assert_eq!(first, second);
    // The pixel holds the mean of what it received, not the sum.
    let mut sum = [0.0f32; 64];
    let mut count = [0u32; 64];
    for (pixel, value) in [(first, 0.25f32), (second, 0.75f32)] {
        let at = pixel.unwrap();
        sum[at] += value;
        count[at] += 1;
    }
    assert_eq!(count[43], 2);
    assert_eq!(sum[43] / count[43] as f32, 0.5);
}

#[test]
fn colors_are_written_three_bytes_each() {
    let p = Projector::new();
    let params = grid(2, 1);
    let colors = vec![[1u8, 2, 3], [4, 5, 6]];
    assert_eq!(p.emit(&colors), vec![1, 2, 3, 4, 5, 6]);
}

#[test]
fn the_buffer_has_three_bytes_for_each_pixel() {
    let p = Projector::new();
    for (width, height) in [(1usize, 1usize), (2, 2), (3, 5), (16, 9)] {
        let params = grid(width, height);
        let colors = vec![[7u8, 8, 9]; width * height];
        let bytes = p.emit(&colors);
        assert_eq!(bytes.len(), width * height * 3);
        for (i, b) in bytes.iter().enumerate() {
            assert_eq!(*b, 7 + (i % 3) as u8);
        }
    }
}

#[test]
fn emitting_twice_gives_the_same_bytes() {
    let params = grid(2, 2);
    let colors = vec![[0u8, 10, 20], [30, 40, 50], [60, 70, 80], [90, 100, 110]];
    let first = Projector::new().emit(&colors);
    let second = Projector::new().emit(&colors);
    assert_eq!(first, second);
    assert_eq!(first, vec![0, 10, 20, 30, 40, 50, 60, 70, 80, 90, 100, 110]);
}

#[test]
fn one_face_on_two_by_two_colors_all_pixels_alike() {
    let p = Projector::new();
    let params = ProjectorParams { width: 2, height: 2, kind: ProjectionType::Face };
    let l = p.tiles(1, &params).unwrap();
    let color = [85u8, 85, 0];
    let mut colors = vec![[0u8; 3]; 4];
    for pixel in p.face_pixels(&l, 0, &params) {
        colors[pixel] = color;
    }
    let bytes = p.emit(&colors);
    assert_eq!(bytes, vec![85, 85, 0, 85, 85, 0, 85, 85, 0, 85, 85, 0]);
}

#[test]
fn one_face_is_drawn_into_every_pixel_of_two_by_two() {
    let p = Projector::new();
    let params = ProjectorParams { width: 2, height: 2, kind: ProjectionType::Face };
    let l = p.tiles(1, &params);
    let lists = p.gather_faces(&l, 1, &params);
    assert_eq!(lists, vec![vec![0], vec![0], vec![0], vec![0]]);
}

#[test]
fn four_faces_are_gathered_by_quarter() {
    let p = Projector::new();
    let params = grid(4, 4);
    let l = p.tiles(4, &params);
    let lists = p.gather_faces(&l, 4, &params);
    let expected: Vec<Vec<usize>> =
        [0, 0, 1, 1, 0, 0, 1, 1, 2, 2, 3, 3, 2, 2, 3, 3].iter().map(|i| vec![*i]).collect();
    assert_eq!(lists, expected);
}

#[test]
fn faces_that_wrap_are_gathered_in_ascending_order() {
    let p = Projector::new();
    let params = grid(2, 2);
    let l = p.tiles(10, &params);
    let lists = p.gather_faces(&l, 10, &params);
    assert_eq!(lists, vec![vec![0, 4, 8], vec![1, 5, 9], vec![2, 6], vec![3, 7]]);
}

#[test]
fn only_the_first_faces_are_gathered() {
    let p = Projector::new();
    let params = grid(2, 2);
    let l = p.tiles(10, &params);
    let lists = p.gather_faces(&l, 3, &params);
    assert_eq!(lists, vec![vec![0], vec![1], vec![2], vec![]]);
    let none = p.gather_faces(&l, 0, &params);
    assert_eq!(none, vec![Vec::<usize>::new(); 4]);
}

#[test]
fn leftover_pixels_gather_no_face() {
    let p = Projector::new();
    let params = grid(3, 3);
    // Two faces: one row of two tiles, each one pixel wide and three high.
    let l = p.tiles(2, &params);
    assert_eq!(l, Some(TileLayout { tile_width: 1, tile_height: 3, tiles_per_row: 2 }));
    let lists = p.gather_faces(&l, 2, &params);
    assert_eq!(
        lists,
        vec![vec![0], vec![1], vec![], vec![0], vec![1], vec![], vec![0], vec![1], vec![]]
    );
}

#[test]
fn without_a_layout_no_face_is_gathered() {
    let p = Projector::new();
    let params = grid(4, 1);
    let l = p.tiles(1, &params);
    assert_eq!(l, None);
    assert_eq!(p.gather_faces(&l, 1, &params), vec![Vec::<usize>::new(); 4]);
}

#[test]
fn points_are_gathered_by_cell() {
    let p = Projector::new();
    let params = grid(2, 2);
    let cells = vec![(0, 0), (1, 1), (0, 0), (5, -5), (1, 0), (1, 1)];
    let lists = p.gather_points(&cells, &params);
    assert_eq!(lists, vec![vec![0, 2], vec![3, 4], vec![], vec![1, 5]]);
}

#[test]
fn two_points_of_one_cell_are_averaged() {
    let p = Projector::new();
    let params = grid(8, 8);
    let cells = vec![(3, 5), (3, 5)];
    let lists = p.gather_points(&cells, &params);
    for (pixel, drawn) in lists.iter().enumerate() {
        if pixel == 43 {
            assert_eq!(drawn, &vec![0, 1]);
        } else {
            assert!(drawn.is_empty());
        }
    }
    // The colors of the two points, and what the pixel shows.
    let z = [0.25f32, 0.75f32];
    let sum: f32 = lists[43].iter().map(|i| z[*i]).sum();
    assert_eq!(sum / lists[43].len() as f32, 0.5);
}

#[test]
fn points_beyond_the_grid_are_gathered_nowhere() {
    let p = Projector::new();
    let params = grid(2, 4);
    let cells = vec![(0, 0), (1, 3), (0, 2), (1, 1)];
    let lists = p.gather_points(&cells, &params);
    let mut expected = vec![Vec::<usize>::new(); 8];
    expected[0] = vec![0];
    expected[5] = vec![3];
    assert_eq!(lists, expected);
}

#[test]
fn no_points_are_gathered_into_empty_lists() {
    let p = Projector::new();
    let params = grid(3, 2);
    assert_eq!(p.gather_points(&vec![], &params), vec![Vec::<usize>::new(); 6]);
}

#[test]
fn gathering_twice_gives_the_same_lists() {
    let params = grid(3, 3);
    let cells = vec![(0, 0), (2, 2), (1, 1), (2, 2)];
    let first = Projector::new().gather_points(&cells, &params);
    let second = Projector::new().gather_points(&cells, &params);
    assert_eq!(first, second);
    let l = Projector::new().tiles(5, &params);
    assert_eq!(
        Projector::new().gather_faces(&l, 5, &params),
        Projector::new().gather_faces(&l, 5, &params)
    );
}
