use std::f64::consts::PI;

use jetty::cluster::geom::all_positions;
use jetty::cluster::naive::minmax;
use jetty::cluster::nearest::position;
use jetty::cluster::tiles::{tile_coord, Tiles, N_PHI_BINS, N_RAP_BINS, N_TILES};
use jetty::{PseudoJet, Scalar};

fn scalar(x: f64) -> Scalar {
    Scalar::from_bits(x.to_bits()).unwrap()
}

fn at(rap: f64, phi: f64) -> PseudoJet {
    PseudoJet::from_parts(
        scalar(1.),
        scalar(1.),
        scalar(0.),
        scalar(0.),
        scalar(1.),
        scalar(phi),
        scalar(rap),
    )
    .unwrap()
}

fn expected_coord(rap: f64, phi: f64) -> [usize; 2] {
    let rap_coord = (rap + 5.).floor() as i32;
    let rap_coord = rap_coord.clamp(0, 9) as usize;
    let phi_coord = (phi * (6. / (2. * PI))).floor() as usize;
    [rap_coord, phi_coord.min(5)]
}

fn neighbours(f: f64) -> [f64; 3] {
    if f == 0. {
        return [-5e-324, 0., 5e-324];
    }
    [
        f64::from_bits(if f > 0. { f.to_bits() - 1 } else { f.to_bits() + 1 }),
        f,
        f64::from_bits(if f > 0. { f.to_bits() + 1 } else { f.to_bits() - 1 }),
    ]
}

#[test]
fn grid_has_ten_rows_and_six_columns() {
    assert_eq!(N_RAP_BINS, 10);
    assert_eq!(N_PHI_BINS, 6);
    assert_eq!(N_TILES, 60);
}

#[test]
fn tile_coord_of_some_pseudojets() {
    assert_eq!(tile_coord(&at(0., 0.)), [5, 0]);
    assert_eq!(tile_coord(&at(-0.5, 1.)), [4, 0]);
    assert_eq!(tile_coord(&at(0.5, 1.1)), [5, 1]);
    assert_eq!(tile_coord(&at(-4.2, 3.)), [0, 2]);
    assert_eq!(tile_coord(&at(-3.9, 3.2)), [1, 3]);
    assert_eq!(tile_coord(&at(3.9, 5.)), [8, 4]);
    assert_eq!(tile_coord(&at(4.1, 6.)), [9, 5]);
    assert_eq!(tile_coord(&at(2.5, 4.2)), [7, 4]);
}

#[test]
fn tile_coord_clamps_the_rapidity() {
    assert_eq!(tile_coord(&at(-5., 0.)), [0, 0]);
    assert_eq!(tile_coord(&at(-5.5, 0.)), [0, 0]);
    assert_eq!(tile_coord(&at(-1e300, 0.)), [0, 0]);
    assert_eq!(tile_coord(&at(f64::NEG_INFINITY, 0.)), [0, 0]);
    assert_eq!(tile_coord(&at(5., 0.)), [9, 0]);
    assert_eq!(tile_coord(&at(17., 0.)), [9, 0]);
    assert_eq!(tile_coord(&at(f64::INFINITY, 0.)), [9, 0]);
    assert_eq!(tile_coord(&at(-0.0, 0.)), [5, 0]);
    assert_eq!(tile_coord(&at(-1e-300, 0.)), [5, 0]);
    assert_eq!(tile_coord(&at(-1e-15, 0.)), [4, 0]);
}

#[test]
fn tile_coord_rounds_like_the_sum_and_the_product() {
    for k in -6..=6 {
        for rap in neighbours(k as f64) {
            assert_eq!(tile_coord(&at(rap, 1.))[0], expected_coord(rap, 1.)[0], "{rap}");
        }
    }
    for rap in [-4.440892098500626e-16, -4.440892098500627e-16, -1.0000000000000002] {
        for rap in neighbours(rap) {
            assert_eq!(tile_coord(&at(rap, 1.))[0], expected_coord(rap, 1.)[0], "{rap}");
        }
    }
    for k in 1..6 {
        let edge = k as f64 * PI / 3.;
        for phi in neighbours(edge) {
            for phi in neighbours(phi) {
                assert_eq!(tile_coord(&at(0., phi))[1], expected_coord(0., phi)[1], "{phi}");
            }
        }
    }
    let last = f64::from_bits((2. * PI).to_bits() - 1);
    assert_eq!(tile_coord(&at(0., last)), [5, 5]);
    let mut x = 0.;
    while x < 2. * PI {
        assert_eq!(tile_coord(&at(x - 3., x)), expected_coord(x - 3., x), "{x}");
        x += 0.0173;
    }
}

#[test]
fn tiles_start_empty() {
    let tiles = Tiles::new();
    for tile in 0..N_TILES {
        assert_eq!(tiles.occupants(tile), vec![]);
    }
    for rap in 0..N_RAP_BINS {
        for phi in 0..N_PHI_BINS {
            assert_eq!(tiles.tile_neighbours(rap, phi), vec![]);
        }
    }
}

#[test]
fn tiles_keep_the_order_of_insertion() {
    let mut tiles = Tiles::new();
    for value in [7, 3, 9, 3, 1, 7] {
        tiles.insert(4, value);
    }
    tiles.insert(5, 2);
    assert_eq!(tiles.occupants(4), vec![7, 3, 9, 1]);
    assert_eq!(tiles.occupants(5), vec![2]);
    assert_eq!(tiles.occupants(3), vec![]);
}

#[test]
fn tiles_remove_by_swapping() {
    let mut tiles = Tiles::new();
    for value in [7, 3, 9, 1, 4] {
        tiles.insert(59, value);
    }
    tiles.remove(59, 3);
    assert_eq!(tiles.occupants(59), vec![7, 4, 9, 1]);
    tiles.remove(59, 1);
    assert_eq!(tiles.occupants(59), vec![7, 4, 9]);
    tiles.remove(59, 5);
    assert_eq!(tiles.occupants(59), vec![7, 4, 9]);
    tiles.remove(58, 7);
    assert_eq!(tiles.occupants(59), vec![7, 4, 9]);
    tiles.remove(59, 7);
    assert_eq!(tiles.occupants(59), vec![9, 4]);
    tiles.insert(59, 7);
    assert_eq!(tiles.occupants(59), vec![9, 4, 7]);
    tiles.remove(59, 9);
    tiles.remove(59, 7);
    tiles.remove(59, 4);
    assert_eq!(tiles.occupants(59), vec![]);
}

fn numbered() -> Tiles {
    let mut tiles = Tiles::new();
    for tile in 0..N_TILES {
        tiles.insert(tile, 100 + tile);
    }
    tiles
}

#[test]
fn tile_neighbours_in_the_middle() {
    let tiles = numbered();
    let tile = |rap: usize, phi: usize| 100 + rap * 6 + phi;
    assert_eq!(
        tiles.tile_neighbours(4, 2),
        vec![
            tile(3, 1),
            tile(3, 2),
            tile(3, 3),
            tile(4, 1),
            tile(4, 2),
            tile(4, 3),
            tile(5, 1),
            tile(5, 2),
            tile(5, 3)
        ]
    );
}

#[test]
fn tile_neighbours_wrap_around_the_azimuth() {
    let tiles = numbered();
    let tile = |rap: usize, phi: usize| 100 + rap * 6 + phi;
    assert_eq!(
        tiles.tile_neighbours(2, 0),
        vec![
            tile(1, 5),
            tile(1, 0),
            tile(1, 1),
            tile(2, 5),
            tile(2, 0),
            tile(2, 1),
            tile(3, 5),
            tile(3, 0),
            tile(3, 1)
        ]
    );
    assert_eq!(
        tiles.tile_neighbours(2, 5),
        vec![
            tile(1, 4),
            tile(1, 5),
            tile(1, 0),
            tile(2, 4),
            tile(2, 5),
            tile(2, 0),
            tile(3, 4),
            tile(3, 5),
            tile(3, 0)
        ]
    );
}

#[test]
fn tile_neighbours_end_at_the_first_and_last_row() {
    let tiles = numbered();
    let tile = |rap: usize, phi: usize| 100 + rap * 6 + phi;
    assert_eq!(
        tiles.tile_neighbours(0, 3),
        vec![tile(0, 2), tile(0, 3), tile(0, 4), tile(1, 2), tile(1, 3), tile(1, 4)]
    );
    assert_eq!(
        tiles.tile_neighbours(9, 0),
        vec![tile(8, 5), tile(8, 0), tile(8, 1), tile(9, 5), tile(9, 0), tile(9, 1)]
    );
    assert_eq!(
        tiles.tile_neighbours(8, 1),
        vec![
            tile(7, 0),
            tile(7, 1),
            tile(7, 2),
            tile(8, 0),
            tile(8, 1),
            tile(8, 2),
            tile(9, 0),
            tile(9, 1),
            tile(9, 2)
        ]
    );
}

#[test]
fn tile_neighbours_list_every_occupant() {
    let mut tiles = Tiles::new();
    tiles.insert(4 * 6 + 2, 11);
    tiles.insert(4 * 6 + 2, 5);
    tiles.insert(3 * 6 + 3, 8);
    tiles.insert(5 * 6 + 1, 2);
    tiles.insert(5 * 6 + 1, 3);
    tiles.insert(6 * 6 + 2, 77);
    tiles.insert(4 * 6 + 4, 78);
    assert_eq!(tiles.tile_neighbours(4, 2), vec![8, 11, 5, 2, 3]);
}

#[test]
fn minmax_orders_two_positions() {
    assert_eq!(minmax(3, 8), (3, 8));
    assert_eq!(minmax(8, 3), (3, 8));
    assert_eq!(minmax(5, 5), (5, 5));
    assert_eq!(minmax(0, usize::MAX), (0, usize::MAX));
}

#[test]
fn position_finds_the_first() {
    assert_eq!(position(&vec![4, 9, 2, 9], 9), 1);
    assert_eq!(position(&vec![4, 9, 2, 9], 4), 0);
    assert_eq!(position(&vec![4, 9, 2, 9], 2), 2);
}

#[test]
fn all_positions_count_up() {
    assert_eq!(all_positions(0), vec![]);
    assert_eq!(all_positions(4), vec![0, 1, 2, 3]);
}
