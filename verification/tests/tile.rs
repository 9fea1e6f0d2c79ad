use mercantile::{minmax, Tile, TileError};

#[test]
fn new_accepts_every_index_of_the_grid() {
    for z in 0..=6 {
        let side = 1 << z;
        for x in 0..side {
            for y in 0..side {
                assert_eq!(Tile::new(x, y, z), Ok(Tile { x, y, z }));
            }
        }
    }
}

#[test]
fn new_rejects_indices_around_the_grid() {
    for z in 0..=6 {
        let side = 1 << z;
        for v in 0..side {
            assert_eq!(Tile::new(-1, v, z), Err(TileError::InvalidTileAddress));
            assert_eq!(Tile::new(v, -1, z), Err(TileError::InvalidTileAddress));
            assert_eq!(Tile::new(side, v, z), Err(TileError::InvalidTileAddress));
            assert_eq!(Tile::new(v, side, z), Err(TileError::InvalidTileAddress));
        }
    }
}

#[test]
fn new_keeps_the_three_numbers() {
    let tile = Tile::new(486, 332, 10).unwrap();
    assert_eq!(tile.x, 486);
    assert_eq!(tile.y, 332);
    assert_eq!(tile.z, 10);
}

#[test]
fn new_at_the_last_index() {
    assert_eq!(Tile::new(1023, 1023, 10), Ok(Tile { x: 1023, y: 1023, z: 10 }));
    assert_eq!(Tile::new(1024, 1023, 10), Err(TileError::InvalidTileAddress));
    assert_eq!(Tile::new(1023, 1024, 10), Err(TileError::InvalidTileAddress));
}

#[test]
fn new_at_zoom_zero() {
    assert_eq!(Tile::new(0, 0, 0), Ok(Tile { x: 0, y: 0, z: 0 }));
    assert_eq!(Tile::new(1, 0, 0), Err(TileError::InvalidTileAddress));
    assert_eq!(Tile::new(0, 1, 0), Err(TileError::InvalidTileAddress));
}

#[test]
fn new_rejects_a_negative_zoom() {
    assert_eq!(Tile::new(0, 0, -1), Err(TileError::InvalidTileAddress));
    assert_eq!(Tile::new(0, 0, i32::MIN), Err(TileError::InvalidTileAddress));
}

#[test]
fn new_rejects_the_extremes_of_the_type() {
    assert_eq!(Tile::new(i32::MIN, 0, 4), Err(TileError::InvalidTileAddress));
    assert_eq!(Tile::new(0, i32::MAX, 4), Err(TileError::InvalidTileAddress));
    assert_eq!(Tile::new(i32::MAX, 0, 30), Err(TileError::InvalidTileAddress));
}

#[test]
fn new_at_deep_zoom_levels() {
    let last_at_30 = 0x3fff_ffff;
    assert_eq!(Tile::new(last_at_30, last_at_30, 30), Ok(Tile { x: last_at_30, y: last_at_30, z: 30 }));
    assert_eq!(Tile::new(last_at_30 + 1, 0, 30), Err(TileError::InvalidTileAddress));
    assert_eq!(Tile::new(i32::MAX, i32::MAX, 31), Ok(Tile { x: i32::MAX, y: i32::MAX, z: 31 }));
    assert_eq!(Tile::new(i32::MAX, 0, 32), Ok(Tile { x: i32::MAX, y: 0, z: 32 }));
    assert_eq!(Tile::new(7, i32::MAX, i32::MAX), Ok(Tile { x: 7, y: i32::MAX, z: i32::MAX }));
    assert_eq!(Tile::new(-1, 0, 40), Err(TileError::InvalidTileAddress));
}

#[test]
fn minmax_is_the_range_of_the_grid() {
    assert_eq!(minmax(0), (0, 0));
    assert_eq!(minmax(1), (0, 1));
    assert_eq!(minmax(2), (0, 3));
    assert_eq!(minmax(10), (0, 1023));
    assert_eq!(minmax(30), (0, 1_073_741_823));
}

#[test]
fn minmax_stops_at_the_end_of_the_type() {
    assert_eq!(minmax(31), (0, i32::MAX));
    assert_eq!(minmax(32), (0, i32::MAX));
    assert_eq!(minmax(i32::MAX), (0, i32::MAX));
}

#[test]
fn is_valid_agrees_with_new() {
    for z in -1..=4 {
        for x in -2..=17 {
            for y in -2..=17 {
                let tile = Tile { x, y, z };
                assert_eq!(tile.is_valid(), Tile::new(x, y, z).is_ok());
            }
        }
    }
}

#[test]
fn is_valid_on_tiles_written_by_hand() {
    assert!(Tile { x: 486, y: 332, z: 10 }.is_valid());
    assert!(!Tile { x: 486, y: 1024, z: 10 }.is_valid());
    assert!(!Tile { x: -1, y: 0, z: 10 }.is_valid());
    assert!(!Tile { x: 0, y: 0, z: -3 }.is_valid());
}
