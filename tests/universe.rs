use game_of_life::{get_index_and_shift, set_alive_at, Universe};

fn universe_of(bytes: Vec<u8>, width: u32) -> Universe {
    let height = bytes.len() as u32 * 8 / width;
    Universe::from_bytes(width, height, bytes).expect("dimensions match the buffer")
}

fn test_is_alive_at(bytes: Vec<u8>, width: u32, row: u32, column: u32, expected: bool) {
    let universe = universe_of(bytes, width);
    assert_eq!(universe.is_alive_at(row, column), expected);
}

#[test]
fn test_is_alive_at_first_bit_when_last_bit_is_set() {
    test_is_alive_at(vec![1], 4, 0, 0, false);
}

#[test]
fn test_is_alive_at_last_bit_when_last_bit_is_set() {
    test_is_alive_at(vec![1], 4, 1, 3, true);
}

#[test]
fn test_is_alive_at_first_bit_when_first_bit_is_set() {
    test_is_alive_at(vec![1 << 7], 4, 0, 0, true);
}

#[test]
fn test_is_alive_at_last_bit_when_first_bit_is_set() {
    test_is_alive_at(vec![1 << 7], 4, 1, 3, false);
}

#[test]
fn test_tick() {
    let mut universe = Universe::from_bytes(
        8,
        5,
        vec![0b00000000, 0b00000000, 0b01110000, 0b00000000, 0b00000000],
    )
    .unwrap();
    universe.tick();
    assert_eq!(
        universe.cells().to_vec(),
        vec![0b00000000, 0b00100000, 0b00100000, 0b00100000, 0b00000000]
    );
}

#[test]
fn blinker_returns_after_two_ticks() {
    let start = vec![0b00000000, 0b00000000, 0b01110000, 0b00000000, 0b00000000];
    let mut universe = Universe::from_bytes(8, 5, start.clone()).unwrap();
    universe.tick();
    assert_ne!(universe.cells().to_vec(), start);
    universe.tick();
    assert_eq!(universe.cells().to_vec(), start);
}

#[test]
fn blinker_wraps_across_both_edges() {
    // A vertical blinker through the corner: rows 4, 0 and 1 of column 0.
    let mut universe = Universe::from_bytes(
        8,
        5,
        vec![0b10000000, 0b10000000, 0b00000000, 0b00000000, 0b10000000],
    )
    .unwrap();
    universe.tick();
    // Horizontal on row 0: columns 7, 0 and 1.
    assert_eq!(
        universe.cells().to_vec(),
        vec![0b11000001, 0b00000000, 0b00000000, 0b00000000, 0b00000000]
    );
    universe.tick();
    assert_eq!(
        universe.cells().to_vec(),
        vec![0b10000000, 0b10000000, 0b00000000, 0b00000000, 0b10000000]
    );
}

#[test]
fn block_is_still_life() {
    let start = vec![0b01100110, 0b00000000];
    let mut universe = Universe::from_bytes(4, 4, start.clone()).unwrap();
    universe.tick();
    assert_eq!(universe.cells().to_vec(), start);
}

#[test]
fn lone_cell_dies_of_underpopulation() {
    let mut universe = Universe::from_bytes(4, 4, vec![0b00000100, 0b00000000]).unwrap();
    universe.tick();
    assert_eq!(universe.cells().to_vec(), vec![0, 0]);
}

#[test]
fn crowded_cell_dies_of_overpopulation() {
    // Plus sign centered on (2, 2) of a 5 by 5 grid: the center has four live neighbors.
    // Cells 7, 11, 12, 13, 17.
    let mut universe = Universe::from_bytes(5, 5, vec![0b00000001, 0b00011100, 0b01000000, 0]).unwrap();
    assert!(universe.is_alive_at(2, 2));
    universe.tick();
    assert!(!universe.is_alive_at(2, 2));
    // The four arms survive with three neighbors, the corners between them are born.
    assert!(universe.is_alive_at(1, 2));
    assert!(universe.is_alive_at(1, 1));
    assert!(universe.is_alive_at(3, 3));
}

#[test]
fn trailing_bits_are_kept_by_tick() {
    // 3 by 3 grid: nine cells, the last seven bits of the second byte lie past the grid.
    let mut universe = Universe::from_bytes(3, 3, vec![0, 0b01111111]).unwrap();
    universe.tick();
    assert_eq!(universe.cells().to_vec(), vec![0, 0b01111111]);
}

#[test]
fn new_universe_holds_the_seeded_pattern() {
    let universe = Universe::new();
    assert_eq!(universe.width(), 64);
    assert_eq!(universe.height(), 64);
    let cells = universe.cells();
    assert_eq!(cells.len(), 512);
    assert_eq!(cells[0], 0b10101011);
    assert_eq!(cells[1], 0b10101010);
    assert_eq!(cells[2], 0b10101110);
    for index in 0..4096u32 {
        let expected = index % 2 == 0 || index % 7 == 0;
        assert_eq!(universe.is_alive_at(index / 64, index % 64), expected);
    }
}

#[test]
fn buffer_length_covers_the_grid_exactly() {
    assert_eq!(Universe::with_size(8, 8).cells().len(), 8);
    assert_eq!(Universe::with_size(3, 3).cells().len(), 2);
    assert_eq!(Universe::with_size(1, 1).cells().len(), 1);
    assert_eq!(Universe::with_size(3, 5).cells().len(), 2);
    assert_eq!(Universe::with_size(4, 4).cells().len(), 2);
    assert_eq!(Universe::with_size(7, 9).cells().len(), 8);
    assert_eq!(Universe::with_size(64, 64).cells().len(), 512);
}

#[test]
fn from_bytes_rejects_bad_dimensions() {
    assert!(Universe::from_bytes(0, 4, vec![]).is_none());
    assert!(Universe::from_bytes(4, 0, vec![]).is_none());
    assert!(Universe::from_bytes(4, 2, vec![0, 0]).is_none());
    assert!(Universe::from_bytes(3, 3, vec![0]).is_none());
    assert!(Universe::from_bytes(65536, 65536, vec![]).is_none());
    assert!(Universe::from_bytes(3, 3, vec![0, 0]).is_some());
}

#[test]
fn index_and_shift_are_msb_first() {
    assert_eq!(get_index_and_shift(0, 0, 4), (0, 7));
    assert_eq!(get_index_and_shift(1, 3, 4), (0, 0));
    assert_eq!(get_index_and_shift(2, 1, 8), (2, 6));
    assert_eq!(get_index_and_shift(3, 4, 5), (2, 4));
}

#[test]
fn set_alive_at_touches_one_bit() {
    let mut bytes = vec![0b00000000, 0b11111111];
    set_alive_at(&mut bytes, 0, 2, 4, true);
    assert_eq!(bytes, vec![0b00100000, 0b11111111]);
    set_alive_at(&mut bytes, 2, 3, 4, false);
    assert_eq!(bytes, vec![0b00100000, 0b11101111]);
    set_alive_at(&mut bytes, 0, 2, 4, true);
    assert_eq!(bytes, vec![0b00100000, 0b11101111]);
    set_alive_at(&mut bytes, 0, 2, 4, false);
    assert_eq!(bytes, vec![0b00000000, 0b11101111]);
}

#[test]
fn written_cell_reads_back() {
    let mut universe = Universe::from_bytes(4, 2, vec![0]).unwrap();
    for row in 0..2 {
        for column in 0..4 {
            assert!(!universe.is_alive_at(row, column));
        }
    }
    let mut bytes = universe.cells().to_vec();
    set_alive_at(&mut bytes, 1, 1, 4, true);
    universe = Universe::from_bytes(4, 2, bytes).unwrap();
    for row in 0..2 {
        for column in 0..4 {
            assert_eq!(universe.is_alive_at(row, column), row == 1 && column == 1);
        }
    }
}
