use rotate_cli::square::floor_sqrt;
use rotate_cli::{rotate_right, square_len, RotationError};

#[test]
fn test_square_len() {
    assert_eq!(square_len(0), Some(0));
    assert_eq!(square_len(1), Some(1));
    assert_eq!(square_len(4), Some(2));
    assert_eq!(square_len(9), Some(3));
    assert_eq!(square_len(16), Some(4));
    assert_eq!(square_len(25), Some(5));

    // Non-perfect squares
    assert_eq!(square_len(2), None);
    assert_eq!(square_len(3), None);
    assert_eq!(square_len(5), None);
    assert_eq!(square_len(8), None);
    assert_eq!(square_len(10), None);
}

#[test]
fn test_rotate_1x1_stays_same() {
    let mut data = vec![42];
    rotate_right(&mut data).unwrap();
    assert_eq!(data, vec![42]);
}

#[test]
fn test_rotate_2x2() {
    // [1, 2]     →   [3, 1]
    // [3, 4]         [4, 2]
    let mut data = vec![1, 2, 3, 4];
    rotate_right(&mut data).unwrap();
    assert_eq!(data, vec![3, 1, 4, 2]);
}

#[test]
fn test_rotate_3x3() {
    // [1, 2, 3]    →   [4, 1, 2]
    // [4, 5, 6]        [7, 5, 3]
    // [7, 8, 9]        [8, 9, 6]
    let mut data = vec![1, 2, 3, 4, 5, 6, 7, 8, 9];
    rotate_right(&mut data).unwrap();
    assert_eq!(data, vec![4, 1, 2, 7, 5, 3, 8, 9, 6]);
}

#[test]
fn test_rotate_4x4() {
    // [ 1,  2,  3,  4]   →   [ 5,  1,  2,  3]
    // [ 5,  6,  7,  8]       [ 9, 10,  6,  4]
    // [ 9, 10, 11, 12]       [13, 11,  7,  8]
    // [13, 14, 15, 16]       [14, 15, 16, 12]
    let mut data = vec![1, 2, 3, 4, 5, 6, 7, 8, 9, 10, 11, 12, 13, 14, 15, 16];
    rotate_right(&mut data).unwrap();
    let expected = vec![5, 1, 2, 3, 9, 10, 6, 4, 13, 11, 7, 8, 14, 15, 16, 12];
    assert_eq!(data, expected);
}

#[test]
fn test_rotate_empty_array() {
    let mut data: Vec<i32> = vec![];
    assert!(matches!(rotate_right(&mut data), Err(RotationError::Empty)));
}

#[test]
fn test_rotate_non_square() {
    let mut data = vec![1, 2, 3]; // Length 3 is not a perfect square
    assert!(matches!(
        rotate_right(&mut data),
        Err(RotationError::NotSquare)
    ));
}

#[test]
fn test_rotate_with_negatives() {
    // [-1, -2]      →   [-3, -1]
    // [-3, -4]          [-4, -2]
    let mut data = vec![-1, -2, -3, -4];
    rotate_right(&mut data).unwrap();
    assert_eq!(data, vec![-3, -1, -4, -2]);
}

#[test]
fn test_rotate_with_zeros() {
    let mut data = vec![0, 0, 0, 0];
    rotate_right(&mut data).unwrap();
    assert_eq!(data, vec![0, 0, 0, 0]);
}

#[test]
fn test_rotate_ring_size_times_identity() {
    // The outer ring of a 3x3 table has 8 cells: 8 rotations restore it.
    let start = vec![1, 2, 3, 4, 5, 6, 7, 8, 9];
    let mut data = start.clone();

    for _ in 0..8 {
        rotate_right(&mut data).unwrap();
    }

    assert_eq!(data, start);
}

#[test]
fn test_rotate_5x5() {
    // [ 1,  2,  3,  4,  5]     →   [ 6,  1,  2,  3,  4]
    // [ 6,  7,  8,  9, 10]         [11, 12,  7,  8,  5]
    // [11, 12, 13, 14, 15]         [16, 17, 13,  9, 10]
    // [16, 17, 18, 19, 20]         [21, 18, 19, 14, 15]
    // [21, 22, 23, 24, 25]         [22, 23, 24, 25, 20]
    let mut data = (1..=25).collect::<Vec<_>>();
    rotate_right(&mut data).unwrap();
    let expected = vec![
        6, 1, 2, 3, 4, 11, 12, 7, 8, 5, 16, 17, 13, 9, 10, 21, 18, 19, 14, 15, 22, 23, 24, 25,
        20,
    ];
    assert_eq!(data, expected);
}

#[test]
fn test_rotate_10x10() {
    // Five rings, each one step clockwise; the side is even, so every cell moves.
    let mut data = (1..=100).collect::<Vec<u32>>();
    rotate_right(&mut data).unwrap();
    let expected = vec![
        11,1,2,3,4,5,6,7,8,9,
        21,22,12,13,14,15,16,17,18,10,
        31,32,33,23,24,25,26,27,19,20,
        41,42,43,44,34,35,36,28,29,30,
        51,52,53,54,55,45,37,38,39,40,
        61,62,63,64,56,46,47,48,49,50,
        71,72,73,65,66,67,57,58,59,60,
        81,82,74,75,76,77,78,68,69,70,
        91,83,84,85,86,87,88,89,79,80,
        92,93,94,95,96,97,98,99,100,90,
    ];
    assert_eq!(data, expected);
}

fn rotated_times(table: &[i32], times: usize) -> Vec<i32> {
    let mut data = table.to_vec();
    for _ in 0..times {
        rotate_right(&mut data).unwrap();
    }
    data
}

#[test]
fn square_len_is_exact_for_large_lengths() {
    assert_eq!(square_len(1_000_000), Some(1000));
    assert_eq!(square_len(999_999), None);
    assert_eq!(square_len(1_000_001), None);
    assert_eq!(square_len(4294836225), Some(65535));
    assert_eq!(square_len(usize::MAX), None);
    let root = (1usize << (usize::BITS / 2)) - 1;
    assert_eq!(square_len(root * root), Some(root));
    assert_eq!(square_len(root * root - 1), None);
    assert_eq!(square_len(root * root + 1), None);
}

#[test]
fn square_len_is_exact_beyond_the_doubles() {
    if usize::BITS >= 64 {
        // 94906267 squared lies above 2^53, where doubles no longer hold every integer.
        let root: usize = 94_906_267;
        assert_eq!(square_len(root * root), Some(root));
        assert_eq!(square_len(root * root - 1), None);
        assert_eq!(square_len(root * root + 1), None);
        let root: usize = 3_037_000_499;
        assert_eq!(square_len(root * root), Some(root));
        assert_eq!(square_len(root * root + 1), None);
    }
}

#[test]
fn square_len_finds_exactly_the_squares_below_ten_thousand() {
    let mut root = 0;
    for len in 0..10_000usize {
        if (root + 1) * (root + 1) == len {
            root += 1;
        }
        let expected = if root * root == len { Some(root) } else { None };
        assert_eq!(square_len(len), expected, "{len}");
    }
}

#[test]
fn floor_sqrt_rounds_down() {
    assert_eq!(floor_sqrt(0), 0);
    assert_eq!(floor_sqrt(1), 1);
    assert_eq!(floor_sqrt(3), 1);
    assert_eq!(floor_sqrt(4), 2);
    assert_eq!(floor_sqrt(8), 2);
    assert_eq!(floor_sqrt(99), 9);
    assert_eq!(floor_sqrt(100), 10);
    assert_eq!(floor_sqrt(usize::MAX), (1usize << (usize::BITS / 2)) - 1);
}

#[test]
fn rotating_a_failing_buffer_leaves_it_unchanged() {
    for len in [2usize, 3, 5, 6, 7, 8, 10, 15, 17, 24, 26] {
        let start: Vec<i32> = (0..len as i32).collect();
        let mut data = start.clone();
        assert!(matches!(rotate_right(&mut data), Err(RotationError::NotSquare)), "{len}");
        assert_eq!(data, start);
    }
    let mut empty: [u8; 0] = [];
    assert!(matches!(rotate_right(&mut empty), Err(RotationError::Empty)));
}

#[test]
fn rotating_a_single_cell_succeeds_and_changes_nothing() {
    let mut data = ["only"];
    assert!(rotate_right(&mut data).is_ok());
    assert_eq!(data, ["only"]);
}

#[test]
fn rotation_keeps_length_and_elements() {
    for side in 1..=9usize {
        let start: Vec<i32> = (0..(side * side) as i32).map(|value| value % 7).collect();
        let mut data = start.clone();
        rotate_right(&mut data).unwrap();
        assert_eq!(data.len(), start.len());
        let mut sorted_before = start.clone();
        let mut sorted_after = data.clone();
        sorted_before.sort();
        sorted_after.sort();
        assert_eq!(sorted_before, sorted_after, "side {side}");
    }
}

#[test]
fn centre_of_an_odd_table_never_moves() {
    for side in [1usize, 3, 5, 7, 9] {
        let table: Vec<i32> = (0..(side * side) as i32).collect();
        let centre = (side / 2) * side + side / 2;
        let mut data = table.clone();
        for _ in 0..30 {
            rotate_right(&mut data).unwrap();
            assert_eq!(data[centre], table[centre], "side {side}");
        }
    }
}

#[test]
fn outer_ring_many_rotations_restore_small_tables() {
    for side in 2..=5usize {
        let table: Vec<i32> = (0..(side * side) as i32).collect();
        assert_eq!(rotated_times(&table, 4 * (side - 1)), table, "side {side}");
    }
}

#[test]
fn outer_ring_many_rotations_do_not_restore_a_6x6_table() {
    let table: Vec<i32> = (0..36).collect();
    let after = rotated_times(&table, 20);
    assert_ne!(after, table);
    // The outer ring and the innermost ring are back; the ring of twelve is not.
    assert_eq!(after[..6], table[..6]);
    assert_eq!(after[14], table[14]);
    assert_ne!(after[7], table[7]);
    // Sixty rotations turn every ring a whole number of times.
    assert_eq!(rotated_times(&table, 60), table);
    // A table whose rings read the same all round is restored by any number.
    assert_eq!(rotated_times(&[4; 36], 20), vec![4; 36]);
}

#[test]
fn each_ring_turns_one_place_per_rotation() {
    // Ring one of a 5x5 table, clockwise from its top-left corner.
    let walk = [6usize, 7, 8, 13, 18, 17, 16, 11];
    let table: Vec<i32> = (0..25).collect();
    for times in 0..20usize {
        let after = rotated_times(&table, times);
        for (place, &index) in walk.iter().enumerate() {
            let from = walk[(place + 8 * 3 - times) % 8];
            assert_eq!(after[index], table[from], "times {times}, place {place}");
        }
    }
}

#[test]
fn rotation_works_on_any_copyable_element() {
    let mut letters = ['a', 'b', 'c', 'd'];
    rotate_right(&mut letters).unwrap();
    assert_eq!(letters, ['c', 'a', 'd', 'b']);

    let mut pairs = [(1u8, true), (2, false), (3, true), (4, false)];
    rotate_right(&mut pairs[..]).unwrap();
    assert_eq!(pairs, [(3, true), (1, true), (4, false), (2, false)]);
}

#[test]
fn rotation_error_is_described_in_words() {
    assert_eq!(RotationError::NotSquare.message(), "Array length is not a perfect square");
    assert_eq!(RotationError::Empty.message(), "Array is empty");
}

#[test]
fn rotate_the_table_of_the_example() {
    let mut data = vec![40, 20, 90, 10];
    rotate_right(&mut data).unwrap();
    assert_eq!(data, vec![90, 40, 10, 20]);
}
