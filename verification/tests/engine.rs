use numgrid::coords::axis_steps;
use numgrid::coords::column_numerator;
use numgrid::coords::row_numerator;
use numgrid::coords::MAX_SIZE;
use numgrid::generator::fill_labels;
use numgrid::generator::generate;
use numgrid::generator::generate_padded_array;
use numgrid::generator::generate_tagged;
use numgrid::generator::mask_column;
use numgrid::generator::parallel_mask;
use numgrid::generator::set_array_border_zero;
use numgrid::labeler::label_mask;
use numgrid::shape::cell_selected;
use numgrid::shape::region_contains;
use numgrid::shape::GridError;
use numgrid::shape::Shape;

const SHAPES: [Shape; 7] = [
    Shape::Square,
    Shape::LShape,
    Shape::Crescent,
    Shape::Disk,
    Shape::Annulus,
    Shape::Cardioid,
    Shape::Rose,
];

fn grid(shape: Shape, size: i64, parallel: bool) -> Vec<u32> {
    match generate(shape, size, parallel) {
        Ok(buffer) => buffer,
        Err(error) => panic!("size {} refused: {:?}", size, error),
    }
}

fn largest(buffer: &[u32]) -> u32 {
    let mut best = 0;
    for &label in buffer {
        if label > best {
            best = label;
        }
    }
    best
}

fn checksum(buffer: &[u32]) -> u64 {
    let mut sum: u64 = 0;
    for &label in buffer {
        sum += label as u64;
    }
    sum % 1_000_003
}

#[test]
fn coordinates_run_from_one_end_to_the_other() {
    assert_eq!(axis_steps(5), 4);
    assert_eq!(row_numerator(5, 0), 4);
    assert_eq!(row_numerator(5, 2), 0);
    assert_eq!(row_numerator(5, 4), -4);
    assert_eq!(column_numerator(5, 0), -4);
    assert_eq!(column_numerator(5, 2), 0);
    assert_eq!(column_numerator(5, 4), 4);
    assert_eq!(row_numerator(6, 1), 3);
    assert_eq!(column_numerator(6, 1), -3);
}

#[test]
fn coordinates_at_size_two_are_the_corners() {
    assert_eq!(axis_steps(2), 1);
    assert_eq!(row_numerator(2, 0), 1);
    assert_eq!(row_numerator(2, 1), -1);
    assert_eq!(column_numerator(2, 0), -1);
    assert_eq!(column_numerator(2, 1), 1);
}

#[test]
fn disk_of_size_five_keeps_the_center_and_drops_the_rim() {
    let buffer = grid(Shape::Disk, 5, false);
    assert_eq!(buffer.len(), 25);
    assert_ne!(buffer[2 + 2 * 5], 0);
    assert!(region_contains(Shape::Disk, 5, 2, 2));
    for row in 0..5usize {
        for col in 0..5usize {
            let a = row_numerator(5, row);
            let b = column_numerator(5, col);
            let inside = a * a + b * b < 16;
            assert_eq!(buffer[row + col * 5] != 0, inside);
        }
    }
    for &(row, col) in &[(0usize, 2usize), (4, 2), (2, 0), (2, 4)] {
        assert_eq!(buffer[row + col * 5], 0);
    }
    for &(row, col) in &[(0usize, 0usize), (0, 4), (4, 0), (4, 4)] {
        assert_eq!(buffer[row + col * 5], 0);
    }
}

#[test]
fn l_shape_of_size_six_follows_the_width_two() {
    let buffer = grid(Shape::LShape, 6, false);
    assert!(cell_selected(Shape::LShape, 6, 1, 1));
    assert_ne!(buffer[1 + 1 * 6], 0);
    assert!(cell_selected(Shape::LShape, 6, 4, 4));
    assert_ne!(buffer[4 + 4 * 6], 0);
    assert!(cell_selected(Shape::LShape, 6, 3, 4));
    assert!(cell_selected(Shape::LShape, 6, 2, 2));
    for &(row, col) in &[(1usize, 3usize), (1, 4), (2, 3), (2, 4)] {
        assert!(!cell_selected(Shape::LShape, 6, row, col));
        assert_eq!(buffer[row + col * 6], 0);
    }
    for row in 1..5usize {
        for col in 1..5usize {
            assert_eq!(buffer[row + col * 6] != 0, row > 2 || col <= 2);
        }
    }
}

#[test]
fn rose_in_parallel_equals_rose_in_sequence() {
    for size in 2..40i64 {
        assert_eq!(grid(Shape::Rose, size, true), grid(Shape::Rose, size, false));
    }
    assert_eq!(grid(Shape::Rose, 131, true), grid(Shape::Rose, 131, false));
}

#[test]
fn rose_in_parallel_of_size_eight() {
    let expected: Vec<u32> = vec![
        0, 0, 0, 0, 0, 0, 0, 0,
        0, 1, 7, 10, 14, 0, 21, 0,
        0, 2, 8, 11, 0, 0, 22, 0,
        0, 3, 9, 12, 0, 0, 23, 0,
        0, 4, 0, 0, 15, 18, 24, 0,
        0, 5, 0, 0, 16, 19, 25, 0,
        0, 6, 0, 13, 17, 20, 26, 0,
        0, 0, 0, 0, 0, 0, 0, 0,
    ];
    assert_eq!(grid(Shape::Rose, 8, true), expected);
    assert_eq!(grid(Shape::Rose, 8, false), expected);
}

#[test]
fn parallel_flag_changes_nothing_for_the_other_shapes() {
    for shape in SHAPES {
        for size in [2i64, 3, 7, 12] {
            assert_eq!(grid(shape, size, true), grid(shape, size, false));
        }
    }
}

#[test]
fn generating_twice_gives_the_same_grid() {
    for shape in SHAPES {
        for size in [2i64, 3, 5, 10, 31] {
            assert_eq!(grid(shape, size, false), grid(shape, size, false));
        }
    }
    assert_eq!(grid(Shape::Rose, 31, true), grid(Shape::Rose, 31, true));
}

#[test]
fn size_two_is_all_zero_for_every_shape() {
    for shape in SHAPES {
        assert_eq!(grid(shape, 2, false), vec![0u32; 4]);
        assert_eq!(grid(shape, 2, true), vec![0u32; 4]);
    }
}

#[test]
fn size_three_leaves_one_interior_cell() {
    assert_eq!(grid(Shape::Square, 3, false), vec![0, 0, 0, 0, 1, 0, 0, 0, 0]);
    assert_eq!(grid(Shape::LShape, 3, false), vec![0, 0, 0, 0, 1, 0, 0, 0, 0]);
    assert_eq!(grid(Shape::Crescent, 3, false), vec![0, 0, 0, 0, 1, 0, 0, 0, 0]);
    assert_eq!(grid(Shape::Disk, 3, false), vec![0, 0, 0, 0, 1, 0, 0, 0, 0]);
    assert_eq!(grid(Shape::Annulus, 3, false), vec![0u32; 9]);
    assert_eq!(grid(Shape::Cardioid, 3, false), vec![0u32; 9]);
    assert_eq!(grid(Shape::Rose, 3, false), vec![0, 0, 0, 0, 1, 0, 0, 0, 0]);
}

#[test]
fn sizes_below_two_are_invalid() {
    for shape in SHAPES {
        for size in [1i64, 0, -1, -65535, i64::MIN] {
            assert_eq!(generate(shape, size, false), Err(GridError::InvalidSize));
            assert_eq!(generate(shape, size, true), Err(GridError::InvalidSize));
        }
    }
}

#[test]
fn sizes_above_the_maximum_are_invalid() {
    assert_eq!(MAX_SIZE, 65535);
    for shape in SHAPES {
        for size in [65536i64, 1 << 32, i64::MAX] {
            assert_eq!(generate(shape, size, false), Err(GridError::InvalidSize));
        }
    }
}

#[test]
fn tags_name_the_seven_shapes() {
    assert_eq!(Shape::from_tag('S'), Ok(Shape::Square));
    assert_eq!(Shape::from_tag('L'), Ok(Shape::LShape));
    assert_eq!(Shape::from_tag('C'), Ok(Shape::Crescent));
    assert_eq!(Shape::from_tag('D'), Ok(Shape::Disk));
    assert_eq!(Shape::from_tag('A'), Ok(Shape::Annulus));
    assert_eq!(Shape::from_tag('H'), Ok(Shape::Cardioid));
    assert_eq!(Shape::from_tag('B'), Ok(Shape::Rose));
    for shape in SHAPES {
        assert_eq!(Shape::from_tag(shape.tag()), Ok(shape));
    }
}

#[test]
fn other_tags_are_unsupported() {
    for tag in ['N', 's', 'b', ' ', '0', 'X', '\u{e9}'] {
        assert_eq!(Shape::from_tag(tag), Err(GridError::UnsupportedShape));
    }
}

#[test]
fn padding_policy_of_each_shape() {
    assert!(Shape::Square.is_padded());
    assert!(Shape::LShape.is_padded());
    assert!(Shape::Crescent.is_padded());
    assert!(Shape::Rose.is_padded());
    assert!(!Shape::Disk.is_padded());
    assert!(!Shape::Annulus.is_padded());
    assert!(!Shape::Cardioid.is_padded());
}

#[test]
fn border_of_a_padded_shape_is_zero() {
    for shape in SHAPES {
        if !shape.is_padded() {
            continue;
        }
        for size in [3usize, 4, 9, 20] {
            let buffer = grid(shape, size as i64, false);
            for i in 0..size {
                assert_eq!(buffer[i], 0);
                assert_eq!(buffer[i * size], 0);
                assert_eq!(buffer[size - 1 + i * size], 0);
                assert_eq!(buffer[i + (size - 1) * size], 0);
            }
        }
    }
}

#[test]
fn labels_are_nonzero_exactly_on_selected_cells() {
    for shape in SHAPES {
        for size in [2usize, 5, 11, 24] {
            let buffer = grid(shape, size as i64, false);
            for row in 0..size {
                for col in 0..size {
                    assert_eq!(
                        buffer[row + col * size] != 0,
                        cell_selected(shape, size, row, col)
                    );
                }
            }
        }
    }
}

#[test]
fn labels_count_up_in_scan_order_without_gaps() {
    for shape in SHAPES {
        for size in [3usize, 6, 17, 40] {
            let buffer = grid(shape, size as i64, false);
            let mut next = 1u32;
            for row in 0..size {
                for col in 0..size {
                    let label = buffer[row + col * size];
                    if label != 0 {
                        assert_eq!(label, next);
                        next += 1;
                    }
                }
            }
            assert_eq!(largest(&buffer), next - 1);
        }
    }
}

#[test]
fn larger_grids_have_the_expected_counts() {
    let expected: [(Shape, [(i64, u32, u64, u32); 3]); 7] = [
        (Shape::Square, [(16, 196, 19306, 64), (33, 961, 462241, 822), (100, 9604, 123072, 3186)]),
        (Shape::LShape, [(16, 147, 10878, 0), (33, 721, 260281, 582), (100, 7203, 945131, 0)]),
        (Shape::Crescent, [(16, 159, 12720, 38), (33, 778, 303031, 639), (100, 7727, 857041, 1741)]),
        (Shape::Disk, [(16, 172, 14878, 52), (33, 793, 314821, 716), (100, 7668, 402859, 2236)]),
        (Shape::Annulus, [(16, 112, 6328, 0), (33, 516, 133386, 439), (100, 5092, 966742, 0)]),
        (Shape::Cardioid, [(16, 94, 4465, 31), (33, 417, 87153, 386), (100, 3972, 890357, 1208)]),
        (Shape::Rose, [(16, 150, 11325, 0), (33, 757, 286903, 618), (100, 7598, 868517, 2567)]),
    ];
    for (shape, cases) in expected {
        for (size, count, sum, probe) in cases {
            let buffer = grid(shape, size, false);
            let n = size as usize;
            assert_eq!(buffer.len(), n * n);
            assert_eq!(largest(&buffer), count);
            assert_eq!(checksum(&buffer), sum);
            assert_eq!(buffer[n * n / 2 + n / 3], probe);
        }
    }
}

#[test]
fn disk_excludes_grid_points_on_the_circle() {
    // 18^2 + 80^2 = 82^2: the cell lies exactly on the unit circle.
    assert_eq!(row_numerator(83, 32), 18);
    assert_eq!(column_numerator(83, 1), -80);
    assert!(!region_contains(Shape::Disk, 83, 32, 1));
    assert!(!region_contains(Shape::Annulus, 83, 32, 1));
    let buffer = grid(Shape::Disk, 83, false);
    assert_eq!(buffer[32 + 83], 0);
    assert_ne!(buffer[33 + 83 * 2], 0);
}

#[test]
fn border_pass_zeroes_the_ring_and_keeps_the_interior() {
    let mut buffer: Vec<u32> = (1..=16).collect();
    set_array_border_zero(4, &mut buffer);
    assert_eq!(buffer, vec![0, 0, 0, 0, 0, 6, 7, 0, 0, 10, 11, 0, 0, 0, 0, 0]);
    let mut buffer: Vec<u32> = (1..=25).collect();
    set_array_border_zero(5, &mut buffer);
    assert_eq!(
        buffer,
        vec![0, 0, 0, 0, 0, 0, 7, 8, 9, 0, 0, 12, 13, 14, 0, 0, 17, 18, 19, 0, 0, 0, 0, 0, 0]
    );
}

#[test]
fn border_pass_on_tiny_buffers() {
    let mut empty: Vec<u32> = Vec::new();
    set_array_border_zero(0, &mut empty);
    assert!(empty.is_empty());
    let mut one: Vec<u32> = vec![9];
    set_array_border_zero(1, &mut one);
    assert_eq!(one, vec![0]);
    let mut two: Vec<u32> = vec![9, 8, 7, 6];
    set_array_border_zero(2, &mut two);
    assert_eq!(two, vec![0, 0, 0, 0]);
    let mut three: Vec<u32> = vec![9; 9];
    set_array_border_zero(3, &mut three);
    assert_eq!(three, vec![0, 0, 0, 0, 9, 0, 0, 0, 0]);
}

#[test]
fn padded_array_is_zero() {
    assert_eq!(generate_padded_array(0), Vec::<u32>::new());
    assert_eq!(generate_padded_array(1), vec![0u32; 1]);
    assert_eq!(generate_padded_array(2), vec![0u32; 4]);
    assert_eq!(generate_padded_array(7), vec![0u32; 49]);
}

#[test]
fn fill_labels_keeps_the_zero_border_and_overwrites_the_interior() {
    let mut buffer: Vec<u32> = vec![77; 25];
    set_array_border_zero(5, &mut buffer);
    fill_labels(Shape::LShape, 5, &mut buffer);
    assert_eq!(buffer, grid(Shape::LShape, 5, false));
    let mut buffer: Vec<u32> = vec![77; 25];
    fill_labels(Shape::Disk, 5, &mut buffer);
    assert_eq!(buffer, grid(Shape::Disk, 5, false));
}

#[test]
fn label_mask_numbers_the_selected_cells_in_scan_order() {
    // Index = row + col * 3; the scan walks row 0 through its columns first.
    let mask = [true, false, true, true, true, false, false, true, true];
    assert_eq!(label_mask(&mask, 3), vec![1, 0, 5, 2, 3, 0, 0, 4, 6]);
    assert_eq!(label_mask(&[false; 4], 2), vec![0, 0, 0, 0]);
    assert_eq!(label_mask(&[true; 4], 2), vec![1, 3, 2, 4]);
    assert_eq!(label_mask(&[true], 1), vec![1]);
    assert_eq!(label_mask(&[], 0), Vec::<u32>::new());
}

#[test]
fn mask_column_fills_one_column() {
    for shape in SHAPES {
        let n = 9usize;
        for col in 0..n {
            let mut column = vec![col % 2 == 0; n];
            mask_column(shape, n, col, &mut column);
            for row in 0..n {
                assert_eq!(column[row], cell_selected(shape, n, row, col));
            }
        }
    }
}

#[test]
fn parallel_mask_holds_the_selection_of_every_cell() {
    for shape in SHAPES {
        for n in [2usize, 3, 10, 27] {
            let mask = parallel_mask(shape, n);
            assert_eq!(mask.len(), n * n);
            for row in 0..n {
                for col in 0..n {
                    assert_eq!(mask[row + col * n], cell_selected(shape, n, row, col));
                }
            }
        }
    }
    assert!(parallel_mask(Shape::Rose, 8).iter().any(|&selected| selected));
    assert_eq!(label_mask(&parallel_mask(Shape::Rose, 8), 8), grid(Shape::Rose, 8, false));
}

#[test]
fn tagged_generation_is_generation_of_the_named_shape() {
    for shape in SHAPES {
        for size in [2i64, 5, 13] {
            assert_eq!(generate_tagged(shape.tag(), size, false), generate(shape, size, false));
            assert_eq!(generate_tagged(shape.tag(), size, true), generate(shape, size, false));
        }
        assert_eq!(generate_tagged(shape.tag(), 1, false), Err(GridError::InvalidSize));
    }
}

#[test]
fn tagged_generation_refuses_an_unknown_tag_first() {
    assert_eq!(generate_tagged('N', 5, false), Err(GridError::UnsupportedShape));
    assert_eq!(generate_tagged('d', 5, true), Err(GridError::UnsupportedShape));
    assert_eq!(generate_tagged('N', 0, false), Err(GridError::UnsupportedShape));
    assert_eq!(generate_tagged('?', 70000, false), Err(GridError::UnsupportedShape));
}
