use c3d_parameters::grids::row_major_cells;
use c3d_parameters::names::names_match;
use c3d_parameters::{C3dParseError, Parameter, ParameterData, Processor};
use grid::{Grid, Order};

fn bits(x: f32) -> u32 {
    x.to_bits()
}

#[test]
fn scalar_float_record_intel() {
    let record = Parameter::float(bits(14.0)).write(&Processor::Intel, "MARKER_DIAMETER", 1, false);
    let mut expected = vec![15u8];
    expected.extend_from_slice(b"MARKER_DIAMETER");
    expected.extend_from_slice(&[10, 0]);
    expected.extend_from_slice(&[1, 4, 0]);
    expected.extend_from_slice(&[0x00, 0x00, 0x60, 0x41]);
    expected.push(0);
    assert_eq!(record, expected);
    assert_eq!(record.len(), 26);
}

#[test]
fn scalar_float_record_sgi() {
    let record = Parameter::float(bits(14.0)).write(&Processor::SgiMips, "ACC_FACTOR", 3, false);
    let mut expected = vec![10u8];
    expected.extend_from_slice(b"ACC_FACTOR");
    expected.extend_from_slice(&[0, 10]);
    expected.extend_from_slice(&[3, 4, 0]);
    expected.extend_from_slice(&[0x41, 0x60, 0x00, 0x00]);
    expected.push(0);
    assert_eq!(record, expected);
}

#[test]
fn scalar_float_record_dec() {
    let record = Parameter::float(bits(14.0)).write(&Processor::Dec, "X", 2, false);
    assert_eq!(record, vec![1, b'X', 10, 0, 2, 4, 0, 0x60, 0x42, 0x00, 0x00, 0]);
}

#[test]
fn locked_record_has_negative_length() {
    let record = Parameter::integer(-2).write(&Processor::Intel, "RATE", 7, true);
    assert_eq!(record, vec![252, b'R', b'A', b'T', b'E', 8, 0, 7, 2, 0, 0xFE, 0xFF, 0]);
    assert_eq!(record[0] as i8, -4);
}

#[test]
fn scalar_byte_and_char_records() {
    let byte = Parameter::byte(-1).write(&Processor::Intel, "B", 1, false);
    assert_eq!(byte, vec![1, b'B', 7, 0, 1, 1, 0, 0xFF, 0]);
    let text = Parameter::char(b'q').write(&Processor::Intel, "C", 1, false);
    assert_eq!(text, vec![1, b'C', 7, 0, 1, 255, 0, b'q', 0]);
    assert_eq!(text[5] as i8, -1);
}

#[test]
fn grid_record_lists_extents_then_data() {
    let p = Parameter::new(vec![2, 3], ParameterData::Integer(vec![1, 2, 3, 4, 5, 6])).unwrap();
    let record = p.write(&Processor::SgiMips, "M", 5, false);
    let mut expected = vec![1u8, b'M', 0, 20, 5, 2, 2, 2, 3];
    expected.extend_from_slice(&[0, 1, 0, 2, 0, 3, 0, 4, 0, 5, 0, 6]);
    expected.push(0);
    assert_eq!(record, expected);
}

#[test]
fn description_is_written_with_its_length() {
    let mut p = Parameter::integer(1);
    assert!(p.set_description(b"frames"));
    assert_eq!(p.description().as_slice(), b"frames");
    let record = p.write(&Processor::Intel, "N", 1, false);
    assert_eq!(
        record,
        vec![1, b'N', 14, 0, 1, 2, 0, 1, 0, 6, b'f', b'r', b'a', b'm', b'e', b's']
    );
}

#[test]
fn description_that_does_not_fit_is_refused() {
    let mut p = Parameter::integer(1);
    assert!(p.set_description(&[b'x'; 255]));
    assert!(!p.set_description(&[b'y'; 256]));
    assert_eq!(p.description().len(), 255);
    assert_eq!(p.description()[0], b'x');
}

#[test]
fn new_wants_as_much_data_as_the_extents_say() {
    assert!(Parameter::new(vec![3, 2], ParameterData::Float(vec![0; 6])).is_some());
    assert!(Parameter::new(vec![3, 2], ParameterData::Float(vec![0; 4])).is_none());
    assert!(Parameter::new(vec![], ParameterData::Byte(vec![5])).is_some());
    assert!(Parameter::new(vec![], ParameterData::Byte(vec![])).is_none());
    assert!(Parameter::new(vec![4, 0, 200], ParameterData::Char(vec![])).is_some());
    assert!(Parameter::new(vec![0], ParameterData::Char(vec![1])).is_none());
}

#[test]
fn new_refuses_what_the_offset_cannot_span() {
    // Beside two extents, 32759 bytes of data fit: 8189 floats, but not 8190.
    assert!(Parameter::new(vec![89, 92], ParameterData::Float(vec![0; 8188])).is_some());
    assert!(Parameter::new(vec![90, 91], ParameterData::Float(vec![0; 8190])).is_none());
    assert!(Parameter::new(vec![255, 129], ParameterData::Char(vec![0; 32895])).is_none());
    assert!(Parameter::new(vec![127, 129], ParameterData::Integer(vec![0; 16383])).is_none());
    assert!(Parameter::new(vec![3, 43, 127], ParameterData::Integer(vec![0; 16383])).is_none());
    assert!(Parameter::new(vec![3, 43, 127], ParameterData::Byte(vec![0; 16383])).is_some());
    let most = Parameter::new(vec![255, 128], ParameterData::Char(vec![7; 32640])).unwrap();
    let record = most.write(&Processor::Intel, "A", 1, false);
    assert_eq!(record.len(), 2 + 2 + 3 + 2 + 32640 + 1);
    assert_eq!(&record[2..4], &[0x88, 0x7F]);
    let mut most = most;
    assert!(!most.set_description(&[b'd'; 120]));
    assert!(most.set_description(&[b'd'; 119]));
    let record = most.write(&Processor::Intel, "A", 1, false);
    assert_eq!(&record[2..4], &[0xFF, 0x7F]);
    assert_eq!(record.len(), 2 + 32767);
}

#[test]
fn huge_extents_with_a_zero_hold_nothing() {
    let dims = vec![255, 255, 255, 255, 255, 255, 255, 255, 255, 0];
    let p = Parameter::new(dims.clone(), ParameterData::Float(vec![])).unwrap();
    assert_eq!(p.dimensions(), &dims);
    assert!(Parameter::new(vec![255, 255, 255, 255, 255, 255, 255, 255, 255], ParameterData::Float(vec![])).is_none());
}

#[test]
fn getters_give_what_was_put_in() {
    let mut p = Parameter::new(vec![2], ParameterData::Byte(vec![-3, 4])).unwrap();
    assert_eq!(p.dimensions(), &vec![2]);
    assert_eq!(p.data(), &ParameterData::Byte(vec![-3, 4]));
    assert!(p.description().is_empty());
    assert!(!p.is_locked());
    p.set_locked(true);
    assert!(p.is_locked());
    assert_eq!(p.data(), &ParameterData::Byte(vec![-3, 4]));
}

#[test]
fn as_float_reads_scalars_only() {
    assert_eq!(Parameter::float(bits(2.5)).as_float(), Ok(bits(2.5)));
    assert_eq!(Parameter::integer(2).as_float(), Err(C3dParseError::UnexpectedType));
    assert_eq!(Parameter::byte(2).as_float(), Err(C3dParseError::UnexpectedType));
    assert_eq!(Parameter::char(2).as_float(), Err(C3dParseError::UnexpectedType));
    let one = Parameter::new(vec![1], ParameterData::Float(vec![bits(2.5)])).unwrap();
    assert_eq!(one.as_float(), Err(C3dParseError::DimensionMismatch));
    let wrong_both = Parameter::new(vec![1], ParameterData::Integer(vec![2])).unwrap();
    assert_eq!(wrong_both.as_float(), Err(C3dParseError::UnexpectedType));
}

#[test]
fn into_float_grid_fills_rows_in_order() {
    let cells: Vec<u32> = (1..=6).collect();
    let p = Parameter::new(vec![3, 2], ParameterData::Float(cells.clone())).unwrap();
    let g = p.into_float_grid(3, 2).unwrap();
    assert_eq!(g.rows(), 3);
    assert_eq!(g.cols(), 2);
    assert_eq!(g.get(0, 0), Some(&1));
    assert_eq!(g.get(0, 1), Some(&2));
    assert_eq!(g.get(1, 0), Some(&3));
    assert_eq!(g.get(2, 1), Some(&6));
    assert_eq!(g.get(3, 0), None);
    assert_eq!(g, Grid::from_vec(cells, 2));
}

#[test]
fn into_float_grid_checks_type_then_shape() {
    let two_by_two = Parameter::new(vec![2, 2], ParameterData::Float(vec![0; 4])).unwrap();
    assert_eq!(two_by_two.into_float_grid(3, 2), Err(C3dParseError::DimensionMismatch));
    let transposed = Parameter::new(vec![2, 3], ParameterData::Float(vec![0; 6])).unwrap();
    assert_eq!(transposed.into_float_grid(3, 2), Err(C3dParseError::DimensionMismatch));
    let flat = Parameter::new(vec![6], ParameterData::Float(vec![0; 6])).unwrap();
    assert_eq!(flat.into_float_grid(3, 2), Err(C3dParseError::DimensionMismatch));
    let integers = Parameter::new(vec![3, 2], ParameterData::Integer(vec![0; 6])).unwrap();
    assert_eq!(integers.into_float_grid(3, 2), Err(C3dParseError::UnexpectedType));
    let both = Parameter::new(vec![2, 2], ParameterData::Integer(vec![0; 4])).unwrap();
    assert_eq!(both.into_float_grid(3, 2), Err(C3dParseError::UnexpectedType));
    assert_eq!(Parameter::float(1).into_float_grid(3, 2), Err(C3dParseError::DimensionMismatch));
}

#[test]
fn into_float_grid_without_cells_has_no_rows_or_columns() {
    let p = Parameter::new(vec![0, 2], ParameterData::Float(vec![])).unwrap();
    let g = p.into_float_grid(0, 2).unwrap();
    assert_eq!(g.size(), (0, 0));
    let p = Parameter::new(vec![3, 0], ParameterData::Float(vec![])).unwrap();
    let g = p.into_float_grid(3, 0).unwrap();
    assert_eq!(g.size(), (0, 0));
}

#[test]
fn float_grid_takes_size_and_cells() {
    let g: Grid<u32> = Grid::from_vec(vec![10, 20, 30, 40, 50, 60], 2);
    let p = Parameter::float_grid(&g).unwrap();
    assert_eq!(p.dimensions(), &vec![3, 2]);
    assert_eq!(p.data(), &ParameterData::Float(vec![10, 20, 30, 40, 50, 60]));
    let wide: Grid<u32> = Grid::from_vec(vec![10, 20, 30, 40, 50, 60], 3);
    assert_eq!(Parameter::float_grid(&wide).unwrap().dimensions(), &vec![2, 3]);
}

#[test]
fn float_grid_lists_cells_row_by_row_whatever_the_order() {
    // Three rows of two columns, kept column by column.
    let g: Grid<u32> = Grid::from_vec_with_order(vec![10, 30, 50, 20, 40, 60], 2, Order::ColumnMajor);
    assert_eq!(g.get(0, 1), Some(&20));
    assert_eq!(row_major_cells(&g), vec![10, 20, 30, 40, 50, 60]);
    let p = Parameter::float_grid(&g).unwrap();
    assert_eq!(p.dimensions(), &vec![3, 2]);
    assert_eq!(p.data(), &ParameterData::Float(vec![10, 20, 30, 40, 50, 60]));
}

#[test]
fn float_grid_refuses_what_does_not_fit() {
    let tall: Grid<u32> = Grid::from_vec(vec![0; 256], 1);
    assert!(Parameter::float_grid(&tall).is_none());
    let wide: Grid<u32> = Grid::from_vec(vec![0; 256], 256);
    assert!(Parameter::float_grid(&wide).is_none());
    let large: Grid<u32> = Grid::from_vec(vec![0; 100 * 100], 100);
    assert!(Parameter::float_grid(&large).is_none());
    let empty: Grid<u32> = Grid::from_vec(vec![], 0);
    assert_eq!(Parameter::float_grid(&empty).unwrap().dimensions(), &vec![0, 0]);
}

#[test]
fn row_major_cells_of_an_empty_grid() {
    let empty: Grid<u32> = Grid::new(0, 0);
    assert!(row_major_cells(&empty).is_empty());
}

#[test]
fn names_match_whatever_the_case() {
    assert!(names_match(b"SEG", b"seg"));
    assert!(names_match(b"Marker_Diameter", b"MARKER_DIAMETER"));
    assert!(names_match(b"", b""));
    assert!(!names_match(b"SEG", b"SEGS"));
    assert!(!names_match(b"SEG", b"SEH"));
    assert!(!names_match(b"A[", b"A{"));
    assert!(!names_match(b"A@", b"A`"));
    assert!(!names_match(&[0xC4], &[0xE4]));
}
