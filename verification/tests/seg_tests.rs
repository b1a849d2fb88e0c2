use c3d_parameters::record::write_group;
use c3d_parameters::{
    C3dParseError, C3dWriteError, ConversionError, Parameter, ParameterData, Parameters, Processor, Seg,
};
use grid::{Grid, Order};

const ALL: [Processor; 3] = [Processor::Intel, Processor::Dec, Processor::SgiMips];

fn bits(x: f32) -> u32 {
    x.to_bits()
}

fn limits() -> Vec<u32> {
    vec![bits(-1000.0), bits(1000.0), bits(-500.0), bits(500.0), bits(0.0), bits(2000.0)]
}

fn full() -> Seg {
    Seg {
        marker_diameter: Some(bits(14.0)),
        data_limits: Some(Grid::from_vec(limits(), 2)),
        acc_factor: Some(bits(50.0)),
        noise_factor: Some(bits(10.0)),
        residual_error_factor: Some(bits(2.5)),
        intersection_limit: Some(bits(0.7)),
    }
}

fn mismatch(parameter: &'static str, kind: C3dParseError) -> Option<ConversionError> {
    Some(ConversionError { group: "SEG", parameter, kind })
}

fn store_with_group(processor: &Processor) -> Parameters {
    Parameters::decode(processor, &write_group(processor, "SEG", 3, false, b"")).unwrap()
}

#[test]
fn single_float_field() {
    let p = &Processor::Intel;
    let mut bytes = write_group(p, "SEG", 1, false, b"");
    bytes.extend(Parameter::float(bits(14.0)).write(p, "MARKER_DIAMETER", 1, false));
    let mut store = Parameters::decode(p, &bytes).unwrap();
    let seg = Seg::from_parameters(&mut store).unwrap();
    assert_eq!(seg.marker_diameter, Some(bits(14.0)));
    assert_eq!(seg.marker_diameter.map(f32::from_bits), Some(14.0));
    assert!(seg.data_limits.is_none());
    assert!(seg.acc_factor.is_none());
    assert!(seg.noise_factor.is_none());
    assert!(seg.residual_error_factor.is_none());
    assert!(seg.intersection_limit.is_none());
    assert!(store.remaining().is_empty());

    let written = seg.write(p, &store).unwrap();
    assert_eq!(written, Parameter::float(bits(14.0)).write(p, "MARKER_DIAMETER", 1, false));
    assert_eq!(written.len(), 26);

    let mut again = store.write(p);
    again.extend(written);
    let mut store = Parameters::decode(p, &again).unwrap();
    assert_eq!(store.remaining().len(), 1);
    let back = Seg::from_parameters(&mut store).unwrap();
    assert!(back == seg);
    assert_eq!(back.marker_diameter, Some(bits(14.0)));
    assert!(back.data_limits.is_none() && back.acc_factor.is_none());
}

#[test]
fn matrix_with_four_elements_is_a_dimension_mismatch() {
    let p = &Processor::Intel;
    let mut bytes = write_group(p, "SEG", 1, false, b"");
    bytes.extend(Parameter::float(bits(14.0)).write(p, "MARKER_DIAMETER", 1, false));
    let four = Parameter::new(vec![2, 2], ParameterData::Float(vec![bits(1.0); 4])).unwrap();
    bytes.extend(four.write(p, "DATA_LIMITS", 1, false));
    bytes.extend(Parameter::float(bits(50.0)).write(p, "ACC_FACTOR", 1, false));
    let mut store = Parameters::decode(p, &bytes).unwrap();
    assert_eq!(
        Seg::from_parameters(&mut store).err(),
        mismatch("DATA_LIMITS", C3dParseError::DimensionMismatch)
    );
    let left: Vec<&[u8]> = store.remaining().iter().map(|(_, n, _)| *n).collect();
    assert_eq!(left, vec![&b"ACC_FACTOR"[..]]);
}

#[test]
fn wrong_type_is_unexpected_type() {
    let p = &Processor::Intel;
    let mut bytes = write_group(p, "SEG", 1, false, b"");
    bytes.extend(Parameter::integer(14).write(p, "MARKER_DIAMETER", 1, false));
    let mut store = Parameters::decode(p, &bytes).unwrap();
    assert_eq!(
        Seg::from_parameters(&mut store).err(),
        mismatch("MARKER_DIAMETER", C3dParseError::UnexpectedType)
    );

    let mut bytes = write_group(p, "SEG", 1, false, b"");
    let integers = Parameter::new(vec![3, 2], ParameterData::Integer(vec![0; 6])).unwrap();
    bytes.extend(integers.write(p, "DATA_LIMITS", 1, false));
    let mut store = Parameters::decode(p, &bytes).unwrap();
    assert_eq!(
        Seg::from_parameters(&mut store).err(),
        mismatch("DATA_LIMITS", C3dParseError::UnexpectedType)
    );
}

#[test]
fn float_field_with_dimensions_is_a_dimension_mismatch() {
    let p = &Processor::Intel;
    let mut bytes = write_group(p, "SEG", 1, false, b"");
    let listed = Parameter::new(vec![1], ParameterData::Float(vec![bits(10.0)])).unwrap();
    bytes.extend(listed.write(p, "NOISE_FACTOR", 1, false));
    let mut store = Parameters::decode(p, &bytes).unwrap();
    assert_eq!(
        Seg::from_parameters(&mut store).err(),
        mismatch("NOISE_FACTOR", C3dParseError::DimensionMismatch)
    );
}

#[test]
fn the_first_bad_field_decides() {
    let p = &Processor::Intel;
    let mut bytes = write_group(p, "SEG", 1, false, b"");
    bytes.extend(Parameter::integer(1).write(p, "INTERSECTION_LIMIT", 1, false));
    let four = Parameter::new(vec![2, 2], ParameterData::Float(vec![0; 4])).unwrap();
    bytes.extend(four.write(p, "DATA_LIMITS", 1, false));
    bytes.extend(Parameter::float(7).write(p, "MARKER_DIAMETER", 1, false));
    let mut store = Parameters::decode(p, &bytes).unwrap();
    assert_eq!(
        Seg::from_parameters(&mut store).err(),
        mismatch("DATA_LIMITS", C3dParseError::DimensionMismatch)
    );
    let left: Vec<&[u8]> = store.remaining().iter().map(|(_, n, _)| *n).collect();
    assert_eq!(left, vec![&b"INTERSECTION_LIMIT"[..]]);
}

#[test]
fn no_group_gives_the_empty_view() {
    let mut store = Parameters::new();
    let seg = Seg::from_parameters(&mut store).unwrap();
    assert!(seg == Seg::default());
    assert_eq!(seg.write(&Processor::Intel, &store), Ok(vec![]));
}

#[test]
fn full_view_writes_six_records_in_field_order() {
    let p = &Processor::SgiMips;
    let store = store_with_group(p);
    let written = full().write(p, &store).unwrap();
    let mut expected = Parameter::float(bits(14.0)).write(p, "MARKER_DIAMETER", 3, false);
    let grid = Parameter::new(vec![3, 2], ParameterData::Float(limits())).unwrap();
    expected.extend(grid.write(p, "DATA_LIMITS", 3, false));
    expected.extend(Parameter::float(bits(50.0)).write(p, "ACC_FACTOR", 3, false));
    expected.extend(Parameter::float(bits(10.0)).write(p, "NOISE_FACTOR", 3, false));
    expected.extend(Parameter::float(bits(2.5)).write(p, "RESIDUAL_ERROR_FACTOR", 3, false));
    expected.extend(Parameter::float(bits(0.7)).write(p, "INTERSECTION_LIMIT", 3, false));
    assert_eq!(written, expected);
}

#[test]
fn absent_fields_write_no_record() {
    let p = &Processor::Intel;
    let store = store_with_group(p);
    let seg = Seg { noise_factor: Some(bits(10.0)), intersection_limit: Some(bits(0.5)), ..Seg::default() };
    let mut expected = Parameter::float(bits(10.0)).write(p, "NOISE_FACTOR", 3, false);
    expected.extend(Parameter::float(bits(0.5)).write(p, "INTERSECTION_LIMIT", 3, false));
    assert_eq!(seg.write(p, &store), Ok(expected));
    assert_eq!(Seg::default().write(p, &store), Ok(vec![]));
}

#[test]
fn write_without_the_group_is_an_unknown_group_reference() {
    let p = &Processor::Intel;
    let none = Parameters::new();
    assert_eq!(full().write(p, &none), Err(C3dWriteError::UnknownGroupReference));
    let other = Parameters::decode(p, &write_group(p, "POINT", 1, false, b"")).unwrap();
    assert_eq!(full().write(p, &other), Err(C3dWriteError::UnknownGroupReference));
    let one = Seg { acc_factor: Some(1), ..Seg::default() };
    assert_eq!(one.write(p, &other), Err(C3dWriteError::UnknownGroupReference));
    assert_eq!(Seg::default().write(p, &other), Ok(vec![]));
}

#[test]
fn write_takes_the_grid_with_its_own_extents() {
    let p = &Processor::Intel;
    let store = store_with_group(p);
    let wide = Seg { data_limits: Some(Grid::from_vec(limits(), 3)), ..Seg::default() };
    let record = Parameter::new(vec![2, 3], ParameterData::Float(limits())).unwrap();
    assert_eq!(wide.write(p, &store), Ok(record.write(p, "DATA_LIMITS", 3, false)));
    assert_eq!(wide.write(p, &store).unwrap().len(), 20 + 4 * 2 * 3);

    let small = Seg { data_limits: Some(Grid::from_vec(vec![7; 4], 2)), ..full() };
    let written = small.write(p, &store).unwrap();
    let mut expected = Parameter::float(bits(14.0)).write(p, "MARKER_DIAMETER", 3, false);
    let record = Parameter::new(vec![2, 2], ParameterData::Float(vec![7; 4])).unwrap();
    expected.extend(record.write(p, "DATA_LIMITS", 3, false));
    expected.extend(Parameter::float(bits(50.0)).write(p, "ACC_FACTOR", 3, false));
    expected.extend(Parameter::float(bits(10.0)).write(p, "NOISE_FACTOR", 3, false));
    expected.extend(Parameter::float(bits(2.5)).write(p, "RESIDUAL_ERROR_FACTOR", 3, false));
    expected.extend(Parameter::float(bits(0.7)).write(p, "INTERSECTION_LIMIT", 3, false));
    assert_eq!(written, expected);
    assert_eq!(written.len(), (15 + 11) + (20 + 4 * 2 * 2) + (10 + 11) + (12 + 11) + (21 + 11) + (18 + 11));

    let empty = Seg { data_limits: Some(Grid::new(0, 0)), ..Seg::default() };
    let record = Parameter::new(vec![0, 0], ParameterData::Float(vec![])).unwrap();
    assert_eq!(empty.write(p, &store), Ok(record.write(p, "DATA_LIMITS", 3, false)));
    assert_eq!(empty.write(p, &store).unwrap().len(), 20);

    let one_row = Seg { data_limits: Some(Grid::from_vec(vec![1; 255], 255)), ..Seg::default() };
    let written = one_row.write(p, &store).unwrap();
    assert_eq!(written.len(), 20 + 4 * 255);
    assert_eq!(&written[17..19], &[1, 255]);
}

#[test]
fn a_grid_of_another_shape_is_written_but_not_read_back() {
    let p = &Processor::Intel;
    let store = store_with_group(p);
    let wide = Seg { data_limits: Some(Grid::from_vec(limits(), 3)), ..Seg::default() };
    let mut bytes = store.write(p);
    bytes.extend(wide.write(p, &store).unwrap());
    let mut decoded = Parameters::decode(p, &bytes).unwrap();
    let found = decoded.get("SEG", "DATA_LIMITS").unwrap();
    assert_eq!(found.dimensions(), &vec![2, 3]);
    assert_eq!(found.data(), &ParameterData::Float(limits()));
    assert_eq!(
        Seg::from_parameters(&mut decoded).err(),
        mismatch("DATA_LIMITS", C3dParseError::DimensionMismatch)
    );
}

#[test]
fn write_refuses_only_a_grid_that_no_record_holds() {
    let p = &Processor::Intel;
    let store = store_with_group(p);
    let tall = Seg { data_limits: Some(Grid::from_vec(vec![0; 256], 1)), ..full() };
    assert_eq!(tall.write(p, &store), Err(C3dWriteError::DimensionMismatch));
    let long = Seg { data_limits: Some(Grid::from_vec(vec![0; 256], 256)), ..Seg::default() };
    assert_eq!(long.write(p, &store), Err(C3dWriteError::DimensionMismatch));
    let large = Seg { data_limits: Some(Grid::from_vec(vec![0; 100 * 100], 100)), ..Seg::default() };
    assert_eq!(large.write(p, &store), Err(C3dWriteError::DimensionMismatch));
    // 8189 floats are the most that fit beside two extents: 89 by 92 are 8188
    let most = Seg { data_limits: Some(Grid::from_vec(vec![0; 89 * 92], 92)), ..Seg::default() };
    assert_eq!(most.write(p, &store).unwrap().len(), 20 + 4 * 89 * 92);
    let more = Seg { data_limits: Some(Grid::from_vec(vec![0; 90 * 91], 91)), ..Seg::default() };
    assert_eq!(more.write(p, &store), Err(C3dWriteError::DimensionMismatch));
    assert_eq!(tall.write(p, &Parameters::new()), Err(C3dWriteError::UnknownGroupReference));
}

#[test]
fn full_view_round_trips_in_every_layout() {
    for processor in ALL {
        let store = store_with_group(&processor);
        let seg = full();
        let mut bytes = store.write(&processor);
        bytes.extend(seg.write(&processor, &store).unwrap());
        let mut decoded = Parameters::decode(&processor, &bytes).unwrap();
        assert_eq!(decoded.remaining().len(), 6);
        let back = Seg::from_parameters(&mut decoded).unwrap();
        assert!(back == seg);
        assert_eq!(back.marker_diameter, seg.marker_diameter);
        assert_eq!(back.data_limits, seg.data_limits);
        assert_eq!(back.data_limits.as_ref().unwrap().size(), (3, 2));
        assert_eq!(back.acc_factor, seg.acc_factor);
        assert_eq!(back.noise_factor, seg.noise_factor);
        assert_eq!(back.residual_error_factor, seg.residual_error_factor);
        assert_eq!(back.intersection_limit, seg.intersection_limit);
        assert!(decoded.remaining().is_empty());
        assert_eq!(decoded.group_id_of("SEG"), Some(3));
    }
}

#[test]
fn optional_fields_stay_as_they_were() {
    for processor in ALL {
        for mask in 0u32..64 {
            let all = full();
            let seg = Seg {
                marker_diameter: if mask & 1 != 0 { all.marker_diameter } else { None },
                data_limits: if mask & 2 != 0 { all.data_limits.clone() } else { None },
                acc_factor: if mask & 4 != 0 { all.acc_factor } else { None },
                noise_factor: if mask & 8 != 0 { all.noise_factor } else { None },
                residual_error_factor: if mask & 16 != 0 { all.residual_error_factor } else { None },
                intersection_limit: if mask & 32 != 0 { all.intersection_limit } else { None },
            };
            let store = store_with_group(&processor);
            let mut bytes = store.write(&processor);
            bytes.extend(seg.write(&processor, &store).unwrap());
            let mut decoded = Parameters::decode(&processor, &bytes).unwrap();
            assert_eq!(decoded.remaining().len(), mask.count_ones() as usize);
            let back = Seg::from_parameters(&mut decoded).unwrap();
            assert!(back == seg);
            assert_eq!(back.marker_diameter.is_some(), mask & 1 != 0);
            assert_eq!(back.data_limits.is_some(), mask & 2 != 0);
            assert_eq!(back.acc_factor.is_some(), mask & 4 != 0);
            assert_eq!(back.noise_factor.is_some(), mask & 8 != 0);
            assert_eq!(back.residual_error_factor.is_some(), mask & 16 != 0);
            assert_eq!(back.intersection_limit.is_some(), mask & 32 != 0);
        }
    }
}

#[test]
fn floats_keep_their_bits() {
    for processor in [Processor::Intel, Processor::SgiMips] {
        let store = store_with_group(&processor);
        let seg = Seg {
            marker_diameter: Some(f32::NAN.to_bits() | 1),
            acc_factor: Some(bits(-0.0)),
            noise_factor: Some(f32::NEG_INFINITY.to_bits()),
            residual_error_factor: Some(0xFFFF_FFFF),
            intersection_limit: Some(1),
            ..Seg::default()
        };
        let mut bytes = store.write(&processor);
        bytes.extend(seg.write(&processor, &store).unwrap());
        let mut decoded = Parameters::decode(&processor, &bytes).unwrap();
        let back = Seg::from_parameters(&mut decoded).unwrap();
        assert!(back == seg);
        assert_eq!(back.marker_diameter, Some(f32::NAN.to_bits() | 1));
        assert_eq!(back.acc_factor, Some(0x8000_0000));
        assert_eq!(back.residual_error_factor, Some(0xFFFF_FFFF));
    }
}

#[test]
fn custom_parameter_passes_through() {
    for processor in ALL {
        let p = &processor;
        let mut custom = Parameter::new(vec![2, 2], ParameterData::Integer(vec![1, -2, 3, -4])).unwrap();
        assert!(custom.set_description(b"vendor data"));
        let custom_record = custom.write(p, "My_Setting", 4, true);
        let mut bytes = write_group(p, "Seg", 4, false, b"reconstruction");
        bytes.extend(Parameter::float(bits(0.7)).write(p, "Intersection_Limit", 4, false));
        bytes.extend(custom_record.clone());

        let mut store = Parameters::decode(p, &bytes).unwrap();
        let seg = Seg::from_parameters(&mut store).unwrap();
        assert_eq!(seg.intersection_limit, Some(bits(0.7)));
        let left = store.write(p);
        let mut expected_left = write_group(p, "Seg", 4, false, b"reconstruction");
        expected_left.extend(custom_record.clone());
        assert_eq!(left, expected_left);

        let mut again = left.clone();
        again.extend(seg.write(p, &store).unwrap());
        let mut decoded = Parameters::decode(p, &again).unwrap();
        let back = Seg::from_parameters(&mut decoded).unwrap();
        assert!(back == seg);
        assert_eq!(back.intersection_limit, Some(bits(0.7)));
        assert_eq!(decoded.write(p), left);
        let remaining = decoded.remaining();
        assert_eq!(remaining.len(), 1);
        assert_eq!(remaining[0].0, b"Seg");
        assert_eq!(remaining[0].1, b"My_Setting");
        assert_eq!(remaining[0].2.write(p, "My_Setting", 4, true), custom_record);
        let taken = decoded.remove("SEG", "MY_SETTING").unwrap();
        assert_eq!(taken.data(), &ParameterData::Integer(vec![1, -2, 3, -4]));
        assert_eq!(taken.description().as_slice(), b"vendor data");
        assert!(taken.is_locked());
    }
}

#[test]
fn grids_are_equal_by_their_cells_row_by_row() {
    let by_rows = Seg { data_limits: Some(Grid::from_vec(vec![1, 2, 3, 4, 5, 6], 2)), ..Seg::default() };
    let by_columns = Seg {
        data_limits: Some(Grid::from_vec_with_order(vec![1, 3, 5, 2, 4, 6], 2, Order::ColumnMajor)),
        ..Seg::default()
    };
    assert!(by_rows == by_columns);
    assert!(by_columns == by_rows);
    let same_storage = Seg {
        data_limits: Some(Grid::from_vec_with_order(vec![1, 2, 3, 4, 5, 6], 2, Order::ColumnMajor)),
        ..Seg::default()
    };
    assert!(by_rows != same_storage);
    let other = Seg { data_limits: Some(Grid::from_vec(vec![1, 2, 3, 4, 5, 7], 2)), ..Seg::default() };
    assert!(by_rows != other);
    let shorter = Seg { data_limits: Some(Grid::from_vec(vec![1, 2, 3, 4], 2)), ..Seg::default() };
    assert!(by_rows != shorter);
}

#[test]
fn grids_written_from_either_order_are_the_same_bytes() {
    let p = &Processor::Intel;
    let store = store_with_group(p);
    let by_rows = Seg { data_limits: Some(Grid::from_vec(vec![1, 2, 3, 4, 5, 6], 2)), ..Seg::default() };
    let by_columns = Seg {
        data_limits: Some(Grid::from_vec_with_order(vec![1, 3, 5, 2, 4, 6], 2, Order::ColumnMajor)),
        ..Seg::default()
    };
    assert_eq!(by_rows.write(p, &store), by_columns.write(p, &store));
}

#[test]
fn views_are_equal_field_by_field() {
    assert!(full() == full());
    assert!(Seg::default() == Seg::default());
    assert!(full() != Seg::default());
    assert!(Seg { marker_diameter: None, ..full() } != full());
    assert!(Seg { data_limits: None, ..full() } != full());
    assert!(Seg { acc_factor: Some(bits(51.0)), ..full() } != full());
    assert!(Seg { noise_factor: None, ..full() } != full());
    assert!(Seg { residual_error_factor: Some(0), ..full() } != full());
    assert!(Seg { intersection_limit: None, ..full() } != full());
    // bit for bit: the two zeros differ, and a NaN equals itself
    assert!(Seg { acc_factor: Some(bits(0.0)), ..full() } != Seg { acc_factor: Some(bits(-0.0)), ..full() });
    let nan = Seg { acc_factor: Some(f32::NAN.to_bits()), ..full() };
    assert!(nan == nan.clone());
}

#[test]
fn default_view_has_no_fields() {
    let seg = Seg::default();
    assert!(seg.marker_diameter.is_none());
    assert!(seg.data_limits.is_none());
    assert!(seg.acc_factor.is_none());
    assert!(seg.noise_factor.is_none());
    assert!(seg.residual_error_factor.is_none());
    assert!(seg.intersection_limit.is_none());
}

#[test]
fn each_field_is_named_when_it_does_not_convert() {
    let p = &Processor::Intel;
    for name in ["MARKER_DIAMETER", "ACC_FACTOR", "NOISE_FACTOR", "RESIDUAL_ERROR_FACTOR", "INTERSECTION_LIMIT"] {
        let mut bytes = write_group(p, "SEG", 1, false, b"");
        bytes.extend(Parameter::char(b'x').write(p, name, 1, false));
        let mut store = Parameters::decode(p, &bytes).unwrap();
        assert_eq!(Seg::from_parameters(&mut store).err(), mismatch(name, C3dParseError::UnexpectedType));
        assert!(store.remaining().is_empty());
    }
}

#[test]
fn write_with_id_stamps_the_id() {
    let p = &Processor::Intel;
    let seg = Seg { acc_factor: Some(bits(50.0)), ..Seg::default() };
    assert_eq!(
        seg.write_with_id(p, Some(9)),
        Ok(Parameter::float(bits(50.0)).write(p, "ACC_FACTOR", 9, false))
    );
    assert_eq!(seg.write_with_id(p, Some(9)).unwrap()[13], 9);
    assert_eq!(seg.write_with_id(p, None), Err(C3dWriteError::UnknownGroupReference));
    assert_eq!(Seg::default().write_with_id(p, None), Ok(vec![]));
    assert_eq!(full().write_with_id(p, Some(3)), full().write(p, &store_with_group(p)));
}

#[test]
fn view_written_before_what_is_left_reads_back() {
    for processor in ALL {
        let p = &processor;
        let mut custom = Parameter::new(vec![3], ParameterData::Integer(vec![7, -8, 9])).unwrap();
        assert!(custom.set_description(b"kept"));
        let mut bytes = write_group(p, "POINT", 1, false, b"");
        bytes.extend(write_group(p, "SEG", 2, false, b""));
        bytes.extend(Parameter::float(bits(14.0)).write(p, "MARKER_DIAMETER", 2, false));
        bytes.extend(custom.write(p, "CUSTOM", 2, false));
        bytes.extend(Parameter::integer(60).write(p, "RATE", 1, true));
        let mut store = Parameters::decode(p, &bytes).unwrap();
        let seg = Seg::from_parameters(&mut store).unwrap();

        let mut out = seg.write(p, &store).unwrap();
        out.extend(store.write_parameters(p));
        let mut again = store.write_groups(p);
        again.extend(out);
        let mut second = Parameters::decode(p, &again).unwrap();
        assert_eq!(second.get("SEG", "MARKER_DIAMETER").unwrap().as_float(), Ok(bits(14.0)));
        let back = Seg::from_parameters(&mut second).unwrap();
        assert!(back == seg);
        assert_eq!(back.marker_diameter, Some(bits(14.0)));
        assert_eq!(second, store);
        assert_eq!(second.get("SEG", "CUSTOM"), Some(&custom));
        assert_eq!(second.get("POINT", "RATE").unwrap().data(), &ParameterData::Integer(vec![60]));
        assert_eq!(second.remaining().len(), 2);
    }
}

#[test]
fn a_float_comes_back_beside_one_that_the_layout_cannot_hold() {
    let p = &Processor::Dec;
    let store = store_with_group(p);
    let seg = Seg {
        marker_diameter: Some(f32::NEG_INFINITY.to_bits()),
        data_limits: Some(Grid::from_vec(vec![bits(1.0), 0xFFFF_FFFF, bits(3.0), 0, 1, bits(-6.0)], 2)),
        acc_factor: Some(bits(14.0)),
        intersection_limit: Some(bits(-0.7)),
        ..Seg::default()
    };
    let mut bytes = store.write(p);
    bytes.extend(seg.write(p, &store).unwrap());
    let mut decoded = Parameters::decode(p, &bytes).unwrap();
    let back = Seg::from_parameters(&mut decoded).unwrap();
    assert_eq!(back.marker_diameter, Some(0xFE80_0000));
    assert_eq!(back.acc_factor, Some(bits(14.0)));
    assert_eq!(back.intersection_limit, Some(bits(-0.7)));
    assert_eq!(back.noise_factor, None);
    assert_eq!(back.residual_error_factor, None);
    assert_eq!(
        back.data_limits,
        Some(Grid::from_vec(vec![bits(1.0), 0xFEFF_FFFF, bits(3.0), 0, 1, bits(-6.0)], 2))
    );
    // What came back is held, and comes back again as it is.
    let mut bytes = store.write(p);
    bytes.extend(back.write(p, &store).unwrap());
    let mut decoded = Parameters::decode(p, &bytes).unwrap();
    assert!(Seg::from_parameters(&mut decoded).unwrap() == back);
}
