use c3d_parameters::record::{read_record, write_group, Record};
use c3d_parameters::{C3dParseError, Parameter, ParameterData, Parameters, Processor};

const ALL: [Processor; 3] = [Processor::Intel, Processor::Dec, Processor::SgiMips];

fn section(processor: &Processor) -> Vec<u8> {
    let mut bytes = write_group(processor, "POINT", 1, false, b"points");
    bytes.extend(Parameter::integer(120).write(processor, "RATE", 1, false));
    bytes.extend(write_group(processor, "Seg", 2, true, b""));
    bytes.extend(Parameter::float(14.0f32.to_bits()).write(processor, "MARKER_DIAMETER", 2, false));
    let mut custom = Parameter::new(vec![2], ParameterData::Byte(vec![-1, 9])).unwrap();
    assert!(custom.set_description(b"mine"));
    bytes.extend(custom.write(processor, "Custom", 2, true));
    bytes.extend(Parameter::char(b'm').write(processor, "UNITS", 1, false));
    bytes
}

#[test]
fn group_record_bytes() {
    assert_eq!(write_group(&Processor::Intel, "SEG", 1, false, b""), vec![3, b'S', b'E', b'G', 4, 0, 255, 0]);
    assert_eq!(
        write_group(&Processor::SgiMips, "AB", 127, true, b"xy"),
        vec![254, b'A', b'B', 0, 6, 129, 2, b'x', b'y']
    );
}

#[test]
fn read_record_reads_a_group() {
    let mut bytes = write_group(&Processor::Intel, "POINT", 9, true, b"the points");
    let len = bytes.len();
    bytes.extend_from_slice(&[1, 2, 3]);
    let (record, read) = read_record(&Processor::Intel, &bytes).unwrap();
    assert_eq!(read, len);
    match record {
        Record::Group { id, name, locked, description } => {
            assert_eq!(id, 9);
            assert_eq!(name, b"POINT");
            assert!(locked);
            assert_eq!(description, b"the points");
        }
        Record::Parameter { .. } => panic!("a group was written"),
    }
}

#[test]
fn read_record_reads_a_parameter() {
    for processor in ALL {
        let mut written = Parameter::new(vec![2, 2], ParameterData::Float(vec![1, 0x4160_0000, 3, 0xBF80_0000])).unwrap();
        assert!(written.set_description(b"d"));
        written.set_locked(true);
        let bytes = written.write(&processor, "Limits", 4, true);
        let (record, read) = read_record(&processor, &bytes).unwrap();
        assert_eq!(read, bytes.len());
        match record {
            Record::Parameter { group_id, name, parameter } => {
                assert_eq!(group_id, 4);
                assert_eq!(name, b"Limits");
                assert_eq!(parameter, written);
            }
            Record::Group { .. } => panic!("a parameter was written"),
        }
    }
}

#[test]
fn read_record_takes_the_locked_flag_from_the_length_byte() {
    let bytes = Parameter::integer(5).write(&Processor::Intel, "N", 1, true);
    match read_record(&Processor::Intel, &bytes).unwrap().0 {
        Record::Parameter { parameter, .. } => assert!(parameter.is_locked()),
        Record::Group { .. } => panic!("a parameter was written"),
    }
    let bytes = Parameter::integer(5).write(&Processor::Intel, "N", 1, false);
    match read_record(&Processor::Intel, &bytes).unwrap().0 {
        Record::Parameter { parameter, .. } => assert!(!parameter.is_locked()),
        Record::Group { .. } => panic!("a parameter was written"),
    }
}

#[test]
fn read_record_refuses_malformed_bytes() {
    let p = &Processor::Intel;
    assert!(read_record(p, &[]).is_none());
    // no name
    assert!(read_record(p, &[0, 4, 0, 255, 0]).is_none());
    assert!(read_record(p, &[128, 4, 0, 255, 0]).is_none());
    // the name runs past the end
    assert!(read_record(p, &[20, b'A', b'B']).is_none());
    assert!(read_record(p, &[3, b'S', b'E', b'G', 4, 0]).is_none());
    // the offset runs past the end
    assert!(read_record(p, &[1, b'G', 5, 0, 255, 0]).is_none());
    // the offset is too small, zero or negative
    assert!(read_record(p, &[1, b'G', 2, 0, 255, 0]).is_none());
    assert!(read_record(p, &[1, b'G', 0, 0, 255, 0]).is_none());
    assert!(read_record(p, &[1, b'G', 0xFC, 0xFF, 255, 0]).is_none());
    // the offset leads behind the description
    assert!(read_record(p, &[1, b'G', 5, 0, 255, 0, 0]).is_none());
    // the description is longer than the record
    assert!(read_record(p, &[1, b'G', 4, 0, 255, 1]).is_none());
    // no id
    assert!(read_record(p, &[1, b'G', 4, 0, 0, 0]).is_none());
    assert!(read_record(p, &[1, b'G', 4, 0, 128, 0]).is_none());
    // an unknown type tag
    assert!(read_record(p, &[1, b'P', 8, 0, 1, 3, 0, 1, 2, 3, 0]).is_none());
    // less data than the extents say
    assert!(read_record(p, &[1, b'P', 8, 0, 1, 2, 1, 2, 1, 0]).is_none());
    // more extents than bytes
    assert!(read_record(p, &[1, b'P', 6, 0, 1, 1, 9, 0]).is_none());
    // the well-formed neighbours of the above
    assert!(read_record(p, &[1, b'G', 4, 0, 255, 0]).is_some());
    assert!(read_record(p, &[1, b'P', 7, 0, 1, 1, 0, 1, 0]).is_some());
    assert!(read_record(p, &[1, b'P', 11, 0, 1, 2, 1, 2, 1, 0, 2, 0, 0]).is_some());
    assert!(read_record(p, &[1, b'P', 10, 0, 1, 2, 1, 2, 1, 0, 2, 0, 0]).is_none());
}

#[test]
fn decode_keeps_groups_and_parameters_in_order() {
    for processor in ALL {
        let store = Parameters::decode(&processor, &section(&processor)).unwrap();
        let listed: Vec<(Vec<u8>, Vec<u8>)> =
            store.remaining().iter().map(|(g, n, _)| (g.to_vec(), n.to_vec())).collect();
        assert_eq!(
            listed,
            vec![
                (b"POINT".to_vec(), b"RATE".to_vec()),
                (b"POINT".to_vec(), b"UNITS".to_vec()),
                (b"Seg".to_vec(), b"MARKER_DIAMETER".to_vec()),
                (b"Seg".to_vec(), b"Custom".to_vec()),
            ]
        );
        let remaining = store.remaining();
        assert_eq!(remaining[0].2, &Parameter::integer(120));
        assert_eq!(remaining[2].2.as_float(), Ok(0x4160_0000));
        assert!(remaining[3].2.is_locked());
        assert_eq!(remaining[3].2.description().as_slice(), b"mine");
    }
}

#[test]
fn decode_of_nothing_is_the_empty_store() {
    let store = Parameters::decode(&Processor::Intel, &[]).unwrap();
    assert!(store.remaining().is_empty());
    assert!(store.write(&Processor::Intel).is_empty());
    assert_eq!(store.group_id_of("SEG"), None);
    assert!(Parameters::new().remaining().is_empty());
}

#[test]
fn group_id_of_matches_whatever_the_case() {
    let store = Parameters::decode(&Processor::Intel, &section(&Processor::Intel)).unwrap();
    assert_eq!(store.group_id_of("POINT"), Some(1));
    assert_eq!(store.group_id_of("point"), Some(1));
    assert_eq!(store.group_id_of("SEG"), Some(2));
    assert_eq!(store.group_id_of("seg"), Some(2));
    assert_eq!(store.group_id_of("ANALOG"), None);
    assert_eq!(store.group_id_of(""), None);
}

#[test]
fn remove_hands_the_parameter_over_once() {
    let mut store = Parameters::decode(&Processor::Dec, &section(&Processor::Dec)).unwrap();
    assert_eq!(store.remove("point", "rate"), Some(Parameter::integer(120)));
    assert_eq!(store.remove("point", "rate"), None);
    assert_eq!(store.remove("POINT", "RATE"), None);
    assert_eq!(store.remove("SEG", "RATE"), None);
    assert_eq!(store.remove("ANALOG", "RATE"), None);
    assert_eq!(store.remaining().len(), 3);
    assert_eq!(store.remaining()[0].1, b"UNITS");
}

#[test]
fn a_group_without_parameters_keeps_its_id() {
    let mut store = Parameters::decode(&Processor::Intel, &section(&Processor::Intel)).unwrap();
    assert!(store.remove("POINT", "RATE").is_some());
    assert!(store.remove("POINT", "UNITS").is_some());
    assert_eq!(store.group_id_of("POINT"), Some(1));
    assert_eq!(store.group_id_of("SEG"), Some(2));
    let written = store.write(&Processor::Intel);
    let again = Parameters::decode(&Processor::Intel, &written).unwrap();
    assert_eq!(again.group_id_of("POINT"), Some(1));
    assert_eq!(again.remaining().len(), 2);
}

#[test]
fn removing_in_any_order_leaves_the_same() {
    let bytes = section(&Processor::Intel);
    let mut one = Parameters::decode(&Processor::Intel, &bytes).unwrap();
    let mut other = Parameters::decode(&Processor::Intel, &bytes).unwrap();
    let a1 = one.remove("SEG", "CUSTOM");
    let b1 = one.remove("POINT", "RATE");
    let b2 = other.remove("POINT", "RATE");
    let a2 = other.remove("SEG", "CUSTOM");
    assert_eq!(a1, a2);
    assert_eq!(b1, b2);
    assert_eq!(one.write(&Processor::Intel), other.write(&Processor::Intel));
}

#[test]
fn store_writes_each_group_with_its_parameters() {
    let p = &Processor::Intel;
    let store = Parameters::decode(p, &section(p)).unwrap();
    let mut expected = write_group(p, "POINT", 1, false, b"points");
    expected.extend(Parameter::integer(120).write(p, "RATE", 1, false));
    expected.extend(Parameter::char(b'm').write(p, "UNITS", 1, false));
    expected.extend(write_group(p, "Seg", 2, true, b""));
    expected.extend(Parameter::float(14.0f32.to_bits()).write(p, "MARKER_DIAMETER", 2, false));
    let mut custom = Parameter::new(vec![2], ParameterData::Byte(vec![-1, 9])).unwrap();
    assert!(custom.set_description(b"mine"));
    expected.extend(custom.write(p, "Custom", 2, true));
    assert_eq!(store.write(p), expected);
}

#[test]
fn what_a_store_writes_decodes_to_the_same_store() {
    for processor in ALL {
        let store = Parameters::decode(&processor, &section(&processor)).unwrap();
        let written = store.write(&processor);
        let again = Parameters::decode(&processor, &written).unwrap();
        assert_eq!(again.write(&processor), written);
        assert_eq!(again.remaining(), store.remaining());
        assert_eq!(again.group_id_of("SEG"), store.group_id_of("SEG"));
    }
}

#[test]
fn a_name_length_past_the_end_is_malformed() {
    let p = &Processor::Intel;
    assert_eq!(Parameters::decode(p, &[20, b'A', b'B']).err(), Some(C3dParseError::MalformedRecord));
    let mut bytes = section(p);
    bytes.extend_from_slice(&[20, b'A', b'B']);
    assert_eq!(Parameters::decode(p, &bytes).err(), Some(C3dParseError::MalformedRecord));
    let mut bytes = vec![100u8];
    bytes.extend(section(p));
    assert_eq!(Parameters::decode(p, &bytes).err(), Some(C3dParseError::MalformedRecord));
}

#[test]
fn a_truncated_section_is_malformed() {
    let p = &Processor::Intel;
    let bytes = section(p);
    let whole = Parameters::decode(p, &bytes);
    assert!(whole.is_ok());
    assert_eq!(Parameters::decode(p, &bytes[..bytes.len() - 1]).err(), Some(C3dParseError::MalformedRecord));
    assert_eq!(Parameters::decode(p, &bytes[..10]).err(), Some(C3dParseError::MalformedRecord));
}

#[test]
fn a_parameter_of_a_missing_group_is_malformed() {
    let p = &Processor::Intel;
    let bytes = Parameter::integer(1).write(p, "RATE", 1, false);
    assert_eq!(Parameters::decode(p, &bytes).err(), Some(C3dParseError::MalformedRecord));
    let mut bytes = write_group(p, "POINT", 1, false, b"");
    bytes.extend(Parameter::integer(1).write(p, "RATE", 2, false));
    assert_eq!(Parameters::decode(p, &bytes).err(), Some(C3dParseError::MalformedRecord));
}

#[test]
fn a_repeated_group_is_malformed() {
    let p = &Processor::Intel;
    let mut same_id = write_group(p, "POINT", 1, false, b"");
    same_id.extend(write_group(p, "ANALOG", 1, false, b""));
    assert_eq!(Parameters::decode(p, &same_id).err(), Some(C3dParseError::MalformedRecord));
    let mut same_name = write_group(p, "POINT", 1, false, b"");
    same_name.extend(write_group(p, "Point", 2, false, b""));
    assert_eq!(Parameters::decode(p, &same_name).err(), Some(C3dParseError::MalformedRecord));
}

#[test]
fn a_repeated_parameter_is_malformed() {
    let p = &Processor::Intel;
    let mut bytes = write_group(p, "POINT", 1, false, b"");
    bytes.extend(write_group(p, "ANALOG", 2, false, b""));
    bytes.extend(Parameter::integer(1).write(p, "RATE", 1, false));
    bytes.extend(Parameter::integer(2).write(p, "RATE", 2, false));
    assert!(Parameters::decode(p, &bytes).is_ok());
    bytes.extend(Parameter::integer(3).write(p, "rate", 1, false));
    assert_eq!(Parameters::decode(p, &bytes).err(), Some(C3dParseError::MalformedRecord));
}

#[test]
fn the_layout_matters_when_decoding() {
    let bytes = section(&Processor::Intel);
    assert!(Parameters::decode(&Processor::Dec, &bytes).is_ok());
    assert_eq!(
        Parameters::decode(&Processor::SgiMips, &bytes).err(),
        Some(C3dParseError::MalformedRecord)
    );
}

#[test]
fn get_finds_without_taking() {
    let mut store = Parameters::decode(&Processor::Intel, &section(&Processor::Intel)).unwrap();
    assert_eq!(store.get("Point", "Rate"), Some(&Parameter::integer(120)));
    assert_eq!(store.get("Point", "Rate"), Some(&Parameter::integer(120)));
    assert_eq!(store.get("SEG", "RATE"), None);
    assert_eq!(store.get("ANALOG", "RATE"), None);
    assert_eq!(store.get("POINT", "NONE"), None);
    assert_eq!(store.remaining().len(), 4);
    assert!(store.remove("POINT", "RATE").is_some());
    assert_eq!(store.get("POINT", "RATE"), None);
    assert_eq!(store.get("POINT", "UNITS"), Some(&Parameter::char(b'm')));
}

#[test]
fn a_name_length_past_its_record_is_told_only_by_what_follows() {
    let p = &Processor::Intel;
    // Two groups: "G" with id 1, and one with id 2 whose name is four odd bytes.
    let section = vec![1, b'G', 4, 0, 255, 0, 4, 8, 0, 255, 4, 4, 0, 254, 0];
    let store = Parameters::decode(p, &section).unwrap();
    assert_eq!(store.group_id_of("G"), Some(1));
    // With the first length 3, the name runs to the end of its record of 6
    // bytes, the offset is read from the next record, and the section is
    // refused.
    let mut inside = section.clone();
    inside[0] = 3;
    assert_eq!(Parameters::decode(p, &inside).err(), Some(C3dParseError::MalformedRecord));
    // With the first length 6, the name runs past its record, and what
    // follows happens to read as the rest of one group record.
    let mut past = section.clone();
    past[0] = 6;
    let store = Parameters::decode(p, &past).unwrap();
    assert_eq!(store.group_id_of("G"), None);
    assert_eq!(store.write(p), past);
    // With a length past the end of the section, nothing can follow.
    let mut beyond = section.clone();
    beyond[0] = 15;
    assert_eq!(Parameters::decode(p, &beyond).err(), Some(C3dParseError::MalformedRecord));
    beyond[0] = 12;
    assert_eq!(Parameters::decode(p, &beyond).err(), Some(C3dParseError::MalformedRecord));
}

#[test]
fn groups_and_parameters_are_written_apart() {
    for processor in ALL {
        let p = &processor;
        let store = Parameters::decode(p, &section(p)).unwrap();
        let mut groups = write_group(p, "POINT", 1, false, b"points");
        groups.extend(write_group(p, "Seg", 2, true, b""));
        assert_eq!(store.write_groups(p), groups);
        let mut parameters = Parameter::integer(120).write(p, "RATE", 1, false);
        parameters.extend(Parameter::char(b'm').write(p, "UNITS", 1, false));
        parameters.extend(Parameter::float(14.0f32.to_bits()).write(p, "MARKER_DIAMETER", 2, false));
        let mut custom = Parameter::new(vec![2], ParameterData::Byte(vec![-1, 9])).unwrap();
        assert!(custom.set_description(b"mine"));
        parameters.extend(custom.write(p, "Custom", 2, true));
        assert_eq!(store.write_parameters(p), parameters);

        let mut both = store.write_groups(p);
        both.extend(store.write_parameters(p));
        let again = Parameters::decode(p, &both).unwrap();
        assert_eq!(again, store);
        assert_eq!(again.write(p), store.write(p));
    }
    assert!(Parameters::new().write_groups(&Processor::Intel).is_empty());
    assert!(Parameters::new().write_parameters(&Processor::Intel).is_empty());
}

#[test]
fn a_record_that_was_read_is_written_back_as_it_came() {
    for processor in ALL {
        let p = &processor;
        let bytes = section(p);
        let mut at = 0;
        while at < bytes.len() {
            let (record, len) = read_record(p, &bytes[at..]).unwrap();
            let written = match record {
                Record::Group { id, name, locked, description } => {
                    write_group(p, std::str::from_utf8(&name).unwrap(), id, locked, &description)
                }
                Record::Parameter { group_id, name, parameter } => {
                    parameter.write(p, std::str::from_utf8(&name).unwrap(), group_id, parameter.is_locked())
                }
            };
            assert_eq!(written, &bytes[at..at + len]);
            at += len;
        }
    }
}

#[test]
fn a_dec_float_with_exponent_byte_one_is_written_back_with_zero() {
    let p = &Processor::Dec;
    let mut bytes = write_group(p, "G", 1, false, b"");
    let start = bytes.len();
    bytes.extend(Parameter::float(0).write(p, "F", 1, false));
    let data = start + 1 + 1 + 2 + 3;
    bytes[data..data + 4].copy_from_slice(&[7, 1, 9, 3]);
    let store = Parameters::decode(p, &bytes).unwrap();
    let mut expected = bytes.clone();
    expected[data + 1] = 0;
    assert_eq!(store.write(p), expected);
    assert_eq!(Parameters::decode(p, &expected).unwrap(), store);
    bytes[data + 1] = 2;
    let store = Parameters::decode(p, &bytes).unwrap();
    assert_eq!(store.write(p), bytes);
}
