use c3d_parameters::Processor;

const ALL: [Processor; 3] = [Processor::Intel, Processor::Dec, Processor::SgiMips];

#[test]
fn intel_integers_are_little_endian() {
    assert_eq!(Processor::Intel.encode_i16(0x1234), [0x34, 0x12]);
    assert_eq!(Processor::Intel.decode_i16([0x34, 0x12]), 0x1234);
    assert_eq!(Processor::Intel.encode_i16(-2), [0xFE, 0xFF]);
    assert_eq!(Processor::Intel.decode_i16([0xFE, 0xFF]), -2);
}

#[test]
fn dec_integers_are_little_endian() {
    assert_eq!(Processor::Dec.encode_i16(0x1234), [0x34, 0x12]);
    assert_eq!(Processor::Dec.decode_i16([0x00, 0x80]), i16::MIN);
}

#[test]
fn sgi_integers_are_big_endian() {
    assert_eq!(Processor::SgiMips.encode_i16(0x1234), [0x12, 0x34]);
    assert_eq!(Processor::SgiMips.decode_i16([0x12, 0x34]), 0x1234);
    assert_eq!(Processor::SgiMips.encode_i16(-2), [0xFF, 0xFE]);
    assert_eq!(Processor::SgiMips.decode_i16([0x7F, 0xFF]), i16::MAX);
}

#[test]
fn integers_agree_with_std() {
    for v in [0i16, 1, -1, 255, 256, -256, 12345, -12345, i16::MAX, i16::MIN] {
        assert_eq!(Processor::Intel.encode_i16(v), v.to_le_bytes());
        assert_eq!(Processor::Dec.encode_i16(v), v.to_le_bytes());
        assert_eq!(Processor::SgiMips.encode_i16(v), v.to_be_bytes());
    }
}

#[test]
fn every_integer_round_trips() {
    for processor in ALL {
        for v in i16::MIN..=i16::MAX {
            assert_eq!(processor.decode_i16(processor.encode_i16(v)), v);
        }
    }
}

#[test]
fn float_layouts_of_fourteen() {
    let bits = 14.0f32.to_bits();
    assert_eq!(bits, 0x4160_0000);
    assert_eq!(Processor::Intel.encode_float(bits), [0x00, 0x00, 0x60, 0x41]);
    assert_eq!(Processor::SgiMips.encode_float(bits), [0x41, 0x60, 0x00, 0x00]);
    assert_eq!(Processor::Dec.encode_float(bits), [0x60, 0x42, 0x00, 0x00]);
}

#[test]
fn ieee_floats_agree_with_std() {
    for x in [0.0f32, -0.0, 1.0, -1.5, 14.0, 3.1415927, f32::MAX, f32::MIN_POSITIVE, f32::INFINITY, f32::NEG_INFINITY, f32::NAN] {
        let bits = x.to_bits();
        assert_eq!(Processor::Intel.encode_float(bits), x.to_le_bytes());
        assert_eq!(Processor::SgiMips.encode_float(bits), x.to_be_bytes());
        assert_eq!(Processor::Intel.decode_float(x.to_le_bytes()), bits);
        assert_eq!(Processor::SgiMips.decode_float(x.to_be_bytes()), bits);
    }
}

#[test]
fn dec_float_decodes_by_word_swap_and_exponent() {
    assert_eq!(Processor::Dec.decode_float([0x60, 0x42, 0x00, 0x00]), 14.0f32.to_bits());
    assert_eq!(Processor::Dec.decode_float([0x00, 0x00, 0x00, 0x00]), 0);
    assert_eq!(Processor::Dec.decode_float([0x34, 0x00, 0x78, 0x56]), 0x0034_5678);
    assert_eq!(Processor::Dec.decode_float([0x34, 0x12, 0x78, 0x56]), 0x1134_5678);
}

#[test]
fn floats_round_trip_bit_for_bit() {
    let samples = [
        0u32, 1, 0x0000_FFFF, 0x00FF_FFFF, 0x0100_0000, 0x3F80_0000, 0x4160_0000, 0x7F7F_FFFF,
        0x7F80_0000, 0x7FC0_0001, 0x8000_0000, 0x8000_0001, 0xBFC0_0000, 0xFE7F_FFFF, 0xFEFF_FFFF,
    ];
    for processor in ALL {
        for bits in samples {
            assert_eq!(processor.decode_float(processor.encode_float(bits)), bits);
        }
    }
}

#[test]
fn ieee_layouts_hold_the_highest_top_byte() {
    for bits in [0xFF80_0000u32, 0xFFFF_FFFF, 0xFF00_0000] {
        assert_eq!(Processor::Intel.decode_float(Processor::Intel.encode_float(bits)), bits);
        assert_eq!(Processor::SgiMips.decode_float(Processor::SgiMips.encode_float(bits)), bits);
    }
}

#[test]
fn dec_layout_cannot_hold_the_highest_top_byte() {
    let bits = f32::NEG_INFINITY.to_bits();
    assert_eq!(bits, 0xFF80_0000);
    let bytes = Processor::Dec.encode_float(bits);
    assert_eq!(bytes, [0x80, 0xFF, 0x00, 0x00]);
    assert_eq!(Processor::Dec.decode_float(bytes), 0xFE80_0000);
}

#[test]
fn whatever_is_decoded_is_encoded_back_to_the_same_value() {
    for processor in ALL {
        for top in 0u8..=255 {
            let bytes = [0x12, top, 0x56, 0x78];
            let swapped = [0x12, 0x34, 0x56, top];
            for b in [bytes, swapped] {
                let bits = processor.decode_float(b);
                assert_eq!(processor.decode_float(processor.encode_float(bits)), bits);
            }
        }
    }
}

#[test]
fn stored_bytes_come_back_but_for_a_dec_exponent_byte_of_one() {
    for processor in ALL {
        for second in 0u8..=255 {
            let bytes = [7, second, 9, 3];
            let back = processor.encode_float(processor.decode_float(bytes));
            if matches!(processor, Processor::Dec) && second == 1 {
                assert_eq!(back, [7, 0, 9, 3]);
                assert_eq!(processor.decode_float(back), processor.decode_float(bytes));
            } else {
                assert_eq!(back, bytes);
            }
        }
        for hi in 0u8..=255 {
            for lo in [0u8, 1, 127, 128, 255] {
                assert_eq!(processor.encode_i16(processor.decode_i16([lo, hi])), [lo, hi]);
            }
        }
    }
}
