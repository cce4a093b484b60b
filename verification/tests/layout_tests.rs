use gbnet::layout::{
    bits_to_hold, enum_index_bits, field_bit_width, max_len_for, natural_bits, scalar_type_of, vec_length_accepted,
    validate_field_bits, vec_length_bits, BitsDefault, LayoutError, ScalarType,
};

fn defaults() -> Vec<BitsDefault> {
    vec![
        BitsDefault { type_ident: "u16".to_string(), bits: 10 },
        BitsDefault { type_ident: "bool".to_string(), bits: 1 },
        BitsDefault { type_ident: "u16".to_string(), bits: 12 },
    ]
}

#[test]
fn layout_scalar_names() {
    assert_eq!(scalar_type_of("u16"), Some(ScalarType::U16));
    assert_eq!(scalar_type_of("bool"), Some(ScalarType::Bool));
    assert_eq!(scalar_type_of("f64"), Some(ScalarType::F64));
    assert_eq!(scalar_type_of("PlayerInfo"), None);
    assert_eq!(natural_bits(ScalarType::I32), 32);
    assert_eq!(natural_bits(ScalarType::Bool), 1);
}

#[test]
fn layout_field_widths() {
    let d = defaults();
    assert_eq!(field_bit_width(Some("u16"), Some(6), false, &d, &[]), 6);
    assert_eq!(field_bit_width(Some("u16"), None, false, &d, &[]), 10);
    assert_eq!(field_bit_width(Some("bool"), None, false, &d, &[]), 1);
    assert_eq!(field_bit_width(Some("u8"), None, false, &d, &[]), 8);
    assert_eq!(field_bit_width(Some("u64"), None, false, &[], &[]), 64);
    assert_eq!(field_bit_width(Some("MessageType"), None, false, &d, &[]), 0);
    assert_eq!(field_bit_width(None, None, false, &d, &[]), 0);
}

#[test]
fn layout_validation() {
    assert_eq!(validate_field_bits(Some("bool"), 1), Ok(()));
    assert_eq!(validate_field_bits(Some("bool"), 2), Err(LayoutError::BoolNeedsOneBit));
    assert_eq!(validate_field_bits(Some("u8"), 9), Err(LayoutError::ExceedsType));
    assert_eq!(validate_field_bits(Some("i16"), 16), Ok(()));
    assert_eq!(validate_field_bits(Some("u32"), 33), Err(LayoutError::ExceedsType));
    assert_eq!(validate_field_bits(None, 65), Err(LayoutError::TooWide));
    assert_eq!(validate_field_bits(Some("f32"), 40), Ok(()));
}

#[test]
fn layout_length_prefix_widths() {
    assert_eq!(vec_length_bits(None), 16);
    assert_eq!(vec_length_bits(Some(4)), 2);
    assert_eq!(vec_length_bits(Some(3)), 2);
    assert_eq!(vec_length_bits(Some(16)), 4);
    assert_eq!(vec_length_bits(Some(32)), 5);
    assert_eq!(vec_length_bits(Some(33)), 6);
    assert_eq!(vec_length_bits(Some(1)), 0);
    assert_eq!(vec_length_bits(Some(0)), 0);
    assert_eq!(bits_to_hold(1), 0);
    assert_eq!(bits_to_hold(2), 1);
    assert_eq!(bits_to_hold(1025), 11);
    assert_eq!(bits_to_hold(usize::MAX), usize::BITS as usize);
}

#[test]
fn layout_length_acceptance() {
    // A maximum of 32 gives a 5-bit prefix: lengths up to 31 are written, 32 does not fit
    // the prefix, 33 is over the maximum.
    assert!(vec_length_accepted(0, Some(32)));
    assert!(vec_length_accepted(31, Some(32)));
    assert!(!vec_length_accepted(32, Some(32)));
    assert!(!vec_length_accepted(33, Some(32)));
    // A maximum of 5 gives 3 bits, which hold 5.
    assert!(vec_length_accepted(5, Some(5)));
    assert!(!vec_length_accepted(6, Some(5)));
    assert!(vec_length_accepted(65535, None));
    assert!(!vec_length_accepted(65536, None));
    assert!(!vec_length_accepted(1, Some(0)));
    assert!(vec_length_accepted(0, Some(0)));
}

#[test]
fn layout_enum_index_widths() {
    assert_eq!(enum_index_bits(4, Some(2), false), Ok(2));
    assert_eq!(enum_index_bits(4, None, false), Ok(2));
    assert_eq!(enum_index_bits(5, None, true), Ok(3));
    assert_eq!(enum_index_bits(0, None, false), Ok(0));
    assert_eq!(enum_index_bits(4, Some(1), false), Err(LayoutError::IndexTooNarrow));
    assert_eq!(enum_index_bits(4, Some(65), false), Err(LayoutError::TooWide));
    assert_eq!(enum_index_bits(300, None, true), Err(LayoutError::TooManyVariants));
    assert_eq!(enum_index_bits(300, None, false), Ok(9));
}

#[test]
fn layout_game_state_widths() {
    // GameState declares default_bits(u8 = 4, u16 = 12); PlayerData declares none.
    let game_state = vec![
        BitsDefault { type_ident: "u8".to_string(), bits: 4 },
        BitsDefault { type_ident: "u16".to_string(), bits: 12 },
    ];
    let project = game_state.clone();
    // tick: u32 takes its natural 32 bits.
    assert_eq!(field_bit_width(Some("u32"), None, false, &game_state, &project), 32);
    // #[bits = 3] game_mode: u8.
    assert_eq!(field_bit_width(Some("u8"), Some(3), false, &game_state, &project), 3);
    // #[byte_align] checksum: u16 keeps its 16 bits.
    assert_eq!(field_bit_width(Some("u16"), None, true, &game_state, &project), 16);
    // A plain u16 takes the default.
    assert_eq!(field_bit_width(Some("u16"), None, false, &game_state, &project), 12);
    // PlayerData's id: u8 takes 4 bits from the project's defaults.
    assert_eq!(field_bit_width(Some("u8"), None, false, &[], &project), 4);
    // #[max_len = 32] players: 5 length bits.
    assert_eq!(vec_length_bits(max_len_for(Some(32), None)), 5);
    // A declaration's own default comes before the project's.
    let own = vec![BitsDefault { type_ident: "u8".to_string(), bits: 6 }];
    assert_eq!(field_bit_width(Some("u8"), None, false, &own, &project), 6);
}

#[test]
fn layout_max_len_fallback() {
    assert_eq!(max_len_for(Some(4), Some(16)), Some(4));
    assert_eq!(max_len_for(None, Some(16)), Some(16));
    assert_eq!(max_len_for(None, None), None);
    assert_eq!(vec_length_bits(max_len_for(None, None)), 16);
}
