use puzzles::rect::{ParseRectError, Rect};

#[test]
fn test_top_right() {
    let rect = Rect { id: 123, x: 3, y: 2, width: 5, height: 4 };

    assert_eq!(rect.top_right(), (7, 5));
}

#[test]
fn test_top_right_size_zero() {
    let rect_at_0_0 = Rect { id: 1, x: 0, y: 0, width: 0, height: 0 };

    assert_eq!(rect_at_0_0.top_right(), (0, 0));

    let rect_at_10_10 = Rect { id: 1, x: 10, y: 10, width: 0, height: 0 };

    assert_eq!(rect_at_10_10.top_right(), (10, 10));
}

#[test]
fn test_iter_coords() {
    let rect = Rect { id: 123, x: 5, y: 7, width: 3, height: 2 };
    let coords: Vec<_> = rect.iter_coords();

    assert_eq!(
        coords,
        vec![(5, 7), (6, 7), (7, 7),
             (5, 8), (6, 8), (7, 8),]
    );
}

#[test]
fn test_iter_size_zero() {
    let rect = Rect { id: 1, x: 5, y: 7, width: 0, height: 0 };
    let coords: Vec<_> = rect.iter_coords();

    assert!(rect.is_empty());
    assert!(coords.is_empty());
}

#[test]
fn test_parsing() {
    let rect: Rect = "#1 @ 1,5: 9x100".parse().unwrap();

    assert_eq!(rect, Rect { id: 1, x: 1, y: 5, width: 9, height: 100 });
}

#[test]
fn test_parsing_malformed() {
    let parse_result = "Elvish Pants".parse::<Rect>();

    assert!(parse_result.is_err());
    let err = parse_result.unwrap_err();

    assert_eq!(
        err.message(), "Error parsing Rect from string: 'Elvish Pants'"
    );
}

#[test]
fn test_parsing_int_overflow() {
    assert!(999999999 < u32::MAX as u64);
    assert!(5000000000u64 > u32::MAX as u64);

    let parse_no_overflow = "#1 @ 1,5: 8x999999999".parse::<Rect>();
    assert!(parse_no_overflow.is_ok());

    let parse_overflow = "#1 @ 1,5: 8x5000000000".parse::<Rect>();

    assert!(parse_overflow.is_err());
    let err = parse_overflow.unwrap_err();

    assert_eq!(
        err.message(), "Error parsing Rect: integer overflow"
    );
}

#[test]
fn test_parsing_and_display_are_symmetrical() {
    let rect = Rect { id: 42, x: 6, y: 20, width: 10, height: 9001 };

    let as_str = rect.display();
    assert_eq!(as_str, "#42 @ 6,20: 10x9001");

    assert_eq!(as_str.parse::<Rect>().unwrap(), rect);
}

#[test]
fn test_parsing_u32_boundary() {
    let max_field: Rect = "#1 @ 0,0: 1x4294967295".parse().unwrap();
    assert_eq!(max_field.height, u32::MAX);

    let one_past = "#1 @ 0,0: 1x4294967296".parse::<Rect>();
    assert_eq!(one_past.unwrap_err(), ParseRectError::IntegerOverflow);

    let far_past = "#1 @ 0,0: 1x18446744073709551617".parse::<Rect>();
    assert_eq!(far_past.unwrap_err(), ParseRectError::IntegerOverflow);
}

#[test]
fn test_parsing_rejects_unanchored_text() {
    assert!("xx#1 @ 1,5: 9x100".parse::<Rect>().is_err());
    assert!("#1 @ 1,5: 9x100yy".parse::<Rect>().is_err());
    assert!("".parse::<Rect>().is_err());
    assert!("#1 @ 1,5: 9x".parse::<Rect>().is_err());
    assert!("# @ 1,5: 9x100".parse::<Rect>().is_err());
}

#[test]
fn test_display_round_trip_zero_fields() {
    let rect = Rect { id: 0, x: 0, y: 0, width: 0, height: 0 };
    let text = rect.display();
    assert_eq!(text, "#0 @ 0,0: 0x0");
    assert_eq!(text.parse::<Rect>().unwrap(), rect);
}
