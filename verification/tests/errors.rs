use wa_proto::{
    ProtocolError, ARGS_NEXT_ERROR, BYTES_INTO_ARR4_ERROR, BYTES_INTO_ARR8_ERROR,
    ENUM_FROM_U32_ERROR, MAP_INSERT_ERROR, STRING_FROM_BYTES_ERROR, TIME_PARSE_ERROR,
};

#[test]
fn codes_are_the_documented_numbers() {
    assert_eq!(ARGS_NEXT_ERROR, 2);
    assert_eq!(BYTES_INTO_ARR4_ERROR, 3);
    assert_eq!(BYTES_INTO_ARR8_ERROR, 4);
    assert_eq!(MAP_INSERT_ERROR, 5);
    assert_eq!(STRING_FROM_BYTES_ERROR, 6);
    assert_eq!(ENUM_FROM_U32_ERROR, 7);
    assert_eq!(TIME_PARSE_ERROR, 8);
}

#[test]
fn code_is_the_number_inside() {
    assert_eq!(ProtocolError(5).code(), 5);
    assert_eq!(ProtocolError(5).0, 5);
    assert_eq!(ProtocolError::from(7), ProtocolError(7));
    assert_eq!(ProtocolError::default(), ProtocolError(0));
}

#[test]
fn each_kind_has_its_message() {
    assert_eq!(ProtocolError(ARGS_NEXT_ERROR).message(), "args is end");
    assert_eq!(ProtocolError(BYTES_INTO_ARR4_ERROR).message(), "slice len error");
    assert_eq!(ProtocolError(BYTES_INTO_ARR8_ERROR).message(), "slice len error");
    assert_eq!(ProtocolError(MAP_INSERT_ERROR).message(), "map already have item");
    assert_eq!(ProtocolError(STRING_FROM_BYTES_ERROR).message(), "utf-8 string bytes error");
    assert_eq!(ProtocolError(ENUM_FROM_U32_ERROR).message(), "enum from u32 error");
    assert_eq!(ProtocolError(TIME_PARSE_ERROR).message(), "time from u32 error");
    assert_eq!(ProtocolError(0).message(), "");
    assert_eq!(ProtocolError(99).message(), "");
}

#[test]
fn the_printed_line_has_the_prefix() {
    assert_eq!(ProtocolError(ARGS_NEXT_ERROR).to_string(), "Protocol error: args is end");
    assert_eq!(
        ProtocolError(MAP_INSERT_ERROR).to_string(),
        "Protocol error: map already have item"
    );
    assert_eq!(ProtocolError(TIME_PARSE_ERROR).to_string(), "Protocol error: time from u32 error");
    assert_eq!(ProtocolError::default().to_string(), "Protocol error, can't transform");
}

#[test]
fn the_printed_line_is_prefix_and_message_for_every_kind() {
    for code in ARGS_NEXT_ERROR..=TIME_PARSE_ERROR {
        let error = ProtocolError(code);
        assert_eq!(error.to_string(), format!("Protocol error: {}", error.message()));
    }
}
