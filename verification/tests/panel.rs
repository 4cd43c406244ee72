use lapce_collab::digits::{parse_i32, parse_u32};
use lapce_collab::panel::{parse_session_id, session_id_text, strip_outer_chars, StartResponse};

#[test]
fn quoted_text_loses_its_quotes() {
    assert_eq!(strip_outer_chars("\"123\""), "123");
    assert_eq!(strip_outer_chars("ab"), "");
    assert_eq!(strip_outer_chars("a"), "");
    assert_eq!(strip_outer_chars(""), "");
    assert_eq!(strip_outer_chars("[é,ü]"), "é,ü");
}

#[test]
fn session_number_as_text() {
    let r = StartResponse { status: "ok".to_string(), id: 42 };
    assert_eq!(session_id_text(&r), "42");
    let r = StartResponse { status: "ok".to_string(), id: -7 };
    assert_eq!(session_id_text(&r), "-7");
    let r = StartResponse { status: "ok".to_string(), id: 0 };
    assert_eq!(session_id_text(&r), "0");
    let r = StartResponse { status: "ok".to_string(), id: i32::MIN };
    assert_eq!(session_id_text(&r), i32::MIN.to_string());
    let r = StartResponse { status: "ok".to_string(), id: i32::MAX };
    assert_eq!(session_id_text(&r), i32::MAX.to_string());
}

#[test]
fn typed_session_numbers() {
    assert_eq!(parse_session_id("7"), Some(7));
    assert_eq!(parse_session_id("-12"), Some(-12));
    assert_eq!(parse_session_id("+5"), Some(5));
    assert_eq!(parse_session_id("abc"), None);
    assert_eq!(parse_session_id(""), None);
    assert_eq!(parse_session_id("-"), None);
    assert_eq!(parse_session_id(" 7"), None);
    assert_eq!(parse_session_id("2147483648"), None);
    assert_eq!(parse_session_id("-2147483648"), Some(i32::MIN));
    assert_eq!(parse_session_id("2147483647"), Some(i32::MAX));
}

#[test]
fn parsing_agrees_with_std() {
    let inputs = [
        "", "+", "-", "0", "00", "+0", "-0", "9", "12a", "4294967295", "4294967296", "-1",
        "+4294967295", "2147483647", "-2147483648", "-2147483649", "+-1", "1 ", "007",
    ];
    for s in inputs {
        assert_eq!(parse_u32(s), s.parse::<u32>().ok(), "u32 {:?}", s);
        assert_eq!(parse_i32(s), s.parse::<i32>().ok(), "i32 {:?}", s);
    }
}
