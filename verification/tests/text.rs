use recommender::text::{bool_to_text, parse_bool, parse_u32, split, to_decimal};

#[test]
fn decimal_rendering() {
    assert_eq!(to_decimal(0), "0");
    assert_eq!(to_decimal(7), "7");
    assert_eq!(to_decimal(10), "10");
    assert_eq!(to_decimal(4096), "4096");
    assert_eq!(to_decimal(u64::MAX), "18446744073709551615");
}

#[test]
fn parse_u32_like_std() {
    for s in ["0", "42", "+42", "007", "4294967295", "4294967296", "", "+", "-1", "1a", " 1", "99999999999"] {
        assert_eq!(parse_u32(s), s.parse::<u32>().ok(), "{}", s);
    }
}

#[test]
fn parse_u32_reads_back_rendering() {
    for n in [0u32, 1, 9, 10, 123456, u32::MAX] {
        assert_eq!(parse_u32(&to_decimal(n as u64)), Some(n));
    }
}

#[test]
fn parse_bool_like_std() {
    for s in ["true", "false", "True", "", "1", "falsey"] {
        assert_eq!(parse_bool(s), s.parse::<bool>().ok(), "{}", s);
    }
    assert_eq!(parse_bool(&bool_to_text(true)), Some(true));
    assert_eq!(parse_bool(&bool_to_text(false)), Some(false));
}

#[test]
fn split_like_std() {
    for s in ["a:b:c", "", ":", "a::b", "abc", ":a:", "x:y:z:w"] {
        let ours = split(s, ':');
        let theirs: Vec<String> = s.split(':').map(|p| p.to_string()).collect();
        assert_eq!(ours, theirs, "{}", s);
    }
}
