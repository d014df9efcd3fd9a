use ant_mania::cli::{parse_u16_bytes, parse_u64_bytes};
use ant_mania::types::SimulationConfig;

#[test]
fn decimal_parsing_accepts_plain_numbers() {
    assert_eq!(parse_u64_bytes(&b"0".to_vec()), Some(0));
    assert_eq!(parse_u64_bytes(&b"123".to_vec()), Some(123));
    assert_eq!(parse_u64_bytes(&b"0042".to_vec()), Some(42));
    assert_eq!(parse_u16_bytes(&b"65535".to_vec()), Some(65535));
}

#[test]
fn decimal_parsing_accepts_one_leading_plus() {
    assert_eq!(parse_u64_bytes(&b"+7".to_vec()), Some(7));
    assert_eq!(parse_u16_bytes(&b"+0".to_vec()), Some(0));
    assert_eq!(parse_u64_bytes(&b"++7".to_vec()), None);
}

#[test]
fn decimal_parsing_rejects_junk() {
    assert_eq!(parse_u64_bytes(&b"".to_vec()), None);
    assert_eq!(parse_u64_bytes(&b"+".to_vec()), None);
    assert_eq!(parse_u64_bytes(&b"12a".to_vec()), None);
    assert_eq!(parse_u64_bytes(&b"-3".to_vec()), None);
    assert_eq!(parse_u64_bytes(&b" 3".to_vec()), None);
}

#[test]
fn decimal_parsing_detects_overflow() {
    assert_eq!(parse_u64_bytes(&b"18446744073709551615".to_vec()), Some(u64::MAX));
    assert_eq!(parse_u64_bytes(&b"18446744073709551616".to_vec()), None);
    assert_eq!(parse_u16_bytes(&b"65536".to_vec()), None);
    assert_eq!(parse_u16_bytes(&b"99999999999999999999999".to_vec()), None);
}

#[test]
fn default_configuration_matches_the_documented_budget() {
    let c = SimulationConfig::default();
    assert_eq!(c.max_moves, 10000);
    assert_eq!(c.num_ants, 0);
    assert_eq!(c.map_file, String::new());
    assert_eq!(c.seed, None);
}
