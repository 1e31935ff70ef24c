use press::config::parse_list;
use press::config::ConfigError;
use press::config::ShapeConfig;
use press::config::Value;
use press::number::NumberError;
use press::scalar::ONE;

fn defaults() -> ShapeConfig {
    let mut cfg = ShapeConfig::new();
    cfg.define(b"needle_distance".to_vec(), Value::Scalar(56 * ONE));
    cfg.define(b"hill_slope".to_vec(), Value::Scalar(-22937));
    cfg.define(b"needle_ys".to_vec(), Value::List(vec![ONE, 2 * ONE]));
    cfg.define(b"needle_count".to_vec(), Value::Scalar(4 * ONE));
    cfg
}

#[test]
fn the_defaults_stay_without_text() {
    let cfg = defaults().parse(b"").unwrap();
    assert_eq!(cfg, defaults());
    assert_eq!(cfg.len(), 4);
    assert_eq!(cfg.scalar(b"needle_distance"), Some(56 * ONE));
    assert_eq!(cfg.scalar(b"needle_ys"), None);
    assert_eq!(cfg.scalar(b"nothing"), None);
    assert_eq!(cfg.value(b"needle_ys"), Some(&Value::List(vec![ONE, 2 * ONE])));
    assert_eq!(cfg.value(b"nothing"), None);
    assert_eq!(cfg.list(b"needle_ys"), Some(&vec![ONE, 2 * ONE]));
    assert_eq!(cfg.list(b"needle_distance"), None);
    assert_eq!(cfg.list(b"nothing"), None);
    assert_eq!(cfg.position(b"hill_slope"), Some(1));
}

#[test]
fn lines_replace_values() {
    let text = b"needle_distance=60.5\nneedle_ys=8.5,14,18.75\n\nhill_slope=-0.5\n";
    let cfg = defaults().parse(text).unwrap();
    assert_eq!(cfg.scalar(b"needle_distance"), Some(60 * ONE + ONE / 2));
    assert_eq!(cfg.scalar(b"hill_slope"), Some(-ONE / 2));
    assert_eq!(
        cfg.value(b"needle_ys"),
        Some(&Value::List(vec![8 * ONE + ONE / 2, 14 * ONE, 18 * ONE + 3 * ONE / 4]))
    );
    assert_eq!(cfg.scalar(b"needle_count"), Some(4 * ONE));
}

#[test]
fn the_last_line_needs_no_newline_and_a_later_line_wins() {
    let cfg = defaults().parse(b"needle_count=5\nneedle_count=6").unwrap();
    assert_eq!(cfg.scalar(b"needle_count"), Some(6 * ONE));
}

#[test]
fn an_unknown_key_is_named() {
    let r = defaults().parse(b"needle_distance=1\nneedle_width=3\nhill_slope=2\n");
    assert_eq!(r, Err(ConfigError::UnknownKey(b"needle_width".to_vec())));
    let r = defaults().parse(b"=3\n");
    assert_eq!(r, Err(ConfigError::UnknownKey(Vec::new())));
    let r = defaults().parse(b" needle_distance=3\n");
    assert_eq!(r, Err(ConfigError::UnknownKey(b" needle_distance".to_vec())));
}

#[test]
fn a_key_without_a_value_is_named() {
    let r = defaults().parse(b"needle_distance\n");
    assert_eq!(r, Err(ConfigError::MissingValue(b"needle_distance".to_vec())));
    let r = defaults().parse(b"hill_slope=1\nneedle_width");
    assert_eq!(r, Err(ConfigError::MissingValue(b"needle_width".to_vec())));
}

#[test]
fn a_value_that_is_no_number_is_named_with_its_cause() {
    let r = defaults().parse(b"needle_distance=wide\n");
    assert_eq!(
        r,
        Err(ConfigError::InvalidNumber { key: b"needle_distance".to_vec(), cause: NumberError::Invalid })
    );
    let r = defaults().parse(b"needle_distance=\n");
    assert_eq!(r, Err(ConfigError::InvalidNumber { key: b"needle_distance".to_vec(), cause: NumberError::Empty }));
    let r = defaults().parse(b"needle_distance=1e9\n");
    assert_eq!(
        r,
        Err(ConfigError::InvalidNumber { key: b"needle_distance".to_vec(), cause: NumberError::Invalid })
    );
    let r = defaults().parse(b"needle_distance=1000000\n");
    assert_eq!(
        r,
        Err(ConfigError::InvalidNumber { key: b"needle_distance".to_vec(), cause: NumberError::OutOfRange })
    );
    let r = defaults().parse(b"needle_distance=1=2\n");
    assert_eq!(
        r,
        Err(ConfigError::InvalidNumber { key: b"needle_distance".to_vec(), cause: NumberError::Invalid })
    );
    let r = defaults().parse(b"needle_ys=1,two,3\n");
    assert_eq!(r, Err(ConfigError::InvalidNumber { key: b"needle_ys".to_vec(), cause: NumberError::Invalid }));
    let r = defaults().parse(b"needle_ys=1,,3\n");
    assert_eq!(r, Err(ConfigError::InvalidNumber { key: b"needle_ys".to_vec(), cause: NumberError::Empty }));
    let r = defaults().parse(b"needle_distance=1,2\n");
    assert_eq!(
        r,
        Err(ConfigError::InvalidNumber { key: b"needle_distance".to_vec(), cause: NumberError::Invalid })
    );
}

#[test]
fn the_first_bad_line_decides() {
    let r = defaults().parse(b"needle_distance=x\nbogus=1\n");
    assert_eq!(
        r,
        Err(ConfigError::InvalidNumber { key: b"needle_distance".to_vec(), cause: NumberError::Invalid })
    );
    let r = defaults().parse(b"bogus=1\nneedle_distance=x\n");
    assert_eq!(r, Err(ConfigError::UnknownKey(b"bogus".to_vec())));
}

#[test]
fn one_line_at_a_time() {
    let cfg = defaults().parse_line(b"hill_slope=0.25").unwrap();
    assert_eq!(cfg.scalar(b"hill_slope"), Some(ONE / 4));
    assert_eq!(defaults().parse_line(b""), Err(ConfigError::MissingValue(Vec::new())));
    let r = defaults().parse_line(b"hill_slope=0.25\n");
    assert_eq!(r, Err(ConfigError::InvalidNumber { key: b"hill_slope".to_vec(), cause: NumberError::Invalid }));
}

#[test]
fn lists() {
    assert_eq!(parse_list(b"1"), Ok(vec![ONE]));
    assert_eq!(parse_list(b"1,2,-3.5"), Ok(vec![ONE, 2 * ONE, -3 * ONE - ONE / 2]));
    assert_eq!(parse_list(b""), Err(NumberError::Empty));
    assert_eq!(parse_list(b"1,"), Err(NumberError::Empty));
    assert_eq!(parse_list(b",1"), Err(NumberError::Empty));
    assert_eq!(parse_list(b"1,x,"), Err(NumberError::Invalid));
    assert_eq!(parse_list(b"1, 2"), Err(NumberError::Invalid));
    assert_eq!(parse_list(b"1,20000"), Err(NumberError::OutOfRange));
}

#[test]
fn the_first_of_two_parameters_of_one_name_is_the_one() {
    let mut cfg = ShapeConfig::new();
    cfg.define(b"a".to_vec(), Value::Scalar(1));
    cfg.define(b"a".to_vec(), Value::Scalar(2));
    let cfg = cfg.parse(b"a=3").unwrap();
    assert_eq!(cfg.position(b"a"), Some(0));
    assert_eq!(cfg.scalar(b"a"), Some(3 * ONE));
    assert_eq!(cfg.len(), 2);
}
