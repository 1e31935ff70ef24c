use press::number::parse_number;
use press::number::NumberError;
use press::scalar::LIMIT;
use press::scalar::ONE;

#[test]
fn whole_numbers() {
    assert_eq!(parse_number(b"0"), Ok(0));
    assert_eq!(parse_number(b"12"), Ok(12 * ONE));
    assert_eq!(parse_number(b"-12"), Ok(-12 * ONE));
    assert_eq!(parse_number(b"+12"), Ok(12 * ONE));
    assert_eq!(parse_number(b"007"), Ok(7 * ONE));
    assert_eq!(parse_number(b"-0"), Ok(0));
}

#[test]
fn fractions_round_towards_zero() {
    assert_eq!(parse_number(b"0.5"), Ok(ONE / 2));
    assert_eq!(parse_number(b".5"), Ok(ONE / 2));
    assert_eq!(parse_number(b"+.5"), Ok(ONE / 2));
    assert_eq!(parse_number(b"7."), Ok(7 * ONE));
    // 0.35 * 65536 = 22937.6
    assert_eq!(parse_number(b"0.35"), Ok(22937));
    assert_eq!(parse_number(b"-0.35"), Ok(-22937));
    assert_eq!(parse_number(b"153.0"), Ok(153 * ONE));
    assert_eq!(parse_number(b"27.5"), Ok(27 * ONE + ONE / 2));
    assert_eq!(parse_number(b"0.0000152587890625"), Ok(1));
    assert_eq!(parse_number(b"0.0000152587890624"), Ok(0));
}

#[test]
fn digits_beyond_the_sixteenth_place_change_nothing() {
    assert_eq!(parse_number(b"0.00001525878906250000000000000000000000000001"), Ok(1));
    assert_eq!(parse_number(b"0.00001525878906249999999999999999999999999999"), Ok(0));
    assert_eq!(parse_number(b"0.99999999999999999999999999999999999999999999"), Ok(ONE - 1));
    assert_eq!(parse_number(b"0.00000000000000000000000000000000000000000001"), Ok(0));
    assert_eq!(parse_number(b"1.50000000000000000000000000000000000000000000"), Ok(ONE + ONE / 2));
}

#[test]
fn the_empty_text_is_empty() {
    assert_eq!(parse_number(b""), Err(NumberError::Empty));
}

#[test]
fn texts_that_are_no_numbers() {
    for text in [
        &b"-"[..],
        b"+",
        b".",
        b"-.",
        b"1.2.3",
        b"1e3",
        b"abc",
        b"1,5",
        b" 1",
        b"1 ",
        b"--1",
        b"+-1",
        b"1-",
        b"inf",
        b"nan",
        b"0x10",
        b"1.5f",
    ] {
        assert_eq!(parse_number(text), Err(NumberError::Invalid));
    }
}

#[test]
fn numbers_beyond_the_limit() {
    assert_eq!(parse_number(b"16384"), Ok(LIMIT));
    assert_eq!(parse_number(b"-16384"), Ok(-LIMIT));
    assert_eq!(parse_number(b"16384.0000152587890624"), Ok(LIMIT));
    assert_eq!(parse_number(b"16384.0000152587890625"), Err(NumberError::OutOfRange));
    assert_eq!(parse_number(b"16384.1"), Err(NumberError::OutOfRange));
    assert_eq!(parse_number(b"16385"), Err(NumberError::OutOfRange));
    assert_eq!(parse_number(b"-16385"), Err(NumberError::OutOfRange));
    assert_eq!(parse_number(b"99999999999999999999999999999999999999999999"), Err(NumberError::OutOfRange));
    assert_eq!(parse_number(b"00000000000000000000000000000000000000016384"), Ok(LIMIT));
}

#[test]
fn a_number_with_a_bad_byte_is_invalid_even_beyond_the_limit() {
    assert_eq!(parse_number(b"99999999999x"), Err(NumberError::Invalid));
    assert_eq!(parse_number(b"99999999999.5x"), Err(NumberError::Invalid));
}
