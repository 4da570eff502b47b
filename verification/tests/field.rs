use tab_search::field::{extract_f64, extract_string, extract_u32, FieldValue};

fn number(value: f64) -> FieldValue {
    FieldValue::Number(value.to_bits())
}

#[test]
fn extract_u32_reads_whole_numbers() {
    assert_eq!(extract_u32(&number(0.0)), Some(0));
    assert_eq!(extract_u32(&number(1.0)), Some(1));
    assert_eq!(extract_u32(&number(7.0)), Some(7));
    assert_eq!(extract_u32(&number(123456.0)), Some(123456));
    assert_eq!(extract_u32(&number(4294967295.0)), Some(u32::MAX));
}

#[test]
fn extract_u32_drops_fractions() {
    assert_eq!(extract_u32(&number(2.9)), Some(2));
    assert_eq!(extract_u32(&number(0.99)), Some(0));
    assert_eq!(extract_u32(&number(1.5)), Some(1));
    assert_eq!(extract_u32(&number(4294967295.5)), Some(u32::MAX));
    assert_eq!(extract_u32(&number(f64::MIN_POSITIVE)), Some(0));
    assert_eq!(extract_u32(&number(5e-324)), Some(0));
}

#[test]
fn extract_u32_caps_large_numbers() {
    assert_eq!(extract_u32(&number(4294967296.0)), Some(u32::MAX));
    assert_eq!(extract_u32(&number(1e300)), Some(u32::MAX));
    assert_eq!(extract_u32(&number(f64::INFINITY)), Some(u32::MAX));
}

#[test]
fn extract_u32_rejects_negative_numbers() {
    assert_eq!(extract_u32(&number(-1.0)), None);
    assert_eq!(extract_u32(&number(-0.5)), None);
    assert_eq!(extract_u32(&number(-5e-324)), None);
    assert_eq!(extract_u32(&number(-4294967296.0)), None);
    assert_eq!(extract_u32(&number(f64::NEG_INFINITY)), None);
}

#[test]
fn extract_u32_takes_negative_zero_and_nan_as_zero() {
    assert_eq!(extract_u32(&number(-0.0)), Some(0));
    assert_eq!(extract_u32(&number(f64::NAN)), Some(0));
    assert_eq!(extract_u32(&number(-f64::NAN)), Some(0));
}

#[test]
fn extract_u32_agrees_with_the_cast_of_a_double() {
    let samples: Vec<f64> = vec![
        0.0, 0.5, 1.0, 1.999, 2.0, 3.75, 255.0, 65535.9, 1048576.0, 2147483647.0, 2147483648.5,
        4294967294.999, 4294967295.0, 4294967296.0, 9007199254740992.0, 1e19, 1e-10,
    ];
    for value in samples {
        assert_eq!(extract_u32(&number(value)), Some(value as u32));
        if value > 0.0 {
            assert_eq!(extract_u32(&number(-value)), None);
        }
    }
}

#[test]
fn extract_u32_of_what_is_no_number() {
    assert_eq!(extract_u32(&FieldValue::Missing), None);
    assert_eq!(extract_u32(&FieldValue::Other), None);
    assert_eq!(extract_u32(&FieldValue::Text(String::from("12"))), None);
}

#[test]
fn extract_string_reads_text_only() {
    assert_eq!(extract_string(&FieldValue::Text(String::from("Docs"))), Some(String::from("Docs")));
    assert_eq!(extract_string(&FieldValue::Text(String::new())), Some(String::new()));
    assert_eq!(extract_string(&FieldValue::Missing), None);
    assert_eq!(extract_string(&FieldValue::Other), None);
    assert_eq!(extract_string(&number(3.0)), None);
}

#[test]
fn extract_f64_reads_numbers_only() {
    assert_eq!(extract_f64(&number(10.0)).map(f64::from_bits), Some(10.0));
    assert_eq!(extract_f64(&number(-1.25)).map(f64::from_bits), Some(-1.25));
    assert_eq!(extract_f64(&number(-1.25)), Some((-1.25f64).to_bits()));
    assert_eq!(extract_f64(&FieldValue::Missing), None);
    assert_eq!(extract_f64(&FieldValue::Other), None);
    assert_eq!(extract_f64(&FieldValue::Text(String::from("1"))), None);
}
