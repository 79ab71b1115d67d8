use clip_mesh::clip_item::{ClipItem, ContentType, TransformType};
use clip_mesh::number_format::NumberFormatter;
use clip_mesh::text_transform::TextTransformer;
use clip_mesh::transforms::{Transform, TransformEngine};

fn item(content: &str) -> ClipItem {
    ClipItem::new(content.to_string(), "dev".to_string())
}

#[test]
fn number_format_groups_integers() {
    let f = NumberFormatter::new();
    assert_eq!(f.transform("1234567").unwrap(), "1,234,567");
    assert_eq!(f.transform("1000000").unwrap(), "1,000,000");
    assert_eq!(f.transform("100").unwrap(), "100");
    assert_eq!(f.transform("0").unwrap(), "0");
    assert_eq!(f.transform("-1234").unwrap(), "-1,234");
    assert_eq!(f.transform("-0").unwrap(), "0");
    assert_eq!(f.transform("0001234").unwrap(), "1,234");
}

#[test]
fn number_format_two_decimal_fractions() {
    let f = NumberFormatter::new();
    assert_eq!(f.transform("1234.5").unwrap(), "1,234.50");
    assert_eq!(f.transform("1234.567").unwrap(), "1,234.57");
    assert_eq!(f.transform("1234.000").unwrap(), "1,234");
    assert_eq!(f.transform("1.995").unwrap(), "2.00");
    assert_eq!(f.transform("999.995").unwrap(), "1,000.00");
}

#[test]
fn number_format_negative_fraction_is_well_formed() {
    // the sign is written once, before the grouped digits; the fractional
    // suffix carries no sign of its own
    let f = NumberFormatter::new();
    assert_eq!(f.transform("-1234.5").unwrap(), "-1,234.50");
    assert_eq!(f.transform("-0.5").unwrap(), "-0.50");
}

#[test]
fn number_format_applies_exponents() {
    let f = NumberFormatter::new();
    assert_eq!(f.transform("1e3").unwrap(), "1,000");
    assert_eq!(f.transform("1.5e1").unwrap(), "15");
    assert_eq!(f.transform("2.5E-2").unwrap(), "0.03");
    assert_eq!(f.transform("1e-3").unwrap(), "0.00");
    assert_eq!(f.transform("-1e2").unwrap(), "-100");
    assert_eq!(f.transform("12e+4").unwrap(), "120,000");
    assert_eq!(f.transform("0e5").unwrap(), "0");
    assert_eq!(f.transform("7e00002").unwrap(), "700");
}

#[test]
fn number_format_rejects_non_literals() {
    let f = NumberFormatter::new();
    assert!(f.transform("abc").is_err());
    assert!(f.transform("12.34.5").is_err());
    assert!(f.transform("").is_err());
    assert!(f.transform(".").is_err());
    assert!(f.transform("1e").is_err());
    assert!(f.transform("1e+").is_err());
    assert!(f.transform("inf").is_err());
    assert!(f.transform("NaN").is_err());
    // the dot shift is bounded; absurd exponents fail instead of
    // materializing the digits
    assert!(f.transform("1e999999").is_err());
}

#[test]
fn format_with_commas_exact_values() {
    assert_eq!(NumberFormatter::format_with_commas(1234567), "1,234,567");
    assert_eq!(NumberFormatter::format_with_commas(1000), "1,000");
    assert_eq!(NumberFormatter::format_with_commas(999), "999");
    assert_eq!(NumberFormatter::format_with_commas(0), "0");
    assert_eq!(NumberFormatter::format_with_commas(-42), "-42");
    assert_eq!(NumberFormatter::format_with_commas(-1234567), "-1,234,567");
}

#[test]
fn text_transform_cleans_lines() {
    let t = TextTransformer::new();
    assert_eq!(t.transform("  a \n\n b  \n").unwrap(), "a\nb");
    assert_eq!(t.transform("hello").unwrap(), "hello");
    assert_eq!(t.transform("  padded  ").unwrap(), "padded");
    assert_eq!(t.transform("").unwrap(), "");
    assert_eq!(t.transform("\n\n\n").unwrap(), "");
    assert_eq!(t.transform("one\r\ntwo\r\n").unwrap(), "one\ntwo");
}

#[test]
fn eligibility_follows_content_type() {
    let n = NumberFormatter::new();
    let t = TextTransformer::new();
    assert!(n.can_transform(&item("42")));
    assert!(!n.can_transform(&item("hello")));
    assert!(t.can_transform(&item("hello")));
    assert!(t.can_transform(&item("a@b.co")));
    assert!(t.can_transform(&item("https://example.com")));
    assert!(!t.can_transform(&item("42")));
    assert!(!t.can_transform(&item("{\"a\":1}")));
}

#[test]
fn engine_appends_number_format() {
    let engine = TransformEngine::new();
    let mut it = item("1234567");
    assert_eq!(it.content_type, ContentType::Number);
    engine.apply_smart_transforms(&mut it);
    assert_eq!(it.transformations.len(), 1);
    assert!(matches!(it.transformations[0].transform_type, TransformType::NumberFormat));
    assert_eq!(it.transformations[0].result, "1,234,567");
}

#[test]
fn engine_appends_cleaned_text() {
    let engine = TransformEngine::new();
    let mut it = item("  hi \n there ");
    assert_eq!(it.content_type, ContentType::Text);
    engine.apply_smart_transforms(&mut it);
    assert_eq!(it.transformations.len(), 1);
    match &it.transformations[0].transform_type {
        TransformType::ToneAdjustment { tone } => assert_eq!(tone, "cleaned"),
        other => panic!("unexpected transform tag: {:?}", other),
    }
    assert_eq!(it.transformations[0].result, "hi\nthere");
}

#[test]
fn engine_skips_ineligible_items() {
    let engine = TransformEngine::new();
    let mut it = item("{\"a\": 1}");
    assert_eq!(it.content_type, ContentType::Json);
    engine.apply_smart_transforms(&mut it);
    assert_eq!(it.transformations.len(), 0);
}

#[test]
fn item_creation_fills_metadata() {
    let it = ClipItem::new("42".to_string(), "mydevice".to_string());
    assert_eq!(it.content, "42");
    assert_eq!(it.content_type, ContentType::Number);
    assert_eq!(it.device_id, "mydevice");
    assert!(it.tags.is_empty());
    assert!(it.transformations.is_empty());
    assert_eq!(it.id.len(), 36);
}
