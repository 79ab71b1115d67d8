use clip_mesh::clip_item::{detect_content_type, ContentType};

#[test]
fn classify_url() {
    assert_eq!(detect_content_type("https://example.com"), ContentType::Url);
    assert_eq!(detect_content_type("http://x"), ContentType::Url);
    assert_eq!(detect_content_type("  https://padded.example  "), ContentType::Url);
}

#[test]
fn classify_email() {
    assert_eq!(detect_content_type("a@b.co"), ContentType::Email);
    assert_eq!(detect_content_type("user.name@example.org"), ContentType::Email);
}

#[test]
fn classify_email_rejects_whitespace() {
    assert_eq!(detect_content_type("a @b.co"), ContentType::Text);
}

#[test]
fn classify_number() {
    assert_eq!(detect_content_type("42"), ContentType::Number);
    assert_eq!(detect_content_type("-3.5"), ContentType::Number);
    assert_eq!(detect_content_type("  1234.5  "), ContentType::Number);
    assert_eq!(detect_content_type("1e5"), ContentType::Number);
    assert_eq!(detect_content_type("-1.25E-3"), ContentType::Number);
    assert_eq!(detect_content_type("inf"), ContentType::Number);
    assert_eq!(detect_content_type("NaN"), ContentType::Number);
    assert_eq!(detect_content_type(".5"), ContentType::Number);
    assert_eq!(detect_content_type("5."), ContentType::Number);
}

#[test]
fn classify_number_rejects_malformed() {
    assert_eq!(detect_content_type("1.2.3"), ContentType::Text);
    assert_eq!(detect_content_type("1e"), ContentType::Text);
    assert_eq!(detect_content_type("."), ContentType::Text);
    assert_eq!(detect_content_type("+"), ContentType::Text);
}

#[test]
fn classify_json_shape() {
    assert_eq!(detect_content_type("{\"a\":1}"), ContentType::Json);
    assert_eq!(detect_content_type("[1, 2, 3]"), ContentType::Json);
    assert_eq!(detect_content_type("{}"), ContentType::Json);
    assert_eq!(detect_content_type("{not json at all}"), ContentType::Json);
}

#[test]
fn classify_csv() {
    assert_eq!(detect_content_type("a,b\nc,d"), ContentType::Csv);
    // one line with a comma is not a table
    assert_eq!(detect_content_type("a,b"), ContentType::Text);
    // several lines without a comma are not a table
    assert_eq!(detect_content_type("a\nb"), ContentType::Text);
}

#[test]
fn classify_text() {
    assert_eq!(detect_content_type("hello world"), ContentType::Text);
    assert_eq!(detect_content_type(""), ContentType::Text);
    assert_eq!(detect_content_type("   "), ContentType::Text);
}

#[test]
fn classify_is_deterministic() {
    let inputs = ["https://example.com", "a@b.co", "42", "{\"a\":1}", "a,b\nc,d", "plain"];
    for input in inputs {
        assert_eq!(detect_content_type(input), detect_content_type(input));
    }
}

#[test]
fn classify_trims_before_matching() {
    assert_eq!(detect_content_type("  {\"a\":1}  "), ContentType::Json);
    assert_eq!(detect_content_type("\ta@b.co\n"), ContentType::Email);
}
