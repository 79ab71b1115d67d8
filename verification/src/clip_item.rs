//! The captured-item data model and the content classifier.
//!
//! `detect_content_type` is a total, deterministic, side-effect-free function
//! from text to a `ContentType` tag; its whole behaviour is pinned down by
//! `classify_spec`.

use vstd::prelude::*;

use crate::text::{
    chars_vec, contains_char, contains_ws, is_digit, is_digit_char, is_ws, trim_chars, trim_spec,
};

verus! {

/// Closed set of mutually exclusive content tags. Only `Text`, `Url`,
/// `Email`, `Number`, `Json` and `Csv` are ever produced by the classifier;
/// the rest are reserved tags with no detection rule.
#[derive(Debug, Clone, Copy, PartialEq, Eq, Structural)]
pub enum ContentType {
    Text,
    Url,
    Code,
    Number,
    Date,
    Address,
    Email,
    Json,
    Csv,
    Image,
    Audio,
}

/// Tag identifying which transform produced a result, with its parameters.
#[derive(Debug)]
pub enum TransformType {
    Translation { from: String, to: String },
    NumberFormat,
    DateFormat,
    JsonPretty,
    CsvToMarkdown,
    Summary,
    ToneAdjustment { tone: String },
}

/// One transform result attached to an item; additive, never replacing the
/// item's content.
#[derive(Debug)]
pub struct Transformation {
    pub transform_type: TransformType,
    pub result: String,
    pub timestamp: i64,
}

/// One captured clipboard value with its metadata and derived transformations.
#[derive(Debug)]
pub struct ClipItem {
    pub id: String,
    pub content: String,
    pub content_type: ContentType,
    pub timestamp: i64,
    pub device_id: String,
    pub tags: Vec<String>,
    pub transformations: Vec<Transformation>,
}

/// Mathematical image of a `TransformType`.
#[verifier::ext_equal]
pub ghost enum TransformKindModel {
    Translation { from: Seq<char>, to: Seq<char> },
    NumberFormat,
    DateFormat,
    JsonPretty,
    CsvToMarkdown,
    Summary,
    ToneAdjustment { tone: Seq<char> },
}

/// Mathematical image of a `Transformation`.
#[verifier::ext_equal]
pub ghost struct TransformationModel {
    pub transform_type: TransformKindModel,
    pub result: Seq<char>,
    pub timestamp: int,
}

/// Mathematical image of a `ClipItem`.
#[verifier::ext_equal]
pub ghost struct ItemModel {
    pub id: Seq<char>,
    pub content: Seq<char>,
    pub content_type: ContentType,
    pub timestamp: int,
    pub device_id: Seq<char>,
    pub tags: Seq<Seq<char>>,
    pub transformations: Seq<TransformationModel>,
}

impl DeepView for TransformType {
    type V = TransformKindModel;

    open spec fn deep_view(&self) -> TransformKindModel {
        match self {
            TransformType::Translation { from, to } => TransformKindModel::Translation {
                from: from@,
                to: to@,
            },
            TransformType::NumberFormat => TransformKindModel::NumberFormat,
            TransformType::DateFormat => TransformKindModel::DateFormat,
            TransformType::JsonPretty => TransformKindModel::JsonPretty,
            TransformType::CsvToMarkdown => TransformKindModel::CsvToMarkdown,
            TransformType::Summary => TransformKindModel::Summary,
            TransformType::ToneAdjustment { tone } => TransformKindModel::ToneAdjustment {
                tone: tone@,
            },
        }
    }
}

impl DeepView for Transformation {
    type V = TransformationModel;

    open spec fn deep_view(&self) -> TransformationModel {
        TransformationModel {
            transform_type: self.transform_type.deep_view(),
            result: self.result@,
            timestamp: self.timestamp as int,
        }
    }
}

impl DeepView for ClipItem {
    type V = ItemModel;

    open spec fn deep_view(&self) -> ItemModel {
        ItemModel {
            id: self.id@,
            content: self.content@,
            content_type: self.content_type,
            timestamp: self.timestamp as int,
            device_id: self.device_id@,
            tags: self.tags.deep_view(),
            transformations: self.transformations.deep_view(),
        }
    }
}

impl Clone for TransformType {
    fn clone(&self) -> (r: Self)
        ensures
            r.deep_view() == self.deep_view(),
    {
        match self {
            TransformType::Translation { from, to } => TransformType::Translation {
                from: from.clone(),
                to: to.clone(),
            },
            TransformType::NumberFormat => TransformType::NumberFormat,
            TransformType::DateFormat => TransformType::DateFormat,
            TransformType::JsonPretty => TransformType::JsonPretty,
            TransformType::CsvToMarkdown => TransformType::CsvToMarkdown,
            TransformType::Summary => TransformType::Summary,
            TransformType::ToneAdjustment { tone } => TransformType::ToneAdjustment {
                tone: tone.clone(),
            },
        }
    }
}

impl Clone for Transformation {
    fn clone(&self) -> (r: Self)
        ensures
            r.deep_view() == self.deep_view(),
    {
        Transformation {
            transform_type: self.transform_type.clone(),
            result: self.result.clone(),
            timestamp: self.timestamp,
        }
    }
}

impl Clone for ClipItem {
    fn clone(&self) -> (r: Self)
        ensures
            r.deep_view() == self.deep_view(),
    {
        let r = ClipItem {
            id: self.id.clone(),
            content: self.content.clone(),
            content_type: self.content_type,
            timestamp: self.timestamp,
            device_id: self.device_id.clone(),
            tags: self.tags.clone(),
            transformations: self.transformations.clone(),
        };
        proof {
            assert(r.tags.deep_view() =~= self.tags.deep_view());
            assert(r.transformations.deep_view() =~= self.transformations.deep_view());
        }
        r
    }
}

// ---------------------------------------------------------------------------
// The classifier.
// ---------------------------------------------------------------------------
/// Every character of `s` is a decimal digit.
pub open spec fn all_digits(s: Seq<char>) -> bool {
    forall|i: int| 0 <= i < s.len() ==> is_digit(s[i])
}

/// `s` without one leading `+` or `-`.
pub open spec fn strip_sign(s: Seq<char>) -> Seq<char> {
    if s.len() > 0 && (s[0] == '+' || s[0] == '-') {
        s.skip(1)
    } else {
        s
    }
}

/// `c` is `lo` or its upper-case form `up`.
pub open spec fn ci(c: char, lo: char, up: char) -> bool {
    c == lo || c == up
}

pub open spec fn is_inf_text(s: Seq<char>) -> bool {
    s.len() == 3 && ci(s[0], 'i', 'I') && ci(s[1], 'n', 'N') && ci(s[2], 'f', 'F')
}

pub open spec fn is_infinity_text(s: Seq<char>) -> bool {
    s.len() == 8 && ci(s[0], 'i', 'I') && ci(s[1], 'n', 'N') && ci(s[2], 'f', 'F') && ci(
        s[3],
        'i',
        'I',
    ) && ci(s[4], 'n', 'N') && ci(s[5], 'i', 'I') && ci(s[6], 't', 'T') && ci(s[7], 'y', 'Y')
}

pub open spec fn is_nan_text(s: Seq<char>) -> bool {
    s.len() == 3 && ci(s[0], 'n', 'N') && ci(s[1], 'a', 'A') && ci(s[2], 'n', 'N')
}

/// Digits with at most one `.` and at least one digit.
pub open spec fn is_digits_dot(s: Seq<char>) -> bool {
    (s.len() > 0 && all_digits(s)) || (s.len() >= 2 && exists|k: int|
        0 <= k < s.len() && s[k] == '.' && all_digits(s.take(k)) && all_digits(s.skip(k + 1)))
}

/// An exponent suffix: optional sign, then at least one digit.
pub open spec fn is_exp_text(s: Seq<char>) -> bool {
    strip_sign(s).len() > 0 && all_digits(strip_sign(s))
}

/// A number body: digits with at most one dot, optionally followed by
/// `e`/`E` and an exponent.
pub open spec fn is_float_body(s: Seq<char>) -> bool {
    is_digits_dot(s) || (exists|k: int|
        0 <= k < s.len() && (s[k] == 'e' || s[k] == 'E') && is_digits_dot(s.take(k))
            && is_exp_text(s.skip(k + 1)))
}

/// The grammar `f64::from_str` accepts: an optional sign, then `inf`,
/// `infinity` or `nan` in any letter case, or a digit string with at most
/// one `.` and at least one digit, optionally followed by an exponent.
pub open spec fn is_number_literal(s: Seq<char>) -> bool {
    let b = strip_sign(s);
    is_inf_text(b) || is_infinity_text(b) || is_nan_text(b) || is_float_body(b)
}

/// Trimmed text starting with `http://` or `https://`.
pub open spec fn is_url_text(t: Seq<char>) -> bool {
    (t.len() >= 7 && t[0] == 'h' && t[1] == 't' && t[2] == 't' && t[3] == 'p' && t[4] == ':'
        && t[5] == '/' && t[6] == '/') || (t.len() >= 8 && t[0] == 'h' && t[1] == 't' && t[2]
        == 't' && t[3] == 'p' && t[4] == 's' && t[5] == ':' && t[6] == '/' && t[7] == '/')
}

/// Contains `@` and `.` and no whitespace at all.
pub open spec fn is_email_text(t: Seq<char>) -> bool {
    t.contains('@') && t.contains('.') && !(exists|i: int| 0 <= i < t.len() && is_ws(t[i]))
}

/// Enclosed in matching `{}` or `[]` at both ends (shape only).
pub open spec fn is_json_text(t: Seq<char>) -> bool {
    t.len() > 0 && ((t[0] == '{' && t[t.len() - 1] == '}') || (t[0] == '[' && t[t.len() - 1]
        == ']'))
}

/// More than one line and a comma. On trimmed text a newline can only be an
/// inner character, so "more than one line" is exactly "contains a newline".
pub open spec fn is_csv_text(t: Seq<char>) -> bool {
    t.contains('\n') && t.contains(',')
}

/// The classification rules, evaluated in order on the trimmed content;
/// the first match wins.
pub open spec fn classify_spec(content: Seq<char>) -> ContentType {
    let t = trim_spec(content);
    if is_url_text(t) {
        ContentType::Url
    } else if is_email_text(t) {
        ContentType::Email
    } else if is_number_literal(t) {
        ContentType::Number
    } else if is_json_text(t) {
        ContentType::Json
    } else if is_csv_text(t) {
        ContentType::Csv
    } else {
        ContentType::Text
    }
}

/// No dot split of `s` works if some character is neither a digit nor a dot.
pub(crate) proof fn lemma_bad_char(s: Seq<char>, p: int)
    requires
        0 <= p < s.len(),
        !is_digit(s[p]),
        s[p] != '.',
    ensures
        !is_digits_dot(s),
{
    assert(!all_digits(s));
    assert forall|k: int|
        0 <= k < s.len() && s[k] == '.' implies !(all_digits(s.take(k)) && all_digits(
        s.skip(k + 1),
    )) by {
        if p < k {
            assert(s.take(k)[p] == s[p]);
        } else {
            assert(p > k);
            assert(s.skip(k + 1)[p - k - 1] == s[p]);
        }
    }
}

/// No dot split of `s` works if `s` holds two dots.
pub(crate) proof fn lemma_two_dots(s: Seq<char>, p: int, q: int)
    requires
        0 <= p < q < s.len(),
        s[p] == '.',
        s[q] == '.',
    ensures
        !is_digits_dot(s),
{
    assert(!is_digit(s[p]));
    assert(!all_digits(s));
    assert forall|k: int|
        0 <= k < s.len() && s[k] == '.' implies !(all_digits(s.take(k)) && all_digits(
        s.skip(k + 1),
    )) by {
        if k < q {
            assert(s.skip(k + 1)[q - k - 1] == s[q]);
            assert(!is_digit(s[q]));
        } else {
            assert(p < k);
            assert(s.take(k)[p] == s[p]);
        }
    }
}

/// Recognizer for the number body (after the optional leading sign).
fn is_number_body(s: &Vec<char>) -> (r: bool)
    ensures
        r == (is_inf_text(s@) || is_infinity_text(s@) || is_nan_text(s@) || is_float_body(s@)),
{
    let n: usize = s.len();
    if n == 3 {
        if ((s[0] == 'i' || s[0] == 'I') && (s[1] == 'n' || s[1] == 'N') && (s[2] == 'f' || s[2]
            == 'F')) || ((s[0] == 'n' || s[0] == 'N') && (s[1] == 'a' || s[1] == 'A') && (s[2]
            == 'n' || s[2] == 'N')) {
            return true;
        }
    }
    if n == 8 {
        if (s[0] == 'i' || s[0] == 'I') && (s[1] == 'n' || s[1] == 'N') && (s[2] == 'f' || s[2]
            == 'F') && (s[3] == 'i' || s[3] == 'I') && (s[4] == 'n' || s[4] == 'N') && (s[5]
            == 'i' || s[5] == 'I') && (s[6] == 't' || s[6] == 'T') && (s[7] == 'y' || s[7]
            == 'Y') {
            return true;
        }
    }
    // scan the maximal `digits [ '.' digits ]` prefix
    let mut j: usize = 0;
    while j < n && is_digit_char(s[j])
        invariant
            j <= n,
            n == s@.len(),
            forall|i: int| 0 <= i < j ==> is_digit(s@[i]),
        decreases n - j,
    {
        j += 1;
    }
    let mut pos: usize = j;
    let mut ndigits: usize = j;
    let has_dot: bool = j < n && s[j] == '.';
    if has_dot {
        let mut k: usize = j + 1;
        while k < n && is_digit_char(s[k])
            invariant
                j + 1 <= k <= n,
                n == s@.len(),
                forall|i: int| j < i < k ==> is_digit(s@[i]),
            decreases n - k,
        {
            k += 1;
        }
        pos = k;
        ndigits = j + (k - j - 1);
    }
    // ghost shape facts: digits on [0, j), a dot at j if has_dot,
    // digits on (j, pos), and s[pos] neither a digit nor a first dot.
    if ndigits == 0 {
        // no digit at all: "" , "." , ".x..." , "x..."
        proof {
            if s@.len() > 0 {
                if has_dot {
                    // s[0] == '.', and s[1] (if any) is not a digit
                    assert(j == 0 && pos == 1);
                    lemma_no_body_without_digit(s@);
                } else {
                    assert(j == 0 && pos == 0);
                    lemma_no_body_without_digit(s@);
                }
            }
        }
        return false;
    }
    if pos == n {
        proof {
            if has_dot {
                assert(is_digits_dot(s@)) by {
                    assert(s@[j as int] == '.');
                    assert(forall|i: int|
                        0 <= i < j ==> is_digit(#[trigger] s@.take(j as int)[i]));
                    assert(forall|i: int|
                        0 <= i < s@.skip(j + 1).len() ==> is_digit(
                            #[trigger] s@.skip(j + 1)[i],
                        ));
                }
            } else {
                assert(is_digits_dot(s@));
            }
        }
        return true;
    }
    // a character stops the scan
    if s[pos] == 'e' || s[pos] == 'E' {
        let mut p: usize = pos + 1;
        if p < n && (s[p] == '+' || s[p] == '-') {
            p += 1;
        }
        let ghost exp = s@.skip(pos + 1);
        proof {
            assert(strip_sign(exp) =~= s@.skip(p as int));
        }
        if p == n {
            proof {
                lemma_reject_after_prefix(s@, j as int, pos as int, has_dot);
            }
            return false;
        }
        let mut q: usize = p;
        while q < n && is_digit_char(s[q])
            invariant
                p <= q <= n,
                n == s@.len(),
                forall|i: int| p <= i < q ==> is_digit(s@[i]),
            decreases n - q,
        {
            q += 1;
        }
        if q == n {
            proof {
                // witness the exponent split at `pos`
                assert(is_exp_text(exp)) by {
                    assert(forall|i: int|
                        0 <= i < s@.skip(p as int).len() ==> is_digit(
                            #[trigger] s@.skip(p as int)[i],
                        ));
                }
                assert(is_digits_dot(s@.take(pos as int))) by {
                    lemma_prefix_is_digits_dot(s@, j as int, pos as int, has_dot, ndigits as int);
                }
                assert(is_float_body(s@));
            }
            return true;
        } else {
            proof {
                lemma_reject_after_prefix(s@, j as int, pos as int, has_dot);
                // the split at `pos` itself fails: non-digit inside the exponent
                assert(!is_exp_text(exp)) by {
                    assert(strip_sign(exp)[q - p] == s@[q as int]);
                }
            }
            return false;
        }
    }
    proof {
        lemma_reject_after_prefix(s@, j as int, pos as int, has_dot);
        // the character at `pos` is not `e`/`E`, so no split at `pos` either
    }
    false
}

/// If `s` holds no digit before its first defect, it is no number body.
pub(crate) proof fn lemma_no_body_without_digit(s: Seq<char>)
    requires
        s.len() > 0,
        !is_digit(s[0]),
        s[0] == '.' ==> s.len() == 1 || !is_digit(s[1]),
    ensures
        !is_float_body(s),
{
    if s[0] != '.' {
        lemma_bad_char(s, 0);
        assert forall|k: int|
            0 <= k < s.len() && (s[k] == 'e' || s[k] == 'E') implies !is_digits_dot(
            s.take(k),
        ) by {
            if k > 0 {
                lemma_bad_char(s.take(k), 0);
            }
        }
    } else {
        // s = "." or "." followed by a non-digit
        assert(!is_digits_dot(s)) by {
            if s.len() >= 2 {
                if s[1] == '.' {
                    lemma_two_dots(s, 0, 1);
                } else {
                    assert forall|k: int|
                        0 <= k < s.len() && s[k] == '.' implies !(all_digits(s.take(k))
                        && all_digits(s.skip(k + 1))) by {
                        if k == 0 {
                            assert(s.skip(1)[0] == s[1]);
                        } else {
                            assert(s.take(k)[0] == s[0]);
                            assert(!is_digit(s[0]));
                        }
                    }
                }
            }
        }
        assert forall|k: int|
            0 <= k < s.len() && (s[k] == 'e' || s[k] == 'E') implies !is_digits_dot(
            s.take(k),
        ) by {
            if k == 1 {
                assert(s.take(1).len() == 1 && s.take(1)[0] == '.');
            } else if k >= 2 {
                if s[1] == '.' {
                    lemma_two_dots(s.take(k), 0, 1);
                } else {
                    lemma_bad_char(s.take(k), 1);
                }
            }
        }
    }
}

/// The scanned `digits [ '.' digits ]` prefix of length `pos` (with at least
/// one digit) satisfies `is_digits_dot`.
pub(crate) proof fn lemma_prefix_is_digits_dot(s: Seq<char>, j: int, pos: int, has_dot: bool, ndigits: int)
    requires
        0 <= j <= pos <= s.len(),
        forall|i: int| 0 <= i < j ==> is_digit(s[i]),
        has_dot ==> j < pos && s[j] == '.' && (forall|i: int| j < i < pos ==> is_digit(s[i])),
        !has_dot ==> pos == j,
        ndigits == if has_dot {
            pos - 1
        } else {
            pos
        },
        ndigits > 0,
    ensures
        is_digits_dot(s.take(pos)),
{
    let t = s.take(pos);
    if has_dot {
        assert(t[j] == '.');
        assert(forall|i: int| 0 <= i < j ==> is_digit(#[trigger] t.take(j)[i]));
        assert(forall|i: int|
            0 <= i < t.skip(j + 1).len() ==> is_digit(#[trigger] t.skip(j + 1)[i]));
        assert(t.len() >= 2);
    } else {
        assert(forall|i: int| 0 <= i < t.len() ==> is_digit(#[trigger] t[i]));
    }
}

/// After a maximal `digits [ '.' digits ]` prefix ending at `pos < s.len()`,
/// where the character at `pos` neither extends the prefix nor is `e`/`E`
/// handled separately, no whole-string reading and no split strictly after
/// `pos` can succeed.
pub(crate) proof fn lemma_reject_after_prefix(s: Seq<char>, j: int, pos: int, has_dot: bool)
    requires
        0 <= j <= pos < s.len(),
        forall|i: int| 0 <= i < j ==> is_digit(s[i]),
        has_dot ==> j < pos && s[j] == '.' && (forall|i: int| j < i < pos ==> is_digit(s[i])),
        !has_dot ==> pos == j && s[pos] != '.',
        !is_digit(s[pos]),
    ensures
        !is_digits_dot(s),
        forall|k: int|
            pos < k < s.len() && (s[k] == 'e' || s[k] == 'E') ==> !is_digits_dot(s.take(k)),
        forall|k: int| 0 <= k < pos ==> !(s[k] == 'e' || s[k] == 'E'),
{
    if has_dot && s[pos] == '.' {
        lemma_two_dots(s, j, pos);
    } else {
        lemma_bad_char(s, pos);
    }
    assert forall|k: int|
        pos < k < s.len() && (s[k] == 'e' || s[k] == 'E') implies !is_digits_dot(s.take(k)) by {
        if has_dot && s[pos] == '.' {
            lemma_two_dots(s.take(k), j, pos);
        } else {
            lemma_bad_char(s.take(k), pos);
        }
    }
    assert forall|k: int| 0 <= k < pos implies !(s[k] == 'e' || s[k] == 'E') by {
        if k < j {
            assert(is_digit(s[k]));
        } else if has_dot && k == j {
        } else {
            assert(is_digit(s[k]));
        }
    }
}

/// Whether the whole text parses as a floating-point number, per
/// `is_number_literal`.
pub fn is_number_text(t: &Vec<char>) -> (r: bool)
    ensures
        r == is_number_literal(t@),
{
    let n: usize = t.len();
    let off: usize = if n > 0 && (t[0] == '+' || t[0] == '-') {
        1
    } else {
        0
    };
    let mut body: Vec<char> = Vec::new();
    let mut i: usize = off;
    while i < n
        invariant
            off <= i <= n,
            n == t@.len(),
            body@ == t@.subrange(off as int, i as int),
        decreases n - i,
    {
        body.push(t[i]);
        assert(body@ =~= t@.subrange(off as int, i + 1));
        i += 1;
    }
    proof {
        assert(body@ =~= strip_sign(t@));
    }
    is_number_body(&body)
}

/// Map raw text to its content tag: Url, then Email, then Number, then Json
/// shape, then Csv shape, else plain Text; the first rule that matches wins.
pub fn detect_content_type(content: &str) -> (r: ContentType)
    ensures
        r == classify_spec(content@),
{
    let chars = chars_vec(content);
    let t = trim_chars(&chars);
    let n: usize = t.len();
    // URL
    if n >= 7 && *t.get(0).unwrap() == 'h' {
        let url7 = t[0] == 'h' && t[1] == 't' && t[2] == 't' && t[3] == 'p' && t[4] == ':'
            && t[5] == '/' && t[6] == '/';
        let url8 = n >= 8 && t[0] == 'h' && t[1] == 't' && t[2] == 't' && t[3] == 'p' && t[4]
            == 's' && t[5] == ':' && t[6] == '/' && t[7] == '/';
        if url7 || url8 {
            return ContentType::Url;
        }
    }
    assert(!is_url_text(t@));
    if contains_char(&t, '@') && contains_char(&t, '.') && !contains_ws(&t) {
        return ContentType::Email;
    }
    if is_number_text(&t) {
        return ContentType::Number;
    }
    if n > 0 && ((t[0] == '{' && t[n - 1] == '}') || (t[0] == '[' && t[n - 1] == ']')) {
        return ContentType::Json;
    }
    if contains_char(&t, '\n') && contains_char(&t, ',') {
        return ContentType::Csv;
    }
    ContentType::Text
}

/// Relies on `uuid::Uuid::new_v4` and its `Display` form: a fresh random
/// identifier rendered as 36 characters in five groups of 8, 4, 4, 4 and 12
/// hexadecimal digits separated by `-`; the first `-` sits at index 8.
#[verifier::external_body]
pub(crate) fn fresh_id() -> (r: String)
    ensures
        r@.len() == 36,
        r@[8] == '-',
        forall|i: int| 0 <= i < 8 ==> r@[i] != '-',
{
    uuid::Uuid::new_v4().to_string()
}

/// Relies on `chrono::Utc::now` and `DateTime::timestamp_millis`: the current
/// wall-clock time in milliseconds since the Unix epoch. Nothing is assumed
/// about the value.
#[verifier::external_body]
pub(crate) fn now_millis() -> i64 {
    chrono::Utc::now().timestamp_millis()
}

impl ClipItem {
    /// A fresh item for `content`: a new random id, the content's
    /// classification, the capture time, no tags and no transformations.
    pub fn new(content: String, device_id: String) -> (r: ClipItem)
        ensures
            r.content@ == content@,
            r.content_type == classify_spec(content@),
            r.device_id@ == device_id@,
            r.tags@.len() == 0,
            r.transformations@.len() == 0,
            r.id@.len() == 36,
    {
        let content_type = detect_content_type(content.as_str());
        ClipItem {
            id: fresh_id(),
            content,
            content_type,
            timestamp: now_millis(),
            device_id,
            tags: Vec::new(),
            transformations: Vec::new(),
        }
    }
}


/// Law: classification is deterministic — equal contents always yield the
/// same tag. Together with `detect_content_type`'s contract, the classifier
/// is a total function of the text alone.
pub proof fn lemma_classify_deterministic(a: Seq<char>, b: Seq<char>)
    requires
        a == b,
    ensures
        classify_spec(a) == classify_spec(b),
{
}

} // verus!
