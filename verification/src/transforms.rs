//! The transform engine: runs every registered transformer against an item
//! in fixed registration order; each transformer decides its own
//! eligibility from the item's content tag, and a failing transformer is
//! skipped without aborting the rest or the caller.

use vstd::prelude::*;

use crate::clip_item::{
    now_millis, ClipItem, ContentType, Transformation, TransformationModel, TransformKindModel,
    TransformType,
};
use crate::number_format::{number_format_ok, number_format_spec, NumberFormatter};
use crate::text_transform::{clean_spec, TextTransformer};

verus! {

/// Why a single transformer declined to produce a result.
#[derive(Debug, Clone, Copy, PartialEq, Eq, Structural)]
pub enum TransformError {
    /// The text is not a plain decimal the number formatter can render.
    InvalidNumber,
}

/// A content transformer: decides its own eligibility from an item's tag
/// and turns content into a derived text, or fails. Each implementation
/// fixes the three spec functions, and its executable methods are held to
/// them.
pub trait Transform {
    /// Whether this transformer's rule applies to the item.
    spec fn spec_eligible(&self, item: &ClipItem) -> bool;

    /// The result for a content; `None` where the transform fails.
    spec fn spec_output(&self, content: Seq<char>) -> Option<Seq<char>>;

    /// The tag this transformer writes on its results.
    spec fn spec_kind(&self) -> TransformKindModel;

    fn can_transform(&self, item: &ClipItem) -> (r: bool)
        ensures
            r == self.spec_eligible(item),
    ;

    fn transform(&self, content: &str) -> (r: Result<String, TransformError>)
        ensures
            r is Ok <==> self.spec_output(content@) is Some,
            r matches Ok(out) ==> Some(out@) == self.spec_output(content@),
    ;

    fn transform_type(&self) -> (r: TransformType)
        ensures
            r.deep_view() == self.spec_kind(),
    ;
}

/// What a transformation record says apart from its capture time: the tag
/// of the transform that produced it and the resulting text.
pub open spec fn note_of(t: TransformationModel) -> (TransformKindModel, Seq<char>) {
    (t.transform_type, t.result)
}

/// The notes the engine appends to an item with tag `ct` and text
/// `content`: the number formatter's rendering where it applies and
/// succeeds, then the text cleaner's result where it applies; registration
/// order is fixed.
pub open spec fn engine_notes(ct: ContentType, content: Seq<char>) -> Seq<
    (TransformKindModel, Seq<char>),
> {
    let num: Seq<(TransformKindModel, Seq<char>)> = if ct == ContentType::Number
        && number_format_ok(content) {
        seq![(TransformKindModel::NumberFormat, number_format_spec(content))]
    } else {
        Seq::empty()
    };
    let txt: Seq<(TransformKindModel, Seq<char>)> = if ct == ContentType::Text || ct
        == ContentType::Email || ct == ContentType::Url {
        seq![
            (
                TransformKindModel::ToneAdjustment { tone: "cleaned"@ },
                clean_spec(content),
            ),
        ]
    } else {
        Seq::empty()
    };
    num + txt
}

/// The built-in transformers, in registration order.
pub struct TransformEngine {
    number: NumberFormatter,
    text: TextTransformer,
}

impl TransformEngine {
    pub fn new() -> (r: Self) {
        TransformEngine { number: NumberFormatter::new(), text: TextTransformer::new() }
    }

    /// Run every transformer over the item in registration order. Each
    /// eligible transformer that succeeds appends exactly one
    /// transformation; a failure is skipped. Everything else about the
    /// item, and every transformation already present, stays as it was.
    pub fn apply_smart_transforms(&self, item: &mut ClipItem)
        ensures
            final(item).id == old(item).id,
            final(item).content == old(item).content,
            final(item).content_type == old(item).content_type,
            final(item).timestamp == old(item).timestamp,
            final(item).device_id == old(item).device_id,
            final(item).tags == old(item).tags,
            final(item).transformations@.len() == old(item).transformations@.len()
                + engine_notes(old(item).content_type, old(item).content@).len(),
            forall|i: int|
                0 <= i < old(item).transformations@.len()
                    ==> #[trigger] final(item).transformations@[i]
                    == old(item).transformations@[i],
            forall|i: int|
                0 <= i < engine_notes(old(item).content_type, old(item).content@).len()
                    ==> note_of(#[trigger] final(item).transformations@[old(
                    item,
                ).transformations@.len() + i].deep_view()) == engine_notes(
                    old(item).content_type,
                    old(item).content@,
                )[i],
    {
        if self.number.can_transform(item) {
            match self.number.transform(item.content.as_str()) {
                Ok(result) => {
                    let record = Transformation {
                        transform_type: self.number.transform_type(),
                        result,
                        timestamp: now_millis(),
                    };
                    item.transformations.push(record);
                },
                Err(_) => {
                    // a failed transform is skipped, never fatal
                },
            }
        }
        if self.text.can_transform(item) {
            match self.text.transform(item.content.as_str()) {
                Ok(result) => {
                    let record = Transformation {
                        transform_type: self.text.transform_type(),
                        result,
                        timestamp: now_millis(),
                    };
                    item.transformations.push(record);
                },
                Err(_) => {},
            }
        }
    }
}

} // verus!
