//! The text transformer: a cleaned copy of the content, with every line
//! trimmed, blank lines dropped, and the remaining lines joined by single
//! newlines.

use vstd::prelude::*;

use crate::clip_item::{ClipItem, ContentType, TransformKindModel, TransformType};
use crate::text::{
    chars_vec, find_char, is_ws, is_ws_char, lemma_find_char, lemma_trim_parts, string_of,
    trim_spec,
};
use crate::transforms::TransformError;
use vstd::string::StringExecFns;

verus! {

/// The text split at every newline (the separators removed).
pub open spec fn split_lines(s: Seq<char>) -> Seq<Seq<char>>
    decreases s.len(),
    via split_lines_dec
{
    let k = find_char(s, '\n');
    if k == s.len() {
        seq![s]
    } else {
        seq![s.take(k)] + split_lines(s.skip(k + 1))
    }
}

#[via_fn]
proof fn split_lines_dec(s: Seq<char>) {
    lemma_find_char(s, '\n');
}

/// Each line trimmed, the blank ones dropped.
pub open spec fn clean_lines(ls: Seq<Seq<char>>) -> Seq<Seq<char>>
    decreases ls.len(),
{
    if ls.len() == 0 {
        Seq::empty()
    } else {
        let h = trim_spec(ls[0]);
        let rest = clean_lines(ls.skip(1));
        if h.len() > 0 {
            seq![h] + rest
        } else {
            rest
        }
    }
}

/// The lines joined by single newlines.
pub open spec fn join_lines(ls: Seq<Seq<char>>) -> Seq<char>
    decreases ls.len(),
{
    if ls.len() == 0 {
        Seq::empty()
    } else if ls.len() == 1 {
        ls[0]
    } else {
        ls[0] + seq!['\n'] + join_lines(ls.skip(1))
    }
}

/// The cleaned form of a text: every line trimmed, blank lines dropped,
/// what remains joined by single newlines.
pub open spec fn clean_spec(s: Seq<char>) -> Seq<char> {
    join_lines(clean_lines(split_lines(s)))
}

proof fn lemma_join_head_len(ls: Seq<Seq<char>>)
    requires
        ls.len() > 0,
    ensures
        join_lines(ls).len() >= ls[0].len(),
    decreases ls.len(),
{
    if ls.len() > 1 {
        lemma_join_head_len(ls.skip(1));
    }
}

/// Every line kept by `clean_lines` is nonempty.
proof fn lemma_clean_lines_nonempty(ls: Seq<Seq<char>>)
    ensures
        forall|i: int| 0 <= i < clean_lines(ls).len() ==> #[trigger] clean_lines(ls)[i].len()
            > 0,
    decreases ls.len(),
{
    if ls.len() > 0 {
        lemma_clean_lines_nonempty(ls.skip(1));
        let h = trim_spec(ls[0]);
        let rest = clean_lines(ls.skip(1));
        if h.len() > 0 {
            assert forall|i: int|
                0 <= i < clean_lines(ls).len() implies #[trigger] clean_lines(ls)[i].len()
                > 0 by {
                assert(clean_lines(ls) == seq![h] + rest);
                if i > 0 {
                    assert((seq![h] + rest)[i] == rest[i - 1]);
                }
            }
        }
    }
}

/// Cleaning the text from position `i` on.
#[verifier::rlimit(100)]
fn clean_from(s: &Vec<char>, i: usize) -> (r: Vec<char>)
    requires
        i <= s@.len(),
    ensures
        r@ == clean_spec(s@.skip(i as int)),
    decreases s@.len() - i,
{
    let ghost tail = s@.skip(i as int);
    let n: usize = s.len();
    let mut j: usize = i;
    while j < n && s[j] != '\n'
        invariant
            i <= j <= n,
            n == s@.len(),
            forall|p: int| i <= p < j ==> s@[p] != '\n',
        decreases n - j,
    {
        j += 1;
    }
    proof {
        lemma_find_char(tail, '\n');
        if find_char(tail, '\n') < j - i {
            assert(tail[find_char(tail, '\n')] == s@[i + find_char(tail, '\n')]);
        }
        if j < n && find_char(tail, '\n') > j - i {
            assert(tail[j - i] == s@[j as int]);
        }
        assert(find_char(tail, '\n') == j - i);
    }
    let ghost line = tail.take(j - i);
    // trim the current line in place
    let mut t0: usize = i;
    while t0 < j && is_ws_char(s[t0])
        invariant
            i <= t0 <= j <= n,
            n == s@.len(),
            forall|p: int| i <= p < t0 ==> is_ws(s@[p]),
        decreases j - t0,
    {
        t0 += 1;
    }
    let mut t1: usize = j;
    while t1 > t0 && is_ws_char(s[t1 - 1])
        invariant
            t0 <= t1 <= j <= n,
            n == s@.len(),
            forall|p: int| t1 <= p < j ==> is_ws(s@[p]),
        decreases t1,
    {
        t1 -= 1;
    }
    proof {
        assert(line.len() == j - i);
        assert forall|p: int| 0 <= p < t0 - i implies is_ws(line[p]) by {
            assert(line[p] == s@[i + p]);
        }
        assert forall|p: int| t1 - i <= p < line.len() implies is_ws(line[p]) by {
            assert(line[p] == s@[i + p]);
        }
        if t0 < j {
            assert(line[t0 - i] == s@[t0 as int]);
        }
        if t1 > t0 {
            assert(line[t1 - i - 1] == s@[t1 - 1]);
        }
        lemma_trim_parts(line, t0 - i, t1 - i);
        assert(line.subrange(t0 - i, t1 - i) =~= s@.subrange(t0 as int, t1 as int));
    }
    let mut cur: Vec<char> = Vec::new();
    let mut p: usize = t0;
    while p < t1
        invariant
            t0 <= p <= t1 <= n,
            n == s@.len(),
            cur@ == s@.subrange(t0 as int, p as int),
        decreases t1 - p,
    {
        cur.push(s[p]);
        assert(cur@ =~= s@.subrange(t0 as int, p + 1));
        p += 1;
    }
    let ghost lt = trim_spec(line);
    proof {
        assert(cur@ == lt);
    }
    if j == n {
        proof {
            assert(split_lines(tail) =~= seq![tail]);
            assert(line =~= tail);
            let ls = seq![tail];
            assert(ls.skip(1) =~= Seq::<Seq<char>>::empty());
            assert(clean_lines(ls.skip(1)) =~= Seq::<Seq<char>>::empty());
            if lt.len() > 0 {
                assert(clean_lines(ls) =~= seq![lt]);
                assert(clean_spec(tail) == lt);
            } else {
                assert(clean_lines(ls) =~= Seq::<Seq<char>>::empty());
                assert(clean_spec(tail) =~= Seq::<char>::empty());
            }
        }
        cur
    } else {
        let mut rest = clean_from(s, j + 1);
        let ghost tail2 = s@.skip(j + 1);
        let ghost clrest = clean_lines(split_lines(tail2));
        proof {
            assert(tail.skip(j - i + 1) =~= tail2);
            let ls = split_lines(tail);
            assert(ls =~= seq![line] + split_lines(tail2));
            assert(ls[0] == line);
            assert(ls.skip(1) =~= split_lines(tail2));
            if lt.len() > 0 {
                assert(clean_lines(ls) =~= seq![lt] + clrest);
            } else {
                assert(clean_lines(ls) =~= clrest);
            }
        }
        if cur.len() == 0 {
            rest
        } else if rest.len() == 0 {
            proof {
                if clrest.len() > 0 {
                    lemma_clean_lines_nonempty(split_lines(tail2));
                    lemma_join_head_len(clrest);
                }
                assert(clrest.len() == 0);
                assert(clean_lines(split_lines(tail)) =~= seq![lt]);
            }
            cur
        } else {
            proof {
                let whole = clean_lines(split_lines(tail));
                assert(whole =~= seq![lt] + clrest);
                assert(whole.len() > 1);
                assert(whole[0] == lt);
                assert(whole.skip(1) =~= clrest);
            }
            cur.push('\n');
            cur.append(&mut rest);
            proof {
                assert(cur@ =~= lt + seq!['\n'] + clean_spec(tail2));
            }
            cur
        }
    }
}

/// Cleans whitespace-heavy text; applies to plain text, emails and URLs.
pub struct TextTransformer;

impl TextTransformer {
    pub fn new() -> (r: Self) {
        TextTransformer
    }
}

impl crate::transforms::Transform for TextTransformer {
    /// The cleaner's rule applies to plain text, emails and URLs.
    open spec fn spec_eligible(&self, item: &ClipItem) -> bool {
        item.content_type == ContentType::Text || item.content_type == ContentType::Email
            || item.content_type == ContentType::Url
    }

    /// Cleaning never fails; the output is the cleaned content.
    open spec fn spec_output(&self, content: Seq<char>) -> Option<Seq<char>> {
        Some(clean_spec(content))
    }

    /// A cosmetic tone adjustment.
    open spec fn spec_kind(&self) -> TransformKindModel {
        TransformKindModel::ToneAdjustment { tone: "cleaned"@ }
    }

    fn can_transform(&self, item: &ClipItem) -> (r: bool) {
        matches!(
            item.content_type,
            ContentType::Text | ContentType::Email | ContentType::Url
        )
    }

    fn transform_type(&self) -> (r: TransformType) {
        TransformType::ToneAdjustment { tone: String::from_str("cleaned") }
    }

    fn transform(&self, content: &str) -> (r: Result<String, TransformError>) {
        let chars = chars_vec(content);
        let cleaned = clean_from(&chars, 0);
        proof {
            assert(chars@.skip(0) =~= chars@);
        }
        Ok(string_of(&cleaned))
    }
}

} // verus!
