//! The command surface's data types and its one piece of real logic: the
//! single-line preview of an item's content. Argument parsing and printing
//! happen outside this crate; they hand the parsed command in as plain
//! values.

use vstd::prelude::*;

use crate::text::{chars_vec, string_of};

verus! {

/// How many characters of content a list line shows before truncating.
pub const PREVIEW_LEN: usize = 50;

/// A parsed invocation: an optional subcommand (none means `monitor`).
pub struct Cli {
    pub command: Option<Commands>,
}

/// The subcommands the tool answers.
pub enum Commands {
    /// Run the clipboard monitoring loop until interrupted.
    Monitor,
    /// Print the most recent items, `limit` many.
    List { limit: usize },
    /// Print the items whose content matches a query.
    Search { query: String },
    /// Print one item in full detail.
    Show { id: String },
}

/// Newlines collapsed to spaces.
pub open spec fn collapse_newlines(s: Seq<char>) -> Seq<char> {
    Seq::new(s.len(), |i: int| if s[i] == '\n' { ' ' } else { s[i] })
}

/// The single-line preview of a content string: at most `PREVIEW_LEN`
/// characters, an ellipsis when truncated, and newlines collapsed to
/// spaces.
pub open spec fn preview_spec(s: Seq<char>) -> Seq<char> {
    if s.len() > PREVIEW_LEN {
        collapse_newlines(s.take(PREVIEW_LEN as int)) + seq!['.', '.', '.']
    } else {
        collapse_newlines(s)
    }
}

/// The preview line for `content`, per `preview_spec`.
pub fn preview_line(content: &str) -> (r: String)
    ensures
        r@ == preview_spec(content@),
{
    let chars = chars_vec(content);
    let n: usize = chars.len();
    let count: usize = if n > PREVIEW_LEN {
        PREVIEW_LEN
    } else {
        n
    };
    let mut out: Vec<char> = Vec::new();
    let mut i: usize = 0;
    while i < count
        invariant
            i <= count <= n,
            n == chars@.len(),
            out@ == collapse_newlines(chars@.take(count as int)).take(i as int),
        decreases count - i,
    {
        let c = chars[i];
        out.push(if c == '\n' {
            ' '
        } else {
            c
        });
        assert(out@ =~= collapse_newlines(chars@.take(count as int)).take(i + 1));
        i += 1;
    }
    proof {
        assert(collapse_newlines(chars@.take(count as int)).take(count as int)
            =~= collapse_newlines(chars@.take(count as int)));
    }
    if n > PREVIEW_LEN {
        out.push('.');
        out.push('.');
        out.push('.');
        proof {
            assert(out@ =~= collapse_newlines(chars@.take(PREVIEW_LEN as int)) + seq![
                '.',
                '.',
                '.',
            ]);
        }
    } else {
        proof {
            assert(chars@.take(count as int) =~= chars@);
        }
    }
    string_of(&out)
}

} // verus!
