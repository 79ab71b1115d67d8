//! The history store: a bounded, ordered, queryable record of captured
//! items, most-recent-first, capped at `HISTORY_CAP` entries.
//!
//! The store itself is the in-memory document; reading the backing file at
//! startup and writing it back after a commit are the caller's part, done
//! outside this crate with the plain `StorageData` value.

use vstd::prelude::*;

use crate::clip_item::{now_millis, ClipItem, ItemModel};
use crate::text::str_eq;

verus! {

/// Retention cap: how many items the history keeps before the oldest are
/// dropped.
pub const HISTORY_CAP: usize = 1000;

/// The persisted document: the items, most-recent-first, and the time of
/// the last successful update.
#[derive(Debug)]
pub struct StorageData {
    pub items: Vec<ClipItem>,
    pub last_updated: i64,
}

/// The in-memory history store.
#[derive(Debug)]
pub struct Storage {
    pub data: StorageData,
}

/// One commit, mathematically: the new item prepended, then the sequence
/// cut back to the cap.
pub open spec fn store_model(items: Seq<ItemModel>, it: ItemModel) -> Seq<ItemModel> {
    let full = seq![it] + items;
    if full.len() <= HISTORY_CAP {
        full
    } else {
        full.take(HISTORY_CAP as int)
    }
}

/// No two items share an id.
pub open spec fn unique_ids(items: Seq<ItemModel>) -> bool {
    forall|i: int, j: int| 0 <= i < j < items.len() ==> items[i].id != items[j].id
}

/// Substring containment over character sequences.
pub open spec fn contains_sub(hay: Seq<char>, needle: Seq<char>) -> bool {
    exists|i: int|
        0 <= i <= hay.len() - needle.len() && #[trigger] hay.subrange(i, i + needle.len())
            == needle
}

/// Every character is ASCII.
pub open spec fn is_ascii_text(s: Seq<char>) -> bool {
    forall|i: int| 0 <= i < s.len() ==> (#[trigger] s[i] as u32) < 0x80
}

/// ASCII lower-casing of one character: `A`..`Z` map to `a`..`z`, all other
/// characters stay as they are.
pub open spec fn ascii_lower_char(c: char) -> char {
    if c == 'A' {
        'a'
    } else if c == 'B' {
        'b'
    } else if c == 'C' {
        'c'
    } else if c == 'D' {
        'd'
    } else if c == 'E' {
        'e'
    } else if c == 'F' {
        'f'
    } else if c == 'G' {
        'g'
    } else if c == 'H' {
        'h'
    } else if c == 'I' {
        'i'
    } else if c == 'J' {
        'j'
    } else if c == 'K' {
        'k'
    } else if c == 'L' {
        'l'
    } else if c == 'M' {
        'm'
    } else if c == 'N' {
        'n'
    } else if c == 'O' {
        'o'
    } else if c == 'P' {
        'p'
    } else if c == 'Q' {
        'q'
    } else if c == 'R' {
        'r'
    } else if c == 'S' {
        's'
    } else if c == 'T' {
        't'
    } else if c == 'U' {
        'u'
    } else if c == 'V' {
        'v'
    } else if c == 'W' {
        'w'
    } else if c == 'X' {
        'x'
    } else if c == 'Y' {
        'y'
    } else if c == 'Z' {
        'z'
    } else {
        c
    }
}

/// ASCII lower-casing of a text, character by character.
pub open spec fn ascii_lower(s: Seq<char>) -> Seq<char> {
    Seq::new(s.len(), |i: int| ascii_lower_char(s[i]))
}

/// What `str::to_lowercase` returns on text that is not pure ASCII; the
/// result depends on the characters alone.
pub uninterp spec fn unicode_lower_of(s: Seq<char>) -> Seq<char>;

/// What `str::to_lowercase` returns: on ASCII text exactly the per-character
/// ASCII lower-casing, otherwise the Unicode result, which is only named.
pub open spec fn lower_of(s: Seq<char>) -> Seq<char> {
    if is_ascii_text(s) {
        ascii_lower(s)
    } else {
        unicode_lower_of(s)
    }
}

/// A stored text matches a query when its lower-cased form contains the
/// lower-cased query.
pub open spec fn matches_query(content: Seq<char>, query: Seq<char>) -> bool {
    contains_sub(lower_of(content), lower_of(query))
}

/// The matching items, in their stored order.
pub open spec fn search_results(items: Seq<ItemModel>, query: Seq<char>) -> Seq<ItemModel>
    decreases items.len(),
{
    if items.len() == 0 {
        Seq::empty()
    } else {
        let rest = search_results(items.skip(1), query);
        if matches_query(items[0].content, query) {
            seq![items[0]] + rest
        } else {
            rest
        }
    }
}

/// The first stored item carrying the id, scanning most-recent-first.
pub open spec fn first_match(items: Seq<ItemModel>, id: Seq<char>) -> Option<ItemModel>
    decreases items.len(),
{
    if items.len() == 0 {
        None
    } else if items[0].id == id {
        Some(items[0])
    } else {
        first_match(items.skip(1), id)
    }
}

/// Relies on `str::to_lowercase`: Unicode lower-casing. On ASCII text its
/// documentation pins the result to the per-character `A`..`Z` to `a`..`z`
/// mapping; elsewhere the result is only named.
#[verifier::external_body]
fn to_lowercase(s: &str) -> (r: String)
    ensures
        r@ == lower_of(s@),
        !is_ascii_text(s@) ==> r@ == unicode_lower_of(s@),
{
    s.to_lowercase()
}

/// Relies on `str::contains` with a `&str` pattern: whether the pattern
/// occurs as a substring.
#[verifier::external_body]
fn contains_str(hay: &str, needle: &str) -> (r: bool)
    ensures
        r == contains_sub(hay@, needle@),
{
    hay.contains(needle)
}

proof fn lemma_search_snoc(items: Seq<ItemModel>, x: ItemModel, q: Seq<char>)
    ensures
        search_results(items.push(x), q) == search_results(items, q) + (if matches_query(
            x.content,
            q,
        ) {
            seq![x]
        } else {
            Seq::<ItemModel>::empty()
        }),
    decreases items.len(),
{
    let whole = items.push(x);
    assert(search_results(Seq::<ItemModel>::empty(), q) == Seq::<ItemModel>::empty());
    if items.len() == 0 {
        assert(whole[0] == x);
        assert(whole.skip(1) =~= Seq::<ItemModel>::empty());
        if matches_query(x.content, q) {
            assert(search_results(whole, q) =~= seq![x] + search_results(whole.skip(1), q));
            assert(search_results(whole, q) =~= seq![x]);
            assert(search_results(items, q) + seq![x] =~= seq![x]);
        } else {
            assert(search_results(items, q) + Seq::<ItemModel>::empty()
                =~= Seq::<ItemModel>::empty());
        }
    } else {
        lemma_search_snoc(items.skip(1), x, q);
        assert(whole[0] == items[0]);
        assert(whole.skip(1) =~= items.skip(1).push(x));
        if matches_query(items[0].content, q) {
            assert(search_results(whole, q) =~= seq![items[0]] + search_results(
                items.skip(1).push(x),
                q,
            ));
            assert(search_results(whole, q) =~= search_results(items, q) + (if matches_query(
                x.content,
                q,
            ) {
                seq![x]
            } else {
                Seq::<ItemModel>::empty()
            }));
        } else {
            assert(search_results(whole, q) =~= search_results(items, q) + (if matches_query(
                x.content,
                q,
            ) {
                seq![x]
            } else {
                Seq::<ItemModel>::empty()
            }));
        }
    }
}

impl Storage {
    /// A store over an already-loaded document. Reading the document from
    /// its file, or starting from an empty one, happens outside this crate.
    pub fn new(data: StorageData) -> (r: Storage)
        ensures
            r.data == data,
    {
        Storage { data }
    }

    /// Commit one item: prepend it, cut the history back to `HISTORY_CAP`
    /// entries, and stamp the update time. The in-memory document is
    /// updated unconditionally; persisting it is the caller's step.
    pub fn store_item(&mut self, item: ClipItem)
        ensures
            final(self).data.items@ == ({
                let full = seq![item] + old(self).data.items@;
                if full.len() <= HISTORY_CAP {
                    full
                } else {
                    full.take(HISTORY_CAP as int)
                }
            }),
            final(self).data.items.deep_view() == store_model(
                old(self).data.items.deep_view(),
                item.deep_view(),
            ),
            final(self).data.items@.len() <= HISTORY_CAP,
    {
        self.data.items.insert(0, item);
        if self.data.items.len() > HISTORY_CAP {
            self.data.items.truncate(HISTORY_CAP);
        }
        self.data.last_updated = now_millis();
        proof {
            let it = item.deep_view();
            let full = seq![item] + old(self).data.items@;
            assert(old(self).data.items@.insert(0, item) =~= full);
            if full.len() > HISTORY_CAP {
                assert(self.data.items@ =~= full.take(HISTORY_CAP as int));
            }
            let dvfull = seq![it] + old(self).data.items.deep_view();
            assert forall|i: int| 0 <= i < self.data.items@.len() implies #[trigger] self
                .data
                .items
                .deep_view()[i] == dvfull[i] by {
                assert(self.data.items.deep_view()[i] == self.data.items@[i].deep_view());
                if i > 0 {
                    assert(self.data.items@[i] == old(self).data.items@[i - 1]);
                }
            }
            assert(self.data.items.deep_view() =~= store_model(
                old(self).data.items.deep_view(),
                it,
            ));
        }
    }

    /// The first `limit` items (or all of them), most-recent-first;
    /// read-only.
    pub fn get_items(&self, limit: Option<usize>) -> (r: Vec<ClipItem>)
        ensures
            r.deep_view() == match limit {
                Some(l) => self.data.items.deep_view().take(
                    if l <= self.data.items@.len() {
                        l as int
                    } else {
                        self.data.items@.len() as int
                    },
                ),
                None => self.data.items.deep_view(),
            },
    {
        let count: usize = match limit {
            Some(l) => if l <= self.data.items.len() {
                l
            } else {
                self.data.items.len()
            },
            None => self.data.items.len(),
        };
        let mut r: Vec<ClipItem> = Vec::new();
        let mut i: usize = 0;
        while i < count
            invariant
                i <= count <= self.data.items@.len(),
                r.deep_view() == self.data.items.deep_view().take(i as int),
            decreases count - i,
        {
            let c = self.data.items[i].clone();
            let ghost prev = r@;
            let ghost predv = r.deep_view();
            r.push(c);
            proof {
                let dv = self.data.items.deep_view();
                assert(dv[i as int] == self.data.items@[i as int].deep_view());
                assert(predv.len() == prev.len());
                assert(r@ == prev.push(c));
                assert(r@.len() == i + 1);
                assert forall|j: int| 0 <= j < i + 1 implies #[trigger] r.deep_view()[j]
                    == dv.take(i + 1)[j] by {
                    assert(r.deep_view()[j] == r@[j].deep_view());
                    if j < i {
                        assert(r@[j] == prev[j]);
                        assert(predv[j] == prev[j].deep_view());
                    }
                }
                assert(r.deep_view() =~= dv.take(i + 1));
            }
            i += 1;
        }
        proof {
            if limit is None {
                assert(self.data.items.deep_view().take(self.data.items@.len() as int)
                    =~= self.data.items.deep_view());
            }
        }
        r
    }

    /// All items whose content contains the query as a case-insensitive
    /// substring, in the stored most-recent-first order; read-only.
    pub fn search_items(&self, query: &str) -> (r: Vec<ClipItem>)
        ensures
            r.deep_view() == search_results(self.data.items.deep_view(), query@),
    {
        let query_lower = to_lowercase(query);
        let mut r: Vec<ClipItem> = Vec::new();
        let mut i: usize = 0;
        while i < self.data.items.len()
            invariant
                i <= self.data.items@.len(),
                query_lower@ == lower_of(query@),
                r.deep_view() == search_results(
                    self.data.items.deep_view().take(i as int),
                    query@,
                ),
            decreases self.data.items@.len() - i,
        {
            let item = &self.data.items[i];
            let content_lower = to_lowercase(item.content.as_str());
            proof {
                lemma_search_snoc(
                    self.data.items.deep_view().take(i as int),
                    self.data.items.deep_view()[i as int],
                    query@,
                );
                assert(self.data.items.deep_view().take(i as int).push(
                    self.data.items.deep_view()[i as int],
                ) =~= self.data.items.deep_view().take(i + 1));
            }
            let ghost dv = self.data.items.deep_view();
            let m = contains_str(content_lower.as_str(), query_lower.as_str());
            proof {
                assert(dv[i as int] == self.data.items@[i as int].deep_view());
                assert(dv[i as int].content == item.content@);
                assert(m == matches_query(dv[i as int].content, query@));
            }
            if m {
                let c = item.clone();
                let ghost prev = r@;
                let ghost predv = r.deep_view();
                r.push(c);
                proof {
                    assert(predv.len() == prev.len());
                    assert(r@ == prev.push(c));
                    assert(r@.len() == prev.len() + 1);
                    assert forall|j: int| 0 <= j < r@.len() implies #[trigger] r.deep_view()[j]
                        == (predv + seq![dv[i as int]])[j] by {
                        assert(r.deep_view()[j] == r@[j].deep_view());
                        if j < prev.len() {
                            assert(r@[j] == prev[j]);
                            assert(predv[j] == prev[j].deep_view());
                        }
                    }
                    assert(r.deep_view() =~= predv + seq![dv[i as int]]);
                    assert(r.deep_view() =~= search_results(dv.take(i as int), query@)
                        + seq![dv[i as int]]);
                }
            }
            proof {
                let a = search_results(dv.take(i as int), query@);
                assert(dv.take(i as int).push(dv[i as int]) =~= dv.take(i + 1));
                if matches_query(dv[i as int].content, query@) {
                    assert(search_results(dv.take(i + 1), query@) == a + seq![dv[i as int]]);
                } else {
                    assert(search_results(dv.take(i + 1), query@) == a
                        + Seq::<ItemModel>::empty());
                    assert(a + Seq::<ItemModel>::empty() =~= a);
                }
                assert(r.deep_view() =~= search_results(dv.take(i + 1), query@));
            }
            i += 1;
        }
        proof {
            assert(self.data.items.deep_view().take(self.data.items@.len() as int)
                =~= self.data.items.deep_view());
        }
        r
    }

    /// The most recent item carrying the id, if any; read-only. This backs
    /// the one-item detail view.
    pub fn find_item(&self, id: &str) -> (r: Option<ClipItem>)
        ensures
            r.deep_view() == first_match(self.data.items.deep_view(), id@),
    {
        let ghost dv = self.data.items.deep_view();
        proof {
            assert(dv.skip(0) =~= dv);
        }
        let mut i: usize = 0;
        while i < self.data.items.len()
            invariant
                i <= self.data.items@.len(),
                dv == self.data.items.deep_view(),
                first_match(dv, id@) == first_match(dv.skip(i as int), id@),
            decreases self.data.items@.len() - i,
        {
            let item = &self.data.items[i];
            if str_eq(item.id.as_str(), id) {
                assert(dv.skip(i as int)[0] == dv[i as int]);
                return Some(item.clone());
            }
            proof {
                assert(dv.skip(i as int)[0] == dv[i as int]);
                assert(dv.skip(i as int).skip(1) =~= dv.skip(i + 1));
            }
            i += 1;
        }
        proof {
            assert(dv.skip(self.data.items@.len() as int) =~= Seq::<ItemModel>::empty());
        }
        None
    }
}

/// Law: a commit preserves id-uniqueness whenever the new item's id is not
/// already in the history.
pub proof fn lemma_store_preserves_unique_ids(items: Seq<ItemModel>, it: ItemModel)
    requires
        unique_ids(items),
        forall|i: int| 0 <= i < items.len() ==> items[i].id != it.id,
    ensures
        unique_ids(store_model(items, it)),
{
    let out = store_model(items, it);
    assert forall|i: int, j: int| 0 <= i < j < out.len() implies out[i].id != out[j].id by {
        if i > 0 {
            assert(out[i] == items[i - 1] && out[j] == items[j - 1]);
        } else {
            assert(out[j] == items[j - 1]);
        }
    }
}

/// The history after a whole run of commits, oldest store first, starting
/// from `init`.
pub open spec fn run_stores(init: Seq<ItemModel>, stored: Seq<ItemModel>) -> Seq<ItemModel>
    decreases stored.len(),
{
    if stored.len() == 0 {
        init
    } else {
        store_model(run_stores(init, stored.drop_last()), stored.last())
    }
}

/// Law: starting from an empty history, any sequence of commits leaves
/// exactly the `HISTORY_CAP` most recently stored items, most-recent-first;
/// only the oldest are dropped.
pub proof fn lemma_retention(stored: Seq<ItemModel>)
    ensures
        run_stores(Seq::empty(), stored).len() == (if stored.len() <= HISTORY_CAP {
            stored.len()
        } else {
            HISTORY_CAP as nat
        }),
        forall|i: int|
            0 <= i < run_stores(Seq::empty(), stored).len() ==> run_stores(
                Seq::empty(),
                stored,
            )[i] == stored[stored.len() - 1 - i],
    decreases stored.len(),
{
    if stored.len() > 0 {
        lemma_retention(stored.drop_last());
        let prev = run_stores(Seq::empty(), stored.drop_last());
        let out = run_stores(Seq::empty(), stored);
        assert forall|i: int| 0 <= i < out.len() implies out[i] == stored[stored.len() - 1
            - i] by {
            if i == 0 {
                assert(out[0] == stored.last());
            } else {
                assert(out[i] == prev[i - 1]);
                assert(prev[i - 1] == stored.drop_last()[stored.len() - 1 - i]);
                assert(stored.drop_last()[stored.len() - 1 - i] == stored[stored.len() - 1
                    - i]);
            }
        }
    }
}


/// Law: a search returns only matching items, and every stored item whose
/// content matches the query appears among the results; the order is the
/// stored one by construction of `search_results`.
pub proof fn lemma_search_exact(items: Seq<ItemModel>, q: Seq<char>)
    ensures
        forall|i: int|
            0 <= i < search_results(items, q).len() ==> matches_query(
                #[trigger] search_results(items, q)[i].content,
                q,
            ),
        forall|i: int|
            0 <= i < items.len() && matches_query(#[trigger] items[i].content, q)
                ==> search_results(items, q).contains(items[i]),
    decreases items.len(),
{
    if items.len() > 0 {
        lemma_search_exact(items.skip(1), q);
        let rest = search_results(items.skip(1), q);
        let out = search_results(items, q);
        assert forall|i: int|
            0 <= i < out.len() implies matches_query(#[trigger] out[i].content, q) by {
            if matches_query(items[0].content, q) {
                if i > 0 {
                    assert(out[i] == rest[i - 1]);
                }
            } else {
                assert(out[i] == rest[i]);
            }
        }
        assert forall|i: int|
            0 <= i < items.len() && matches_query(#[trigger] items[i].content, q) implies out
            .contains(items[i]) by {
            if i == 0 {
                assert(out[0] == items[0]);
            } else {
                assert(items.skip(1)[i - 1] == items[i]);
                assert(rest.contains(items.skip(1)[i - 1]));
                let k = choose|k: int| 0 <= k < rest.len() && rest[k] == items[i];
                if matches_query(items[0].content, q) {
                    assert(out[k + 1] == rest[k]);
                } else {
                    assert(out[k] == rest[k]);
                }
            }
        }
    }
}


/// Two texts are equal up to ASCII letter case.
pub open spec fn ascii_case_eq(a: Seq<char>, b: Seq<char>) -> bool {
    &&& is_ascii_text(a)
    &&& is_ascii_text(b)
    &&& a.len() == b.len()
    &&& forall|i: int|
        0 <= i < a.len() ==> ascii_lower_char(#[trigger] a[i]) == ascii_lower_char(b[i])
}

/// Law: a search is insensitive to the ASCII letter case of its query —
/// two queries that differ only in letter case return the same items.
pub proof fn lemma_search_query_case(items: Seq<ItemModel>, q1: Seq<char>, q2: Seq<char>)
    requires
        ascii_case_eq(q1, q2),
    ensures
        search_results(items, q1) == search_results(items, q2),
    decreases items.len(),
{
    assert(lower_of(q1) =~= lower_of(q2));
    if items.len() > 0 {
        lemma_search_query_case(items.skip(1), q1, q2);
        assert(matches_query(items[0].content, q1) == matches_query(items[0].content, q2));
    }
}

} // verus!
