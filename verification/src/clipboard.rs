//! The clipboard monitor's decision core: given one reading of the
//! clipboard, decide whether it is a genuine change, and on a change build
//! the item, enrich it, and commit it to the store.
//!
//! The polling loop itself — taking the reading every half second,
//! persisting the document after a commit, stopping on an interrupt — runs
//! outside this crate and hands each reading in as a plain value.

use vstd::prelude::*;

use crate::clip_item::{classify_spec, fresh_id, ClipItem};
use crate::storage::{Storage, HISTORY_CAP};
use crate::text::chars_vec;
use crate::transforms::{engine_notes, note_of, TransformEngine};

verus! {

/// Watches for clipboard changes; holds the last observed value, the
/// per-process device id, and the transform engine.
pub struct ClipboardMonitor {
    pub last_content: Option<String>,
    pub device_id: String,
    pub transform_engine: TransformEngine,
}

/// A reading records a change exactly when it succeeded, is nonempty, and
/// differs from the last observed value.
pub open spec fn is_new_content(last: Option<Seq<char>>, reading: Option<Seq<char>>) -> bool {
    match reading {
        None => false,
        Some(c) => c.len() > 0 && last != Some(c),
    }
}

impl ClipboardMonitor {
    /// A per-process device id: the host system's name, a dash, and the
    /// first group of a fresh random identifier.
    pub fn generate_device_id(os_name: &str) -> (r: String)
        ensures
            r@.len() == os_name@.len() + 9,
            r@.take(os_name@.len() as int) == os_name@,
            r@[os_name@.len() as int] == '-',
    {
        let uid = fresh_id();
        let os_chars = chars_vec(os_name);
        let uid_chars = chars_vec(uid.as_str());
        let mut out: Vec<char> = Vec::new();
        let mut i: usize = 0;
        while i < os_chars.len()
            invariant
                i <= os_chars@.len(),
                out@ == os_chars@.take(i as int),
            decreases os_chars@.len() - i,
        {
            out.push(os_chars[i]);
            assert(out@ =~= os_chars@.take(i + 1));
            i += 1;
        }
        out.push('-');
        let mut p: usize = 0;
        while p < 8
            invariant
                p <= 8,
                uid_chars@.len() == 36,
                os_chars@.len() + 1 + p == out@.len(),
                out@ == os_chars@.take(os_chars@.len() as int) + seq!['-'] + uid_chars@.take(
                    p as int,
                ),
            decreases 8 - p,
        {
            out.push(uid_chars[p]);
            assert(out@ =~= os_chars@.take(os_chars@.len() as int) + seq!['-']
                + uid_chars@.take(p + 1));
            p += 1;
        }
        proof {
            assert(os_chars@.take(os_chars@.len() as int) =~= os_chars@);
            assert(out@.take(os_chars@.len() as int) =~= os_chars@);
        }
        crate::text::string_of(&out)
    }

    /// A monitor with no last observed value and a fresh device id built
    /// from the host system's name.
    pub fn new(os_name: &str) -> (r: Self)
        ensures
            r.last_content is None,
            r.device_id@.len() == os_name@.len() + 9,
    {
        ClipboardMonitor {
            last_content: None,
            device_id: Self::generate_device_id(os_name),
            transform_engine: TransformEngine::new(),
        }
    }

    /// One tick of the watching loop, after the clipboard was read.
    ///
    /// A failed read (`None`), an empty value, or a value equal to the last
    /// observed one records nothing and leaves both the monitor and the
    /// store as they were. A genuine change builds a fresh item carrying
    /// the reading's classification, runs the transform engine over it,
    /// commits it to the store, and updates the last observed value — the
    /// last step unconditionally, so the same value is not retried.
    pub fn check_clipboard(&mut self, reading: Option<String>, storage: &mut Storage) -> (changed:
        bool)
        ensures
            changed == is_new_content(old(self).last_content.deep_view(), reading.deep_view()),
            !changed ==> *final(self) == *old(self) && *final(storage) == *old(storage),
            changed ==> final(self).last_content.deep_view() == Some(
                reading.deep_view()->Some_0,
            ),
            final(self).device_id == old(self).device_id,
            changed ==> ({
                let c = reading.deep_view()->Some_0;
                let items = final(storage).data.items@;
                let old_items = old(storage).data.items@;
                &&& items.len() == if old_items.len() + 1 <= HISTORY_CAP {
                    old_items.len() + 1
                } else {
                    HISTORY_CAP as nat
                }
                &&& forall|i: int| 1 <= i < items.len() ==> items[i] == old_items[i - 1]
                &&& items[0].content@ == c
                &&& items[0].content_type == classify_spec(c)
                &&& items[0].device_id@ == old(self).device_id@
                &&& items[0].tags@.len() == 0
                &&& items[0].transformations@.len() == engine_notes(classify_spec(c), c).len()
                &&& forall|i: int|
                    0 <= i < engine_notes(classify_spec(c), c).len() ==> note_of(
                        #[trigger] items[0].transformations@[i].deep_view(),
                    ) == engine_notes(classify_spec(c), c)[i]
            }),
    {
        match reading {
            None => false,
            Some(current) => {
                let unchanged = match &self.last_content {
                    Some(l) => *l == current,
                    None => false,
                };
                if unchanged || current.as_str().is_empty() {
                    return false;
                }
                let mut item = ClipItem::new(current.clone(), self.device_id.clone());
                let ghost item0 = item;
                self.transform_engine.apply_smart_transforms(&mut item);
                let ghost item1 = item;
                storage.store_item(item);
                proof {
                    let c = current@;
                    let notes = engine_notes(classify_spec(c), c);
                    assert(storage.data.items@[0] == item1);
                    assert(engine_notes(item0.content_type, item0.content@) == notes);
                    assert forall|i: int| 0 <= i < notes.len() implies note_of(
                        #[trigger] storage.data.items@[0].transformations@[i].deep_view(),
                    ) == notes[i] by {
                        assert(note_of(item1.transformations@[item0.transformations@.len()
                            + i].deep_view()) == engine_notes(
                            item0.content_type,
                            item0.content@,
                        )[i]);
                        assert(item1.transformations@[item0.transformations@.len() + i]
                            == item1.transformations@[i]);
                    }
                }
                self.last_content = Some(current);
                true
            },
        }
    }
}

} // verus!
