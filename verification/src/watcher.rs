//! The clipboard watcher: the change/dedup policy that decides when a
//! sampled clipboard snapshot becomes a stored history entry.
//!
//! The watcher keeps the change counter it last saw and the payload it last
//! stored. A tick with an unchanged counter does nothing. A changed counter
//! is recorded; its snapshot is classified, text preferred over an image;
//! content equal to the last stored payload is skipped, because the counter
//! can advance without the logical content changing; anything else becomes a
//! new entry.

use vstd::prelude::*;

use crate::entry::ClipboardEntry;
use crate::entry::ClipboardHistory;
use crate::entry::ContentModel;
use crate::entry::EntryModel;
use crate::store::HistoryStore;
use crate::store::insertion_point;

verus! {

/// The capture state of the watcher: the change counter it last saw and the
/// payload it last stored. Both start absent — the sentinel the provider
/// never issues.
pub struct Watcher {
    pub last_counter: Option<i64>,
    pub last_content: Option<ClipboardHistory>,
}

/// The mathematical value of the watcher state.
pub struct WatcherModel {
    pub last_counter: Option<i64>,
    pub last_content: Option<ContentModel>,
}

/// The value of an optional string.
pub open spec fn opt_str_view(o: Option<String>) -> Option<Seq<char>> {
    match o {
        Some(s) => Some(s@),
        None => None,
    }
}

/// The value of an optional payload.
pub open spec fn opt_content_view(o: Option<ClipboardHistory>) -> Option<ContentModel> {
    match o {
        Some(c) => Some(c@),
        None => None,
    }
}

impl View for Watcher {
    type V = WatcherModel;

    open spec fn view(&self) -> WatcherModel {
        WatcherModel {
            last_counter: self.last_counter,
            last_content: opt_content_view(self.last_content),
        }
    }
}

/// What a provider snapshot classifies to: text when present, else an image,
/// else nothing — plain text is preferred when both are present.
pub open spec fn classify_spec(text: Option<Seq<char>>, image: Option<Seq<char>>) -> Option<
    ContentModel,
> {
    match text {
        Some(t) => Some(ContentModel::Text(t)),
        None => match image {
            Some(p) => Some(ContentModel::Image(p)),
            None => None,
        },
    }
}

/// Classifies a provider snapshot, preferring text over an image.
pub fn classify(text: Option<String>, image: Option<String>) -> (r: Option<ClipboardHistory>)
    ensures
        opt_content_view(r) == classify_spec(opt_str_view(text), opt_str_view(image)),
{
    match text {
        Some(t) => Some(ClipboardHistory::Text(t)),
        None => match image {
            Some(p) => Some(ClipboardHistory::Image(p)),
            None => None,
        },
    }
}

/// One watcher decision. A tick whose counter equals the recorded one leaves
/// the state alone and stores nothing. Otherwise the counter is recorded;
/// with no classified content nothing is stored; content equal to the last
/// stored payload is skipped; any other content is stored and remembered.
pub open spec fn observe_spec(w: WatcherModel, counter: i64, content: Option<ContentModel>) -> (
    WatcherModel,
    Option<ContentModel>,
) {
    if w.last_counter == Some(counter) {
        (w, None)
    } else {
        let moved = WatcherModel { last_counter: Some(counter), last_content: w.last_content };
        match content {
            None => (moved, None),
            Some(c) => if w.last_content == Some(c) {
                (moved, None)
            } else {
                (WatcherModel { last_counter: Some(counter), last_content: Some(c) }, Some(c))
            },
        }
    }
}

impl Watcher {
    /// Creates a watcher that has seen nothing.
    pub fn new() -> (r: Watcher)
        ensures
            r@.last_counter is None,
            r@.last_content is None,
    {
        Watcher { last_counter: None, last_content: None }
    }

    /// Applies one sampled counter and classified payload to the state;
    /// returns the payload this tick captures, if any.
    pub fn observe(&mut self, counter: i64, content: Option<ClipboardHistory>) -> (r: Option<
        ClipboardHistory,
    >)
        ensures
            (final(self)@, opt_content_view(r)) == observe_spec(
                old(self)@,
                counter,
                opt_content_view(content),
            ),
    {
        let same_counter: bool = match self.last_counter {
            Some(c) => c == counter,
            None => false,
        };
        if same_counter {
            return None;
        }
        self.last_counter = Some(counter);
        match content {
            None => None,
            Some(c) => {
                let duplicate: bool = match &self.last_content {
                    Some(prev) => prev.same_content(&c),
                    None => false,
                };
                if duplicate {
                    None
                } else {
                    let out = c.clone();
                    self.last_content = Some(c);
                    Some(out)
                }
            },
        }
    }

    /// Runs one full watcher tick against a store: classifies the snapshot,
    /// applies the change and dedup policy, and files a captured payload as
    /// a new entry under the given creation stamp. Returns the stored entry,
    /// carrying its assigned id, when one is stored.
    pub fn tick(
        &mut self,
        store: &mut HistoryStore,
        counter: i64,
        text: Option<String>,
        image: Option<String>,
        created_at: String,
    ) -> (r: Option<ClipboardEntry>)
        requires
            old(store).well_formed(),
            old(store).spec_next_id() < i64::MAX,
        ensures
            final(store).well_formed(),
            ({
                let (moved, act) = observe_spec(
                    old(self)@,
                    counter,
                    classify_spec(opt_str_view(text), opt_str_view(image)),
                );
                &&& final(self)@ == moved
                &&& match act {
                    None => {
                        &&& r is None
                        &&& final(store)@ == old(store)@
                        &&& final(store).spec_next_id() == old(store).spec_next_id()
                    },
                    Some(c) => {
                        let stored = EntryModel {
                            id: Some(old(store).spec_next_id()),
                            content: c,
                            created_at: created_at@,
                        };
                        &&& r matches Some(e) && e@ == stored
                        &&& final(store)@ == old(store)@.insert(
                            insertion_point(old(store)@, stored),
                            stored,
                        )
                        &&& final(store).spec_next_id() == old(store).spec_next_id() + 1
                    },
                }
            }),
    {
        let content = classify(text, image);
        let act = self.observe(counter, content);
        match act {
            None => None,
            Some(c) => {
                let entry = ClipboardEntry { id: None, content: c, created_at };
                let keep = entry.clone();
                let id = store.save_entry(entry);
                let mut out = keep;
                out.id = Some(id);
                Some(out)
            },
        }
    }
}

/// Under the dedup policy, consecutive captures of identical content yield
/// exactly one stored entry: across two ticks carrying the same payload
/// whose counters both advance, the second tick never captures, and the
/// first captures exactly when the payload differs from the last stored one.
pub proof fn lemma_dedup_consecutive_identical(w: WatcherModel, c1: i64, c2: i64, x: ContentModel)
    requires
        w.last_counter != Some(c1),
        c2 != c1,
    ensures
        ({
            let (w1, a1) = observe_spec(w, c1, Some(x));
            let (w2, a2) = observe_spec(w1, c2, Some(x));
            &&& a2 is None
            &&& (a1 is Some <==> w.last_content != Some(x))
        }),
{
}

} // verus!
