//! The ordered log of clipboard history entries.
//!
//! The store assigns each appended entry a fresh, strictly increasing id and
//! keeps the log in listing order: newest creation stamp first, entries with
//! the same stamp in ascending id order. Reads return the log in that order;
//! deletion is by id and reports a missing id instead of succeeding silently.

use vstd::prelude::*;

use crate::entry::ClipboardEntry;
use crate::entry::EntryModel;
use crate::entry::HistoryError;
use crate::text::code_seq;
use crate::text::lemma_lex_lt_connected;
use crate::text::lemma_lex_lt_transitive;
use crate::text::str_lt;
use crate::text::str_lt_spec;

verus! {

/// The id of a persisted entry; an unpersisted entry counts below every
/// persisted one.
pub open spec fn id_of(e: EntryModel) -> int {
    match e.id {
        Some(v) => v as int,
        None => -1,
    }
}

/// Whether entry `a` precedes entry `b` in listing order: the newer creation
/// stamp comes first, and of two entries whose stamps hold the same code
/// points, the smaller id comes first.
pub open spec fn listing_before(a: EntryModel, b: EntryModel) -> bool {
    ||| str_lt_spec(b.created_at, a.created_at)
    ||| (code_seq(a.created_at) == code_seq(b.created_at) && id_of(a) < id_of(b))
}

/// Whether a sequence of entries is strictly in listing order.
pub open spec fn listing_sorted(s: Seq<EntryModel>) -> bool {
    forall|i: int, j: int| 0 <= i < j < s.len() ==> listing_before(#[trigger] s[i], #[trigger] s[j])
}

/// Whether no two entries of a sequence share an id.
pub open spec fn ids_unique(s: Seq<EntryModel>) -> bool {
    forall|i: int, j: int| 0 <= i < j < s.len() ==> id_of(#[trigger] s[i]) != id_of(#[trigger] s[j])
}

/// Two entries with distinct ids always order one way or the other.
pub proof fn lemma_listing_before_total(a: EntryModel, b: EntryModel)
    requires
        id_of(a) != id_of(b),
    ensures
        listing_before(a, b) || listing_before(b, a),
{
    lemma_lex_lt_connected(code_seq(a.created_at), code_seq(b.created_at));
}

/// Listing order is transitive.
pub proof fn lemma_listing_before_transitive(a: EntryModel, b: EntryModel, c: EntryModel)
    requires
        listing_before(a, b),
        listing_before(b, c),
    ensures
        listing_before(a, c),
{
    let ca = code_seq(a.created_at);
    let cb = code_seq(b.created_at);
    let cc = code_seq(c.created_at);
    if str_lt_spec(b.created_at, a.created_at) && str_lt_spec(c.created_at, b.created_at) {
        lemma_lex_lt_transitive(cc, cb, ca);
    }
}

/// The position in listing order at which an entry joins a sorted log: just
/// before the first stored entry it precedes, or at the end.
pub open spec fn insertion_point(s: Seq<EntryModel>, e: EntryModel) -> int
    decreases s.len(),
{
    if s.len() == 0 {
        0
    } else if listing_before(e, s[0]) {
        0
    } else {
        1 + insertion_point(s.drop_first(), e)
    }
}

/// The insertion point is the first position whose entry the newcomer
/// precedes.
proof fn lemma_insertion_point_is_first(s: Seq<EntryModel>, e: EntryModel, k: int)
    requires
        0 <= k <= s.len(),
        forall|i: int| 0 <= i < k ==> !listing_before(e, #[trigger] s[i]),
        k < s.len() ==> listing_before(e, s[k]),
    ensures
        insertion_point(s, e) == k,
    decreases s.len(),
{
    if s.len() > 0 && k > 0 {
        let t = s.drop_first();
        assert(t.len() == s.len() - 1);
        assert forall|i: int| 0 <= i < k - 1 implies !listing_before(e, #[trigger] t[i]) by {
            assert(t[i] == s[i + 1]);
        }
        if k - 1 < t.len() {
            assert(t[k - 1] == s[k]);
        }
        lemma_insertion_point_is_first(t, e, k - 1);
    }
}

/// The first position of a log holding a given id, or a negative value when
/// none does.
pub open spec fn index_of_id(s: Seq<EntryModel>, id: i64) -> int
    decreases s.len(),
{
    if s.len() == 0 {
        -1
    } else if s[0].id == Some(id) {
        0
    } else if index_of_id(s.drop_first(), id) < 0 {
        -1
    } else {
        1 + index_of_id(s.drop_first(), id)
    }
}

/// The position a scan for an id stops at is the position `index_of_id`
/// names; a scan that finds nothing means no position holds the id.
proof fn lemma_index_of_id_is_first(s: Seq<EntryModel>, id: i64, k: int)
    requires
        0 <= k <= s.len(),
        forall|i: int| 0 <= i < k ==> (#[trigger] s[i]).id != Some(id),
        k < s.len() ==> s[k].id == Some(id),
    ensures
        k < s.len() ==> index_of_id(s, id) == k,
        k == s.len() ==> index_of_id(s, id) == -1,
    decreases s.len(),
{
    if s.len() > 0 && k > 0 {
        let t = s.drop_first();
        assert(t.len() == s.len() - 1);
        assert forall|i: int| 0 <= i < k - 1 implies (#[trigger] t[i]).id != Some(id) by {
            assert(t[i] == s[i + 1]);
        }
        if k - 1 < t.len() {
            assert(t[k - 1] == s[k]);
        }
        lemma_index_of_id_is_first(t, id, k - 1);
    }
}

/// Decides whether entry `a` precedes entry `b` in listing order.
pub fn entry_before(a: &ClipboardEntry, b: &ClipboardEntry) -> (r: bool)
    ensures
        r == listing_before(a@, b@),
{
    if str_lt(b.created_at.as_str(), a.created_at.as_str()) {
        true
    } else if str_lt(a.created_at.as_str(), b.created_at.as_str()) {
        false
    } else {
        proof {
            lemma_lex_lt_connected(code_seq(a@.created_at), code_seq(b@.created_at));
        }
        let ia: i64 = match a.id {
            Some(v) => v,
            None => -1,
        };
        let ib: i64 = match b.id {
            Some(v) => v,
            None => -1,
        };
        ia < ib
    }
}

/// The ordered log of clipboard history entries, listed newest first.
pub struct HistoryStore {
    entries: Vec<ClipboardEntry>,
    next_id: i64,
}

impl View for HistoryStore {
    type V = Seq<EntryModel>;

    closed spec fn view(&self) -> Seq<EntryModel> {
        self.entries@.map_values(|e: ClipboardEntry| e@)
    }
}

impl HistoryStore {
    /// The id the next appended entry receives.
    pub closed spec fn spec_next_id(&self) -> i64 {
        self.next_id
    }

    /// Every stored entry holds an id at least one and below the next free
    /// id, no id repeats, and the log is in listing order.
    pub closed spec fn well_formed(&self) -> bool {
        &&& 1 <= self.next_id
        &&& forall|i: int|
            0 <= i < self@.len() ==> ((#[trigger] self@[i]).id matches Some(v) && 1 <= v
                < self.next_id)
        &&& ids_unique(self@)
        &&& listing_sorted(self@)
    }

    /// Reads the id the next appended entry receives.
    pub fn next_id(&self) -> (r: i64)
        ensures
            r == self.spec_next_id(),
    {
        self.next_id
    }

    /// The number of stored entries.
    pub fn len(&self) -> (r: usize)
        ensures
            r == self@.len(),
    {
        self.entries.len()
    }

    /// Creates an empty store.
    pub fn new() -> (r: HistoryStore)
        ensures
            r.well_formed(),
            r@ == Seq::<EntryModel>::empty(),
            r.spec_next_id() == 1,
    {
        let r = HistoryStore { entries: Vec::new(), next_id: 1 };
        proof {
            assert(r@ =~= Seq::<EntryModel>::empty());
        }
        r
    }

    /// Appends an entry: stamps it with the next free id and files it in
    /// listing order. Any id the caller put on the entry is discarded.
    pub fn save_entry(&mut self, entry: ClipboardEntry) -> (id: i64)
        requires
            old(self).well_formed(),
            old(self).spec_next_id() < i64::MAX,
        ensures
            final(self).well_formed(),
            id == old(self).spec_next_id(),
            final(self).spec_next_id() == id + 1,
            ({
                let stored = EntryModel {
                    id: Some(id),
                    content: entry@.content,
                    created_at: entry@.created_at,
                };
                final(self)@ == old(self)@.insert(insertion_point(old(self)@, stored), stored)
            }),
            final(self)@.len() == old(self)@.len() + 1,
    {
        let id = self.next_id;
        self.next_id = self.next_id + 1;
        let mut e = entry;
        e.id = Some(id);
        let ghost em = e@;
        let ghost s0 = self@;
        let n = self.entries.len();
        proof {
            assert(s0.len() == n);
            assert forall|i: int| 0 <= i < n implies id_of(#[trigger] s0[i]) < id as int by {
                assert(s0[i] == self.entries@.map_values(|x: ClipboardEntry| x@)[i]);
            }
        }
        let mut k: usize = n;
        let mut j: usize = 0;
        while j < n
            invariant
                j <= n,
                n == self.entries.len(),
                s0 == self@,
                em == e@,
                k == n || (k < j && listing_before(em, s0[k as int])),
                forall|i: int| 0 <= i < j && i < k ==> !listing_before(em, #[trigger] s0[i]),
            decreases n - j,
        {
            if k == n {
                proof {
                    assert(s0[j as int]
                        == self.entries@.map_values(|x: ClipboardEntry| x@)[j as int]);
                }
                if entry_before(&e, &self.entries[j]) {
                    k = j;
                }
            }
            j = j + 1;
        }
        proof {
            lemma_insertion_point_is_first(s0, em, k as int);
        }
        self.entries.insert(k, e);
        proof {
            let s1 = self@;
            assert(s1 =~= s0.insert(k as int, em)) by {
                assert(self.entries@ == old(self).entries@.insert(k as int, e));
                assert(s1.len() == s0.len() + 1);
                assert forall|i: int| 0 <= i < s1.len() implies s1[i]
                    == s0.insert(k as int, em)[i] by {
                    assert(s1[i] == self.entries@[i]@);
                    if i < k as int {
                        assert(self.entries@[i] == old(self).entries@[i]);
                        assert(s0[i] == old(self).entries@[i]@);
                    } else if i == k as int {
                        assert(self.entries@[i] == e);
                    } else {
                        assert(self.entries@[i] == old(self).entries@[i - 1]);
                        assert(s0[i - 1] == old(self).entries@[i - 1]@);
                    }
                }
            }
            assert forall|i: int| 0 <= i < s1.len() implies ((#[trigger] s1[i]).id matches Some(
                v,
            ) && 1 <= v < self.next_id) by {
                if i < k as int {
                    assert(s1[i] == s0[i]);
                } else if i > k as int {
                    assert(s1[i] == s0[i - 1]);
                }
            }
            assert forall|i: int, j2: int| 0 <= i < j2 < s1.len() implies id_of(#[trigger] s1[i])
                != id_of(#[trigger] s1[j2]) by {
                if i < k as int && j2 < k as int {
                    assert(s1[i] == s0[i] && s1[j2] == s0[j2]);
                } else if i < k as int && j2 == k as int {
                    assert(s1[i] == s0[i] && s1[j2] == em);
                } else if i < k as int && j2 > k as int {
                    assert(s1[i] == s0[i] && s1[j2] == s0[j2 - 1]);
                } else if i == k as int {
                    assert(s1[i] == em && s1[j2] == s0[j2 - 1]);
                } else {
                    assert(s1[i] == s0[i - 1] && s1[j2] == s0[j2 - 1]);
                }
            }
            assert forall|i: int, j2: int| 0 <= i < j2 < s1.len() implies listing_before(
                #[trigger] s1[i],
                #[trigger] s1[j2],
            ) by {
                if i < k as int && j2 < k as int {
                    assert(s1[i] == s0[i] && s1[j2] == s0[j2]);
                } else if i < k as int && j2 == k as int {
                    assert(s1[i] == s0[i] && s1[j2] == em);
                    assert(!listing_before(em, s0[i]));
                    lemma_listing_before_total(em, s0[i]);
                } else if i < k as int && j2 > k as int {
                    assert(s1[i] == s0[i] && s1[j2] == s0[j2 - 1]);
                } else if i == k as int {
                    assert(s1[i] == em && s1[j2] == s0[j2 - 1]);
                    assert(listing_before(em, s0[k as int]));
                    if j2 - 1 > k as int {
                        assert(listing_before(s0[k as int], s0[j2 - 1]));
                        lemma_listing_before_transitive(em, s0[k as int], s0[j2 - 1]);
                    }
                } else {
                    assert(s1[i] == s0[i - 1] && s1[j2] == s0[j2 - 1]);
                }
            }
        }
        id
    }

    /// All entries, newest first.
    pub fn get_all_entries(&self) -> (r: Vec<ClipboardEntry>)
        requires
            self.well_formed(),
        ensures
            r@.map_values(|e: ClipboardEntry| e@) == self@,
            listing_sorted(self@),
    {
        let n = self.entries.len();
        let mut r: Vec<ClipboardEntry> = Vec::new();
        let mut j: usize = 0;
        while j < n
            invariant
                j <= n,
                n == self.entries.len(),
                r@.len() == j,
                forall|i: int| 0 <= i < j ==> #[trigger] r@[i] == self.entries@[i],
            decreases n - j,
        {
            r.push(self.entries[j].clone());
            j = j + 1;
        }
        proof {
            assert(r@.map_values(|e: ClipboardEntry| e@) =~= self@);
        }
        r
    }

    /// The most recent entries, newest first, at most `limit` of them.
    pub fn get_recent_entries(&self, limit: usize) -> (r: Vec<ClipboardEntry>)
        requires
            self.well_formed(),
        ensures
            ({
                let take = if (limit as int) <= self@.len() {
                    limit as int
                } else {
                    self@.len() as int
                };
                r@.map_values(|e: ClipboardEntry| e@) == self@.take(take)
            }),
    {
        let n = self.entries.len();
        let m = if limit < n {
            limit
        } else {
            n
        };
        let mut r: Vec<ClipboardEntry> = Vec::new();
        let mut j: usize = 0;
        while j < m
            invariant
                j <= m,
                m <= n,
                n == self.entries.len(),
                r@.len() == j,
                forall|i: int| 0 <= i < j ==> #[trigger] r@[i] == self.entries@[i],
            decreases m - j,
        {
            r.push(self.entries[j].clone());
            j = j + 1;
        }
        proof {
            assert(r@.map_values(|e: ClipboardEntry| e@) =~= self@.take(m as int));
        }
        r
    }

    /// Deletes the entry holding the given id. Exactly that one row leaves
    /// the log; a miss reports `NotFound` and changes nothing.
    pub fn delete_entry(&mut self, id: i64) -> (r: Result<i64, HistoryError>)
        requires
            old(self).well_formed(),
        ensures
            final(self).well_formed(),
            final(self).spec_next_id() == old(self).spec_next_id(),
            ({
                let at = index_of_id(old(self)@, id);
                if at >= 0 {
                    &&& r matches Ok(v) && v == id
                    &&& final(self)@ == old(self)@.remove(at)
                    &&& final(self)@.len() == old(self)@.len() - 1
                } else {
                    &&& r matches Err(x) && x == HistoryError::NotFound
                    &&& final(self)@ == old(self)@
                }
            }),
    {
        let ghost s0 = self@;
        let n = self.entries.len();
        let mut k: usize = n;
        let mut j: usize = 0;
        while j < n
            invariant
                j <= n,
                n == self.entries.len(),
                s0 == self@,
                k == n || (k < j && s0[k as int].id == Some(id)),
                forall|i: int| 0 <= i < j && i < k ==> (#[trigger] s0[i]).id != Some(id),
            decreases n - j,
        {
            if k == n {
                proof {
                    assert(s0[j as int]
                        == self.entries@.map_values(|x: ClipboardEntry| x@)[j as int]);
                }
                let matches_id: bool = match self.entries[j].id {
                    Some(v) => v == id,
                    None => false,
                };
                if matches_id {
                    k = j;
                }
            }
            j = j + 1;
        }
        proof {
            lemma_index_of_id_is_first(s0, id, k as int);
        }
        if k == n {
            return Err(HistoryError::NotFound);
        }
        self.entries.remove(k);
        proof {
            let s1 = self@;
            assert(s1 =~= s0.remove(k as int)) by {
                assert(self.entries@ == old(self).entries@.remove(k as int));
                assert forall|i: int| 0 <= i < s1.len() implies s1[i] == s0.remove(k as int)[i] by {
                    assert(s1[i] == self.entries@[i]@);
                    if i < k as int {
                        assert(self.entries@[i] == old(self).entries@[i]);
                    } else {
                        assert(self.entries@[i] == old(self).entries@[i + 1]);
                    }
                }
            }
            assert forall|i: int| 0 <= i < s1.len() implies ((#[trigger] s1[i]).id matches Some(
                v,
            ) && 1 <= v < self.next_id) by {
                if i < k as int {
                    assert(s1[i] == s0[i]);
                } else {
                    assert(s1[i] == s0[i + 1]);
                }
            }
            assert forall|i: int, j2: int| 0 <= i < j2 < s1.len() implies id_of(#[trigger] s1[i])
                != id_of(#[trigger] s1[j2]) && listing_before(s1[i], s1[j2]) by {
                let oi = if i < k as int {
                    i
                } else {
                    i + 1
                };
                let oj = if j2 < k as int {
                    j2
                } else {
                    j2 + 1
                };
                assert(s1[i] == s0[oi] && s1[j2] == s0[oj]);
            }
        }
        Ok(id)
    }

    /// Removes every entry; the log is empty afterwards, whatever it held.
    pub fn clear_all(&mut self)
        requires
            old(self).well_formed(),
        ensures
            final(self).well_formed(),
            final(self)@ == Seq::<EntryModel>::empty(),
            final(self).spec_next_id() == old(self).spec_next_id(),
    {
        self.entries.clear();
        proof {
            assert(self@ =~= Seq::<EntryModel>::empty());
        }
    }
}

/// An entry stamped strictly later than everything stored lands at the
/// front: appending it and listing the single most recent entry yields
/// exactly the appended entry.
pub proof fn lemma_fresh_append_is_most_recent(s: Seq<EntryModel>, e: EntryModel)
    requires
        forall|i: int| 0 <= i < s.len() ==> str_lt_spec((#[trigger] s[i]).created_at, e.created_at),
    ensures
        insertion_point(s, e) == 0,
        s.insert(0, e).take(1) == seq![e],
{
    if s.len() > 0 {
        assert(listing_before(e, s[0]));
    }
    assert(s.insert(0, e).take(1) =~= seq![e]);
}

} // verus!
