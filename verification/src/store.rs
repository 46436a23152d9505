//! The session store: an insert-once table from session identifiers to
//! their parsed entry sequences. Keys are never overwritten and never
//! removed; readers get borrowed views.
use vstd::prelude::*;

verus! {

use crate::parser::{Entry, EntryV};
use crate::text::str_eq;

/// First index at or after `i` whose pair carries the key `id`.
pub open spec fn find_key_from(t: Seq<(String, Vec<Entry>)>, id: Seq<char>, i: int) -> Option<int>
    decreases t.len() - i,
{
    if i < 0 || i >= t.len() {
        None
    } else if t[i].0@ == id {
        Some(i)
    } else {
        find_key_from(t, id, i + 1)
    }
}

pub proof fn lemma_find_key_from(t: Seq<(String, Vec<Entry>)>, id: Seq<char>, i: int)
    requires
        0 <= i <= t.len(),
    ensures
        match find_key_from(t, id, i) {
            Some(j) => i <= j < t.len() && t[j].0@ == id && forall|k: int|
                i <= k < j ==> (#[trigger] t[k]).0@ != id,
            None => forall|k: int| i <= k < t.len() ==> (#[trigger] t[k]).0@ != id,
        },
    decreases t.len() - i,
{
    if i < t.len() && t[i].0@ != id {
        lemma_find_key_from(t, id, i + 1);
    }
}

/// Appending a pair leaves earlier keys where they were and adds the new
/// key at the end when it was absent.
pub proof fn lemma_find_key_push(
    t: Seq<(String, Vec<Entry>)>,
    p: (String, Vec<Entry>),
    id: Seq<char>,
    i: int,
)
    requires
        0 <= i <= t.len(),
    ensures
        find_key_from(t.push(p), id, i) == match find_key_from(t, id, i) {
            Some(j) => Some(j),
            None => if p.0@ == id {
                Some(t.len() as int)
            } else {
                None
            },
        },
    decreases t.len() - i,
{
    assert(t.push(p).len() == t.len() + 1);
    assert(forall|k: int| 0 <= k < t.len() ==> t.push(p)[k] == t[k]);
    assert(t.push(p)[t.len() as int] == p);
    if i < t.len() && t[i].0@ != id {
        lemma_find_key_push(t, p, id, i + 1);
    }
}

/// The session table. One writer installs each key once; the table itself
/// does no locking — callers serialize access around it.
pub struct SessionStore {
    pub table: Vec<(String, Vec<Entry>)>,
}

impl SessionStore {
    /// Keys are unique.
    pub open spec fn wf(self) -> bool {
        forall|i: int, j: int|
            0 <= i < j < self.table@.len() ==> (#[trigger] self.table@[i]).0@ != (
            #[trigger] self.table@[j]).0@
    }

    /// The entries stored under a key, if any.
    pub open spec fn spec_get(self, id: Seq<char>) -> Option<Seq<EntryV>> {
        match find_key_from(self.table@, id, 0) {
            Some(i) => Some(self.table@[i].1.deep_view()),
            None => None,
        }
    }

    pub open spec fn spec_contains(self, id: Seq<char>) -> bool {
        find_key_from(self.table@, id, 0) is Some
    }

    /// An empty store.
    pub fn new() -> (r: Self)
        ensures
            r.wf(),
            r.table@.len() == 0,
            forall|id: Seq<char>| r.spec_get(id) is None,
    {
        SessionStore { table: Vec::new() }
    }

    /// Install a sequence under a fresh key. Returns `false`, changing
    /// nothing, when the key is already present: a key is written once.
    pub fn put(&mut self, session_id: String, entries: Vec<Entry>) -> (r: bool)
        requires
            old(self).wf(),
        ensures
            final(self).wf(),
            r == !old(self).spec_contains(session_id@),
            r ==> final(self).table@ == old(self).table@.push((session_id, entries)),
            !r ==> final(self).table@ == old(self).table@,
            r ==> final(self).spec_get(session_id@) == Some(entries.deep_view()),
            forall|other: Seq<char>|
                other != session_id@ ==> final(self).spec_get(other) == old(self).spec_get(other),
    {
        proof {
            lemma_find_key_from(self.table@, session_id@, 0);
        }
        if self.contains(&session_id) {
            return false;
        }
        let ghost old_table = self.table@;
        self.table.push((session_id, entries));
        proof {
            let pushed = self.table@;
            assert(pushed =~= old_table.push((session_id, entries)));
            lemma_find_key_push(old_table, (session_id, entries), session_id@, 0);
            assert forall|other: Seq<char>| other != session_id@ implies self.spec_get(other)
                == old(self).spec_get(other) by {
                lemma_find_key_push(old_table, (session_id, entries), other, 0);
                lemma_find_key_from(old_table, other, 0);
            }
            assert forall|i: int, j: int| 0 <= i < j < pushed.len() implies (
            #[trigger] pushed[i]).0@ != (#[trigger] pushed[j]).0@ by {
                if j == old_table.len() {
                    lemma_find_key_from(old_table, session_id@, 0);
                }
            }
        }
        true
    }

    /// Whether a key is present.
    pub fn contains(&self, session_id: &String) -> (r: bool)
        ensures
            r == self.spec_contains(session_id@),
    {
        match self.get(session_id) {
            Some(_) => true,
            None => false,
        }
    }

    /// Borrow the entries stored under a key.
    pub fn get<'a>(&'a self, session_id: &String) -> (r: Option<&'a Vec<Entry>>)
        ensures
            match r {
                Some(v) => self.spec_get(session_id@) == Some(v.deep_view()),
                None => self.spec_get(session_id@) is None,
            },
    {
        let n = self.table.len();
        let mut i: usize = 0;
        while i < n
            invariant
                0 <= i <= n,
                n == self.table@.len(),
                find_key_from(self.table@, session_id@, 0) == find_key_from(
                    self.table@,
                    session_id@,
                    i as int,
                ),
            decreases n - i,
        {
            if str_eq(self.table[i].0.as_str(), session_id.as_str()) {
                return Some(&self.table[i].1);
            }
            i = i + 1;
        }
        None
    }
}

} // verus!
