//! The store of open documents: a mapping from document identifier to
//! document state, with the session's counting convention fixed at creation.

use vstd::prelude::*;

use crate::buffer::str_eq;
use crate::codec::PositionEncodingKind;
use crate::document::{change_outcome, ChangeEvent, DocumentError, TextDocument};

verus! {

/// What a sequence of change events does to a text, applied in order: the
/// final text, paired with the first rejection if one occurs (later events
/// are then not applied).
pub open spec fn run_changes(
    enc: PositionEncodingKind,
    s: Seq<char>,
    events: Seq<ChangeEvent>,
) -> (Seq<char>, Result<(), DocumentError>)
    decreases events.len(),
{
    if events.len() == 0 {
        (s, Ok(()))
    } else {
        match change_outcome(enc, s, events[0].range, events[0].text@) {
            Ok(t) => run_changes(enc, t, events.drop_first()),
            Err(e) => (s, Err(e)),
        }
    }
}

/// All open documents of one session, each under its identifier.
pub struct DocumentStore {
    docs: Vec<(String, TextDocument)>,
    encoding: PositionEncodingKind,
}

impl DocumentStore {
    /// The counting convention this session was created with.
    pub closed spec fn spec_encoding(&self) -> PositionEncodingKind {
        self.encoding
    }

    /// Whether a document is open under this identifier.
    pub closed spec fn has_doc(&self, id: Seq<char>) -> bool {
        exists|i: int| 0 <= i < self.docs.len() && self.docs[i].0@ == id
    }

    pub closed spec fn doc_at(&self, id: Seq<char>) -> int {
        choose|i: int| 0 <= i < self.docs.len() && self.docs[i].0@ == id
    }

    /// The buffer content of the document open under this identifier.
    pub closed spec fn doc_text(&self, id: Seq<char>) -> Seq<char> {
        self.docs[self.doc_at(id)].1.text_view()
    }

    /// Identifiers are unique and every document is internally consistent.
    pub closed spec fn wf(&self) -> bool {
        (forall|i: int, j: int|
            0 <= i < j < self.docs.len() ==> self.docs[i].0@ != self.docs[j].0@) && (forall|i: int|
            0 <= i < self.docs.len() ==> (#[trigger] self.docs[i].1).wf())
    }

    proof fn lemma_doc_at(&self, i: int, id: Seq<char>)
        requires
            self.wf(),
            0 <= i < self.docs.len(),
            self.docs[i].0@ == id,
        ensures
            self.has_doc(id),
            self.doc_at(id) == i,
            self.doc_text(id) == self.docs[i].1.text_view(),
    {
        assert(self.has_doc(id));
        let j = self.doc_at(id);
        if j < i {
            assert(self.docs[j].0@ != self.docs[i].0@);
        } else if j > i {
            assert(self.docs[i].0@ != self.docs[j].0@);
        }
    }

    /// Creates the store for one session, empty, with the negotiated
    /// counting convention.
    pub fn new(encoding: PositionEncodingKind) -> (r: DocumentStore)
        ensures
            r.wf(),
            r.spec_encoding() == encoding,
            forall|id: Seq<char>| !r.has_doc(id),
    {
        DocumentStore { docs: Vec::new(), encoding }
    }

    fn find_index(&self, id: &str) -> (r: Option<usize>)
        ensures
            match r {
                Some(i) => i < self.docs.len() && self.docs[i as int].0@ == id@,
                None => !self.has_doc(id@),
            },
    {
        let mut i: usize = 0;
        while i < self.docs.len()
            invariant
                i <= self.docs.len(),
                forall|j: int| 0 <= j < i ==> self.docs[j].0@ != id@,
            decreases self.docs.len() - i,
        {
            if str_eq(self.docs[i].0.as_str(), id) {
                return Some(i);
            }
            i = i + 1;
        }
        None
    }

    /// Opens a document: creates a fresh document state for `id` from
    /// `text`, replacing any prior entry for the same identifier.
    pub fn open(&mut self, id: &str, text: &str)
        requires
            old(self).wf(),
        ensures
            final (self).wf(),
            final (self).spec_encoding() == old(self).spec_encoding(),
            final (self).has_doc(id@),
            final (self).doc_text(id@) == text@,
            forall|k: Seq<char>|
                k != id@ ==> (final (self).has_doc(k) <==> old(self).has_doc(k)),
            forall|k: Seq<char>|
                k != id@ && old(self).has_doc(k) ==> final (self).doc_text(k) == old(
                    self,
                ).doc_text(k),
    {
        let doc = TextDocument::new(text);
        self.close(id);
        let ghost mid = *self;
        self.docs.push((id.to_owned(), doc));
        proof {
            let n = mid.docs.len() as int;
            assert(self.docs[n].0@ == id@);
            assert forall|i: int, j: int|
                0 <= i < j < self.docs.len() implies self.docs[i].0@ != self.docs[j].0@ by {
                if j < n {
                    assert(mid.docs[i].0@ != mid.docs[j].0@);
                } else {
                    assert(!mid.has_doc(id@));
                    assert(mid.docs[i].0@ != id@);
                }
            }
            assert forall|i: int| 0 <= i < self.docs.len() implies (#[trigger] self.docs[i].1).wf()
                by {
                if i < n {
                    assert(mid.docs[i].1.wf());
                }
            }
            self.lemma_doc_at(n, id@);
            assert forall|k: Seq<char>| k != id@ implies (self.has_doc(k) <==> mid.has_doc(k)) by {
                if self.has_doc(k) {
                    let i = choose|i: int|
                        0 <= i < self.docs.len() && self.docs[i].0@ == k;
                    assert(i < n && mid.docs[i].0@ == k);
                }
                if mid.has_doc(k) {
                    let i = choose|i: int| 0 <= i < mid.docs.len() && mid.docs[i].0@ == k;
                    assert(self.docs[i].0@ == k);
                }
            }
            assert forall|k: Seq<char>| k != id@ && mid.has_doc(k) implies self.doc_text(k)
                == mid.doc_text(k) by {
                let i = choose|i: int| 0 <= i < mid.docs.len() && mid.docs[i].0@ == k;
                mid.lemma_doc_at(i, k);
                self.lemma_doc_at(i, k);
            }
        }
    }

    /// Closes a document: removes the entry for `id` when present and does
    /// nothing otherwise, so closing an unknown identifier is a no-op.
    pub fn close(&mut self, id: &str)
        requires
            old(self).wf(),
        ensures
            final (self).wf(),
            final (self).spec_encoding() == old(self).spec_encoding(),
            !final (self).has_doc(id@),
            !old(self).has_doc(id@) ==> *final (self) == *old(self),
            forall|k: Seq<char>|
                k != id@ ==> (final (self).has_doc(k) <==> old(self).has_doc(k)),
            forall|k: Seq<char>|
                k != id@ && old(self).has_doc(k) ==> final (self).doc_text(k) == old(
                    self,
                ).doc_text(k),
    {
        let idx = match self.find_index(id) {
            Some(i) => i,
            None => {
                return ;
            },
        };
        let ghost pre = *self;
        let _removed = self.docs.remove(idx);
        proof {
            let n = self.docs.len() as int;
            let at = idx as int;
            assert forall|i: int, j: int|
                0 <= i < j < n implies self.docs[i].0@ != self.docs[j].0@ by {
                let oi = if i < at { i } else { i + 1 };
                let oj = if j < at { j } else { j + 1 };
                assert(pre.docs[oi].0@ != pre.docs[oj].0@);
            }
            assert forall|i: int| 0 <= i < n implies (#[trigger] self.docs[i].1).wf() by {
                let oi = if i < at { i } else { i + 1 };
                assert(pre.docs[oi].1.wf());
            }
            assert forall|i: int| 0 <= i < n implies self.docs[i].0@ != id@ by {
                let oi = if i < at { i } else { i + 1 };
                assert(pre.docs[oi].0@ != pre.docs[at].0@);
            }
            assert forall|k: Seq<char>| k != id@ implies (self.has_doc(k) <==> pre.has_doc(k)) by {
                if self.has_doc(k) {
                    let i = choose|i: int| 0 <= i < n && self.docs[i].0@ == k;
                    let oi = if i < at { i } else { i + 1 };
                    assert(pre.docs[oi].0@ == k);
                }
                if pre.has_doc(k) {
                    let i = choose|i: int|
                        0 <= i < pre.docs.len() && pre.docs[i].0@ == k;
                    assert(i != at);
                    let ni = if i < at { i } else { i - 1 };
                    assert(self.docs[ni].0@ == k);
                }
            }
            assert forall|k: Seq<char>| k != id@ && pre.has_doc(k) implies self.doc_text(k)
                == pre.doc_text(k) by {
                let i = choose|i: int| 0 <= i < pre.docs.len() && pre.docs[i].0@ == k;
                assert(i != at);
                let ni = if i < at { i } else { i - 1 };
                pre.lemma_doc_at(i, k);
                self.lemma_doc_at(ni, k);
            }
        }
    }

    /// Routes a list of change events to the document open under `id`,
    /// applying them in order, each against the buffer the previous one
    /// left. A change for an identifier that is not open is silently
    /// ignored. The first rejected event stops the sequence and its error
    /// is returned; events before it remain applied.
    pub fn change(&mut self, id: &str, events: Vec<ChangeEvent>) -> (r: Result<(), DocumentError>)
        requires
            old(self).wf(),
        ensures
            final (self).wf(),
            final (self).spec_encoding() == old(self).spec_encoding(),
            !old(self).has_doc(id@) ==> *final (self) == *old(self) && r is Ok,
            old(self).has_doc(id@) ==> final (self).has_doc(id@) && final (self).doc_text(id@)
                == run_changes(old(self).spec_encoding(), old(self).doc_text(id@), events@).0 && r
                == run_changes(old(self).spec_encoding(), old(self).doc_text(id@), events@).1,
            forall|k: Seq<char>|
                k != id@ ==> (final (self).has_doc(k) <==> old(self).has_doc(k)),
            forall|k: Seq<char>|
                k != id@ && old(self).has_doc(k) ==> final (self).doc_text(k) == old(
                    self,
                ).doc_text(k),
    {
        let mut events = events;
        let idx = match self.find_index(id) {
            Some(i) => i,
            None => {
                return Ok(());
            },
        };
        let ghost pre = *self;
        proof {
            pre.lemma_doc_at(idx as int, id@);
        }
        let mut pair = self.docs.remove(idx);
        let ghost mid = *self;
        let ghost t0 = pair.1.text_view();
        let ghost evs0 = events@;
        let enc = self.encoding;
        let mut result: Result<(), DocumentError> = Ok(());
        while events.len() > 0 && result.is_ok()
            invariant
                pair.0@ == id@,
                pair.1.wf(),
                *self == mid,
                enc == mid.encoding,
                result is Ok ==> result == Ok::<(), DocumentError>(()),
                match result {
                    Ok(_) => run_changes(enc, t0, evs0) == run_changes(
                        enc,
                        pair.1.text_view(),
                        events@,
                    ),
                    Err(e) => run_changes(enc, t0, evs0) == (
                        pair.1.text_view(),
                        Err::<(), DocumentError>(e),
                    ),
                },
            decreases events.len(),
        {
            let ghost evs_before = events@;
            let ev = events.remove(0);
            proof {
                assert(evs_before.drop_first() =~= events@);
            }
            match pair.1.apply_content_change(ev, enc) {
                Ok(_) => {},
                Err(e) => {
                    result = Err(e);
                },
            }
        }
        proof {
            if events@.len() == 0 && result is Ok {
                assert(run_changes(enc, pair.1.text_view(), events@) == (
                    pair.1.text_view(),
                    Ok::<(), DocumentError>(()),
                ));
            }
        }
        let ghost fin_doc = pair.1;
        self.docs.push(pair);
        proof {
            let n = mid.docs.len() as int;
            assert(self.docs[n].0@ == id@);
            assert forall|i: int, j: int|
                0 <= i < j < self.docs.len() implies self.docs[i].0@ != self.docs[j].0@ by {
                if j < n {
                    assert(mid.docs[i].0@ != mid.docs[j].0@);
                } else {
                    assert(mid.docs[i].0@ != id@);
                }
            }
            assert forall|i: int| 0 <= i < self.docs.len() implies (#[trigger] self.docs[i].1).wf()
                by {
                if i < n {
                    assert(mid.docs[i].1.wf());
                }
            }
            self.lemma_doc_at(n, id@);
            assert forall|k: Seq<char>| k != id@ implies (self.has_doc(k) <==> pre.has_doc(k)) by {
                if self.has_doc(k) {
                    let i = choose|i: int|
                        0 <= i < self.docs.len() && self.docs[i].0@ == k;
                    assert(i < n && mid.docs[i].0@ == k);
                    let oi = if i < idx as int { i } else { i + 1 };
                    assert(pre.docs[oi].0@ == k);
                }
                if pre.has_doc(k) {
                    let i = choose|i: int|
                        0 <= i < pre.docs.len() && pre.docs[i].0@ == k;
                    assert(i != idx as int);
                    let ni = if i < idx as int { i } else { i - 1 };
                    assert(self.docs[ni].0@ == k);
                }
            }
            assert forall|k: Seq<char>| k != id@ && pre.has_doc(k) implies self.doc_text(k)
                == pre.doc_text(k) by {
                let i = choose|i: int| 0 <= i < pre.docs.len() && pre.docs[i].0@ == k;
                assert(i != idx as int);
                let ni = if i < idx as int { i } else { i - 1 };
                pre.lemma_doc_at(i, k);
                self.lemma_doc_at(ni, k);
            }
            if result is Ok {
                assert(events@.len() == 0);
                assert(run_changes(enc, t0, evs0) == run_changes(enc, fin_doc.text_view(), events@));
            }
        }
        result
    }

    /// The document open under `id`, if any.
    pub fn get(&self, id: &str) -> (r: Option<&TextDocument>)
        requires
            self.wf(),
        ensures
            match r {
                Some(d) => self.has_doc(id@) && d.text_view() == self.doc_text(id@) && d.wf(),
                None => !self.has_doc(id@),
            },
    {
        let idx = match self.find_index(id) {
            Some(i) => i,
            None => {
                return None;
            },
        };
        proof {
            self.lemma_doc_at(idx as int, id@);
        }
        Some(&self.docs[idx].1)
    }
}

} // verus!
