//! A pipe: a named, append-only log of messages and the set of clients that
//! subscribe to it.

use vstd::prelude::*;
use crate::msg::{msg_views, Msg, MsgView};
use crate::order::same_text;
use crate::seqs::lemma_push_new;

verus! {

/// What a pipe is, as plain values.
pub struct PipeView {
    pub name: Seq<char>,
    pub msgs: Seq<MsgView>,
    pub subs: Set<Seq<char>>,
}

impl PipeView {
    /// The pipe of this name that holds nothing and has no subscriber.
    pub open spec fn empty(name: Seq<char>) -> PipeView {
        PipeView { name, msgs: Seq::empty(), subs: Set::empty() }
    }

    /// The pipe with `m` appended to its log.
    pub open spec fn with_msg(self, m: MsgView) -> PipeView {
        PipeView { msgs: self.msgs.push(m), ..self }
    }

    /// The pipe with `client` among its subscribers.
    pub open spec fn with_sub(self, client: Seq<char>) -> PipeView {
        PipeView { subs: self.subs.insert(client), ..self }
    }

    /// The pipe without `client` among its subscribers.
    pub open spec fn without_sub(self, client: Seq<char>) -> PipeView {
        PipeView { subs: self.subs.remove(client), ..self }
    }

    /// What the pipe holds for `client`: the whole log for a subscriber,
    /// nothing for anyone else.
    pub open spec fn offered_to(self, client: Seq<char>) -> Seq<MsgView> {
        if self.subs.contains(client) {
            self.msgs
        } else {
            Seq::empty()
        }
    }
}

/// A named log of messages with its subscribers. The subscribers are kept in
/// a vector in which no client occurs twice.
#[derive(Debug)]
pub struct Pipe {
    name: String,
    msgs: Vec<Msg>,
    subs: Vec<String>,
}

impl View for Pipe {
    type V = PipeView;

    closed spec fn view(&self) -> PipeView {
        PipeView { name: self.name@, msgs: msg_views(self.msgs@), subs: self.sub_seq().to_set() }
    }
}

impl Clone for Pipe {
    fn clone(&self) -> (p: Self)
        ensures
            p@ == self@,
            self.wf() ==> p.wf(),
    {
        let p = Pipe { name: self.name.clone(), msgs: self.msgs.clone(), subs: self.subs.clone() };
        assert(p.sub_seq() =~= self.sub_seq());
        assert(msg_views(p.msgs@) =~= msg_views(self.msgs@));
        p
    }
}

impl Pipe {
    spec fn sub_seq(&self) -> Seq<Seq<char>> {
        self.subs@.map_values(|s: String| s@)
    }

    /// No subscriber is recorded twice.
    pub closed spec fn wf(&self) -> bool {
        self.sub_seq().no_duplicates()
    }

    /// What holds of every pipe: its subscribers are finitely many.
    pub proof fn lemma_invariants(&self)
        ensures
            self@.subs.finite(),
    {
    }

    /// A new pipe called `name`: no message, no subscriber.
    pub fn new(name: &str) -> (p: Self)
        ensures
            p.wf(),
            p@ == PipeView::empty(name@),
    {
        let p = Pipe { name: name.to_owned(), msgs: Vec::new(), subs: Vec::new() };
        assert(p.sub_seq() =~= Seq::empty());
        assert(p@.subs =~= Set::empty());
        assert(p@.msgs =~= Seq::empty());
        p
    }

    /// The pipe's name.
    pub fn name(&self) -> (r: &str)
        ensures
            r@ == self@.name,
    {
        self.name.as_str()
    }

    /// Appends `msg` to the log and returns its identifier.
    pub fn post(&mut self, msg: Msg) -> (id: String)
        requires
            old(self).wf(),
        ensures
            final(self).wf(),
            final(self)@ == old(self)@.with_msg(msg@),
            id@ == msg@.id,
    {
        let id = msg.id.clone();
        self.msgs.push(msg);
        assert(msg_views(self.msgs@) =~= msg_views(old(self).msgs@).push(msg@));
        id
    }

    /// Whether `client_id` subscribes to this pipe.
    pub fn has_sub(&self, client_id: &String) -> (r: bool)
        ensures
            r == self@.subs.contains(client_id@),
    {
        self.find_sub(client_id.as_str()).is_some()
    }

    /// Makes `client_id` a subscriber. Nothing changes if it is one already.
    pub fn sub(&mut self, client_id: &str)
        requires
            old(self).wf(),
        ensures
            final(self).wf(),
            final(self)@ == old(self)@.with_sub(client_id@),
    {
        if self.find_sub(client_id).is_none() {
            self.subs.push(client_id.to_owned());
            assert(self.sub_seq() =~= old(self).sub_seq().push(client_id@));
            proof {
                lemma_push_new(old(self).sub_seq(), client_id@);
            }
        } else {
            assert(self@.subs =~= old(self)@.subs.insert(client_id@));
        }
    }

    /// Takes `client_id` out of the subscribers. Nothing changes if it is
    /// none.
    pub fn unsub(&mut self, client_id: &str)
        requires
            old(self).wf(),
        ensures
            final(self).wf(),
            final(self)@ == old(self)@.without_sub(client_id@),
    {
        match self.find_sub(client_id) {
            Some(i) => {
                self.subs.remove(i);
                assert(self.sub_seq() =~= old(self).sub_seq().remove(i as int));
                assert(self@.subs =~= old(self)@.subs.remove(client_id@)) by {
                    let before = old(self).sub_seq();
                    let after = self.sub_seq();
                    assert forall|c: Seq<char>| after.contains(c) <==> before.contains(c) && c
                        != client_id@ by {
                        if after.contains(c) {
                            let j = choose|j: int| 0 <= j < after.len() && after[j] == c;
                            if j < i {
                                assert(before[j] == c);
                            } else {
                                assert(before[j + 1] == c);
                            }
                        }
                        if before.contains(c) && c != client_id@ {
                            let j = choose|j: int| 0 <= j < before.len() && before[j] == c;
                            if j < i {
                                assert(after[j] == c);
                            } else {
                                assert(after[j - 1] == c);
                            }
                        }
                    }
                }
            },
            None => {
                assert(self@.subs =~= old(self)@.subs.remove(client_id@));
            },
        }
    }

    /// The whole log, for a subscriber: `None` if `client_id` does not
    /// subscribe or the log is empty. What the client has acknowledged is not
    /// looked at here.
    pub fn fetch(&self, client_id: &String) -> (r: Option<Vec<Msg>>)
        ensures
            match r {
                Some(v) => self@.subs.contains(client_id@) && v.len() > 0 && msg_views(v@)
                    == self@.msgs,
                None => !self@.subs.contains(client_id@) || self@.msgs.len() == 0,
            },
    {
        if self.msgs.is_empty() {
            return None;
        }
        if !self.has_sub(client_id) {
            return None;
        }
        let mut out: Vec<Msg> = Vec::new();
        let mut i: usize = 0;
        while i < self.msgs.len()
            invariant
                i <= self.msgs.len(),
                out.len() == i,
                forall|j: int| 0 <= j < i ==> out[j]@ == self.msgs[j]@,
            decreases self.msgs.len() - i,
        {
            out.push(self.msgs[i].clone());
            i += 1;
        }
        assert(msg_views(out@) =~= self@.msgs);
        Some(out)
    }

    /// How many clients subscribe.
    pub fn sub_count(&self) -> (n: usize)
        requires
            self.wf(),
        ensures
            n == self@.subs.len(),
    {
        proof {
            self.sub_seq().unique_seq_to_set();
        }
        self.subs.len()
    }

    /// How many messages the log holds.
    pub fn msg_count(&self) -> (n: usize)
        ensures
            n == self@.msgs.len(),
    {
        self.msgs.len()
    }

    /// The place of `client_id` among the recorded subscribers.
    fn find_sub(&self, client_id: &str) -> (r: Option<usize>)
        ensures
            match r {
                Some(i) => i < self.subs.len() && self.sub_seq()[i as int] == client_id@,
                None => !self@.subs.contains(client_id@),
            },
    {
        let mut i: usize = 0;
        while i < self.subs.len()
            invariant
                i <= self.subs.len(),
                forall|j: int| 0 <= j < i ==> self.sub_seq()[j] != client_id@,
            decreases self.subs.len() - i,
        {
            if same_text(self.subs[i].as_str(), client_id) {
                return Some(i);
            }
            i += 1;
        }
        None
    }
}

} // verus!
