//! The broker: the registry of pipes, kept in the order of their names, and
//! the table of acknowledgments.

use vstd::prelude::*;
use crate::error::BrokerError;
use crate::msg::{is_random_id, msg_views, Msg, MsgView};
use crate::model::{
    candidates, is_place_of, lemma_candidates_push, lemma_unacked_push, msgs_at_home, unacked,
    BrokerView,
};
use crate::order::{name_before, name_lt, same_text};
use crate::pipe::{Pipe, PipeView};
use crate::seqs::lemma_push_new;

verus! {

/// One acknowledgment: this client has consumed this message.
#[derive(Debug)]
struct Ack {
    msg_id: String,
    client_id: String,
}

impl Ack {
    spec fn pair(&self) -> (Seq<char>, Seq<char>) {
        (self.msg_id@, self.client_id@)
    }
}

/// The registry of pipes and the table of acknowledgments. The pipes are kept
/// in a vector in the strict order of their names, so that no name occurs
/// twice; the acknowledgments in a vector in which no pair occurs twice.
#[derive(Debug)]
pub struct Broker {
    pipes: Vec<Pipe>,
    acked: Vec<Ack>,
}

impl View for Broker {
    type V = BrokerView;

    closed spec fn view(&self) -> BrokerView {
        BrokerView { pipes: self.pipe_seq(), acks: self.ack_seq().to_set() }
    }
}

impl Clone for Broker {
    fn clone(&self) -> (b: Self)
        ensures
            b@ == self@,
            self.wf() ==> b.wf(),
    {
        let mut acked: Vec<Ack> = Vec::new();
        let mut i: usize = 0;
        while i < self.acked.len()
            invariant
                i <= self.acked.len(),
                acked.len() == i,
                forall|j: int| 0 <= j < i ==> acked[j].pair() == self.acked[j].pair(),
            decreases self.acked.len() - i,
        {
            let a = &self.acked[i];
            acked.push(Ack { msg_id: a.msg_id.clone(), client_id: a.client_id.clone() });
            i += 1;
        }
        let b = Broker { pipes: self.pipes.clone(), acked };
        assert(b.pipe_seq() =~= self.pipe_seq());
        assert(b.ack_seq() =~= self.ack_seq());
        b
    }
}

impl Default for Broker {
    fn default() -> (b: Self)
        ensures
            b.wf(),
            b@ == BrokerView::empty(),
    {
        Broker::new()
    }
}

impl Broker {
    spec fn pipe_seq(&self) -> Seq<PipeView> {
        self.pipes@.map_values(|p: Pipe| p@)
    }

    spec fn ack_seq(&self) -> Seq<(Seq<char>, Seq<char>)> {
        self.acked@.map_values(|a: Ack| a.pair())
    }

    /// The representation is sound, and what it stands for is well formed.
    pub closed spec fn wf(&self) -> bool {
        &&& forall|i: int| 0 <= i < self.pipes.len() ==> (#[trigger] self.pipes[i]).wf()
        &&& self.ack_seq().no_duplicates()
        &&& self@.wf()
    }

    /// After the pipe at place `i` alone was changed, in a way that keeps
    /// its name and its messages at home, the broker is well formed and
    /// stands for the registry with that pipe changed.
    proof fn lemma_changed(&self, before: &Broker, i: int, change: spec_fn(PipeView) -> PipeView)
        requires
            before.wf(),
            0 <= i < before.pipes.len(),
            self.pipes@ == before.pipes@.update(i, self.pipes[i]),
            self.pipes[i].wf(),
            self.pipes[i]@ == change(before.pipes[i]@),
            self.pipes[i]@.name == before.pipes[i]@.name,
            msgs_at_home(self.pipes[i]@),
            self.acked == before.acked,
        ensures
            self.wf(),
            self@ == before@.change_pipe(before@.pipes[i].name, change),
    {
        let name = before@.pipes[i].name;
        let q = self.pipes[i]@;
        before@.lemma_change_at(i, name, change);
        assert(self.pipe_seq() =~= before.pipe_seq().update(i, q));
        before@.lemma_update_wf(i, q);
        assert(self@.pipes == before@.pipes.update(i, q));
        assert(self@.acks == before@.acks);
        assert forall|j: int| 0 <= j < self.pipes.len() implies (#[trigger] self.pipes[j]).wf() by {
            if j != i {
                assert(self.pipes[j] == before.pipes[j]);
            }
        }
    }

    /// What holds of every well-formed broker: its pipes stand in the strict
    /// order of their names, so that no two bear the same name; each message
    /// lies in the pipe that it names; and the acknowledgments are finitely
    /// many.
    pub proof fn lemma_invariants(&self)
        requires
            self.wf(),
        ensures
            self@.wf(),
            self@.acks.finite(),
            forall|i: int, j: int|
                0 <= i < j < self@.pipes.len() ==> (#[trigger] self@.pipes[i]).name != (
                #[trigger] self@.pipes[j]).name,
    {
        assert forall|i: int, j: int| 0 <= i < j < self@.pipes.len() implies (
        #[trigger] self@.pipes[i]).name != (#[trigger] self@.pipes[j]).name by {
            if self@.pipes[i].name == self@.pipes[j].name {
                self@.lemma_names_distinct(i, j);
            }
        }
    }

    /// A broker without pipes.
    pub fn new() -> (b: Self)
        ensures
            b.wf(),
            b@ == BrokerView::empty(),
    {
        let b = Broker { pipes: Vec::new(), acked: Vec::new() };
        assert(b.pipe_seq() =~= Seq::empty());
        assert(b.ack_seq() =~= Seq::empty());
        assert(b@.acks =~= Set::empty());
        b
    }

    /// Registers an empty pipe called `name`. A pipe that bore the name
    /// before is replaced: its log and its subscribers are gone.
    pub fn new_pipe(&mut self, name: &str)
        requires
            old(self).wf(),
        ensures
            final(self).wf(),
            final(self)@ == old(self)@.create(name@),
    {
        let mut k: usize = 0;
        while k < self.pipes.len() && name_before(self.pipes[k].name(), name)
            invariant
                k <= self.pipes.len(),
                forall|j: int| 0 <= j < k ==> name_lt((#[trigger] self@.pipes[j]).name, name@),
            decreases self.pipes.len() - k,
        {
            k += 1;
        }
        proof {
            assert(is_place_of(self@.pipes, k as int, name@));
            self@.lemma_create_at(k as int, name@);
        }
        let p = Pipe::new(name);
        if k < self.pipes.len() && same_text(self.pipes[k].name(), name) {
            self.pipes[k] = p;
            assert(self.pipe_seq() =~= old(self).pipe_seq().update(k as int, p@));
        } else {
            self.pipes.insert(k, p);
            assert(self.pipe_seq() =~= old(self).pipe_seq().insert(k as int, p@));
        }
        assert(self@.pipes == old(self)@.create(name@).pipes);
        assert(self@.acks == old(self)@.acks);
        assert forall|j: int| 0 <= j < self.pipes.len() implies (#[trigger] self.pipes[j]).wf() by {
            if j < k {
                assert(self.pipes[j] == old(self).pipes[j]);
            } else if j > k {
                assert(self.pipes[j] == old(self).pipes[j] || self.pipes[j] == old(self).pipes[j
                    - 1]);
            }
        }
    }

    /// How many pipes are registered.
    pub fn pipe_count(&self) -> (n: usize)
        ensures
            n == self@.pipes.len(),
    {
        self.pipes.len()
    }

    /// Whether a pipe called `name` is registered.
    pub fn has_pipe(&self, name: &str) -> (r: bool)
        ensures
            r == self@.has_pipe(name@),
    {
        self.find_pipe(name).is_some()
    }

    /// Makes `client_id` a subscriber of the pipe called `pipe_name`.
    pub fn sub(&mut self, pipe_name: &str, client_id: &str) -> (r: Result<(), BrokerError>)
        requires
            old(self).wf(),
        ensures
            final(self).wf(),
            old(self)@.has_pipe(pipe_name@) ==> ({
                &&& r == Ok::<(), BrokerError>(())
                &&& final(self)@ == old(self)@.sub(pipe_name@, client_id@)
            }),
            !old(self)@.has_pipe(pipe_name@) ==> ({
                &&& r == Err::<(), BrokerError>(BrokerError::NotFound)
                &&& final(self)@ == old(self)@
            }),
    {
        match self.find_pipe(pipe_name) {
            Some(i) => {
                self.pipes[i].sub(client_id);
                proof {
                    let change = |p: PipeView| p.with_sub(client_id@);
                    self.lemma_changed(old(self), i as int, change);
                }
                Ok(())
            },
            None => Err(BrokerError::NotFound),
        }
    }

    /// Takes `client_id` out of the subscribers of the pipe called
    /// `pipe_name`.
    pub fn unsub(&mut self, pipe_name: &str, client_id: &str) -> (r: Result<(), BrokerError>)
        requires
            old(self).wf(),
        ensures
            final(self).wf(),
            old(self)@.has_pipe(pipe_name@) ==> ({
                &&& r == Ok::<(), BrokerError>(())
                &&& final(self)@ == old(self)@.unsub(pipe_name@, client_id@)
            }),
            !old(self)@.has_pipe(pipe_name@) ==> ({
                &&& r == Err::<(), BrokerError>(BrokerError::NotFound)
                &&& final(self)@ == old(self)@
            }),
    {
        match self.find_pipe(pipe_name) {
            Some(i) => {
                self.pipes[i].unsub(client_id);
                proof {
                    let change = |p: PipeView| p.without_sub(client_id@);
                    self.lemma_changed(old(self), i as int, change);
                }
                Ok(())
            },
            None => Err(BrokerError::NotFound),
        }
    }

    /// Posts `payload` to the pipe called `pipe_name`, as a new message with a
    /// fresh identifier and the current time, and returns the identifier.
    pub fn post(&mut self, pipe_name: &str, payload: &str) -> (r: Result<String, BrokerError>)
        requires
            old(self).wf(),
        ensures
            final(self).wf(),
            !old(self)@.has_pipe(pipe_name@) ==> ({
                &&& r == Err::<String, BrokerError>(BrokerError::NotFound)
                &&& final(self)@ == old(self)@
            }),
            old(self)@.has_pipe(pipe_name@) ==> ({
                let m = final(self)@.pipe(pipe_name@).msgs.last();
                &&& r is Ok
                &&& final(self)@ == old(self)@.post(m)
                &&& m.id == r->Ok_0@
                &&& m.payload == payload@
                &&& m.pipe_name == pipe_name@
                &&& is_random_id(m.id)
                &&& m.timestamp.nanos < 1_000_000_000
            }),
    {
        if !self.has_pipe(pipe_name) {
            return Err(BrokerError::NotFound);
        }
        let msg = Msg::new(payload, pipe_name);
        let r = self.post_msg(msg);
        proof {
            let i = choose|i: int|
                0 <= i < old(self)@.pipes.len() && (#[trigger] old(self)@.pipes[i]).name
                    == pipe_name@;
            old(self)@.lemma_change_at(i, pipe_name@, |p: PipeView| p.with_msg(msg@));
            self@.lemma_pipe_at(i);
        }
        r
    }

    /// Appends `msg` to the pipe that it names and returns its identifier.
    pub fn post_msg(&mut self, msg: Msg) -> (r: Result<String, BrokerError>)
        requires
            old(self).wf(),
        ensures
            final(self).wf(),
            old(self)@.has_pipe(msg@.pipe_name) ==> ({
                &&& r is Ok
                &&& r->Ok_0@ == msg@.id
                &&& final(self)@ == old(self)@.post(msg@)
            }),
            !old(self)@.has_pipe(msg@.pipe_name) ==> ({
                &&& r == Err::<String, BrokerError>(BrokerError::NotFound)
                &&& final(self)@ == old(self)@
            }),
    {
        match self.find_pipe(msg.pipe_name()) {
            Some(i) => {
                let ghost m = msg@;
                let id = self.pipes[i].post(msg);
                proof {
                    let change = |p: PipeView| p.with_msg(m);
                    let q = change(old(self)@.pipes[i as int]);
                    assert forall|k: int| 0 <= k < q.msgs.len() implies (
                    #[trigger] q.msgs[k]).pipe_name == q.name by {
                        if k < q.msgs.len() - 1 {
                            assert(q.msgs[k] == old(self)@.pipes[i as int].msgs[k]);
                        }
                    }
                    self.lemma_changed(old(self), i as int, change);
                }
                Ok(id)
            },
            None => Err(BrokerError::NotFound),
        }
    }

    /// The messages that `client_id` is to receive: for each pipe it
    /// subscribes to, in the order of the pipes' names, the log in the order
    /// of posting, without the messages that the client has acknowledged.
    /// `None` says that there is none.
    pub fn fetch(&self, client_id: &str) -> (r: Option<Vec<Msg>>)
        ensures
            match r {
                Some(v) => v.len() > 0 && msg_views(v@) == self@.fetch(client_id@),
                None => self@.fetch(client_id@).len() == 0,
            },
    {
        let client = client_id.to_owned();
        let mut all: Vec<Msg> = Vec::new();
        let mut i: usize = 0;
        assert(self@.pipes.take(0) =~= Seq::empty());
        assert(msg_views(all@) =~= candidates(Seq::empty(), client@));
        while i < self.pipes.len()
            invariant
                i <= self.pipes.len(),
                client@ == client_id@,
                msg_views(all@) == candidates(self@.pipes.take(i as int), client@),
            decreases self.pipes.len() - i,
        {
            let ghost before = all@;
            let ghost p = self@.pipes[i as int];
            if self.pipes[i].has_sub(&client) {
                match self.pipes[i].fetch(&client) {
                    Some(mut v) => {
                        let ghost more = v@;
                        all.append(&mut v);
                        assert(msg_views(all@) =~= msg_views(before) + msg_views(more));
                    },
                    None => {
                        assert(p.offered_to(client@) =~= Seq::empty());
                    },
                }
            }
            proof {
                assert(msg_views(all@) =~= msg_views(before) + p.offered_to(client@));
                assert(self@.pipes.take(i + 1) =~= self@.pipes.take(i as int).push(p));
                lemma_candidates_push(self@.pipes.take(i as int), p, client@);
            }
            i += 1;
        }
        assert(self@.pipes.take(i as int) =~= self@.pipes);
        let mut out: Vec<Msg> = Vec::new();
        let mut j: usize = 0;
        assert(msg_views(all@).take(0) =~= Seq::empty());
        assert(msg_views(out@) =~= Seq::empty());
        assert(unacked(Seq::empty(), self@.acks, client_id@) =~= Seq::empty()) by {
            reveal(Seq::filter);
        }
        while j < all.len()
            invariant
                j <= all.len(),
                msg_views(out@) == unacked(msg_views(all@).take(j as int), self@.acks, client_id@),
            decreases all.len() - j,
        {
            let ghost before = out@;
            let ghost m = all@[j as int]@;
            proof {
                assert(msg_views(all@).take(j + 1) =~= msg_views(all@).take(j as int).push(m));
                lemma_unacked_push(msg_views(all@).take(j as int), m, self@.acks, client_id@);
            }
            if !self.was_consumed(all[j].id(), client_id) {
                out.push(all[j].clone());
                assert(msg_views(out@) =~= msg_views(before).push(m));
            }
            j += 1;
        }
        assert(msg_views(all@).take(j as int) =~= msg_views(all@));
        if out.is_empty() {
            None
        } else {
            Some(out)
        }
    }

    /// Records that `client_id` has consumed the message `msg_id`. Neither is
    /// looked up: any pair is taken, and taking it again changes nothing.
    pub fn consumed_ack(&mut self, msg_id: &str, client_id: &str) -> (r: Result<(), BrokerError>)
        requires
            old(self).wf(),
        ensures
            final(self).wf(),
            r == Ok::<(), BrokerError>(()),
            final(self)@ == old(self)@.ack(msg_id@, client_id@),
    {
        if !self.was_consumed(msg_id, client_id) {
            self.acked.push(Ack { msg_id: msg_id.to_owned(), client_id: client_id.to_owned() });
            let ghost pair = (msg_id@, client_id@);
            assert(self.ack_seq() =~= old(self).ack_seq().push(pair));
            proof {
                lemma_push_new(old(self).ack_seq(), pair);
            }
            assert(self@.pipes == old(self)@.pipes);
        } else {
            assert(self@.acks =~= old(self)@.acks.insert((msg_id@, client_id@)));
        }
        Ok(())
    }

    /// Whether `client_id` has acknowledged the message `msg_id`.
    pub fn was_consumed(&self, msg_id: &str, client_id: &str) -> (r: bool)
        ensures
            r == self@.acked(msg_id@, client_id@),
    {
        let mut i: usize = 0;
        while i < self.acked.len()
            invariant
                i <= self.acked.len(),
                forall|j: int| 0 <= j < i ==> self.ack_seq()[j] != (msg_id@, client_id@),
            decreases self.acked.len() - i,
        {
            if same_text(self.acked[i].msg_id.as_str(), msg_id) && same_text(
                self.acked[i].client_id.as_str(),
                client_id,
            ) {
                assert(self.ack_seq()[i as int] == (msg_id@, client_id@));
                return true;
            }
            i += 1;
        }
        false
    }

    /// The place of the pipe called `name`.
    fn find_pipe(&self, name: &str) -> (r: Option<usize>)
        ensures
            match r {
                Some(i) => i < self.pipes.len() && self.pipes[i as int]@.name == name@
                    && self@.pipes[i as int].name == name@ && self@.has_pipe(name@),
                None => !self@.has_pipe(name@),
            },
    {
        let mut i: usize = 0;
        while i < self.pipes.len()
            invariant
                i <= self.pipes.len(),
                forall|j: int| 0 <= j < i ==> self@.pipes[j].name != name@,
            decreases self.pipes.len() - i,
        {
            if same_text(self.pipes[i].name(), name) {
                assert(self@.pipes[i as int].name == name@);
                return Some(i);
            }
            i += 1;
        }
        None
    }
}

} // verus!
