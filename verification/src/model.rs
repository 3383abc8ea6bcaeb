//! The broker as plain values: what each operation does to the registry of
//! pipes and to the table of acknowledgments, and what a client is to
//! receive.

use vstd::prelude::*;
use crate::msg::MsgView;
use crate::order::{
    lemma_name_lt_irreflexive, lemma_name_lt_total, lemma_name_lt_transitive, name_lt,
};
use crate::pipe::PipeView;
use crate::seqs::{
    lemma_filter_drops_all, lemma_filter_keeps_all, lemma_filter_keeps_head,
    lemma_filter_keeps_order, lemma_filter_keeps_tail,
};

verus! {

/// What a broker is, as plain values: its pipes in the order of their names,
/// and the pairs of message identifier and client that were acknowledged.
pub struct BrokerView {
    pub pipes: Seq<PipeView>,
    pub acks: Set<(Seq<char>, Seq<char>)>,
}

/// Each pipe's name comes strictly before the names of the pipes after it.
pub open spec fn names_ascend(pipes: Seq<PipeView>) -> bool {
    forall|i: int, j: int|
        0 <= i < j < pipes.len() ==> name_lt((#[trigger] pipes[i]).name, (#[trigger] pipes[j]).name)
}

/// Every message in the log of `p` names `p` as its pipe.
pub open spec fn msgs_at_home(p: PipeView) -> bool {
    forall|k: int| 0 <= k < p.msgs.len() ==> (#[trigger] p.msgs[k]).pipe_name == p.name
}

/// No two messages of the sequence share an identifier.
pub open spec fn distinct_ids(msgs: Seq<MsgView>) -> bool {
    forall|a: int, b: int|
        0 <= a < b < msgs.len() ==> (#[trigger] msgs[a]).id != (#[trigger] msgs[b]).id
}

/// No two messages in the logs of these pipes share an identifier.
pub open spec fn ids_unique(pipes: Seq<PipeView>) -> bool {
    forall|i: int, k: int, j: int, l: int|
        0 <= i < pipes.len() && 0 <= k < pipes[i].msgs.len() && 0 <= j < pipes.len() && 0 <= l
            < pipes[j].msgs.len() && (i != j || k != l) ==> (#[trigger] pipes[i].msgs[k]).id != (
        #[trigger] pipes[j].msgs[l]).id
}

/// The logs of the pipes that `client` subscribes to, one after the other in
/// the order of the pipes.
pub open spec fn candidates(pipes: Seq<PipeView>, client: Seq<char>) -> Seq<MsgView> {
    pipes.map_values(|p: PipeView| p.offered_to(client)).flatten()
}

/// Those of `msgs` that `client` has not acknowledged, in the same order.
pub open spec fn unacked(
    msgs: Seq<MsgView>,
    acks: Set<(Seq<char>, Seq<char>)>,
    client: Seq<char>,
) -> Seq<MsgView> {
    msgs.filter(|m: MsgView| !acks.contains((m.id, client)))
}

impl BrokerView {
    /// The broker without pipes and acknowledgments.
    pub open spec fn empty() -> BrokerView {
        BrokerView { pipes: Seq::empty(), acks: Set::empty() }
    }

    /// The pipes stand in the strict order of their names, and each message
    /// lies in the pipe that it names.
    pub open spec fn wf(self) -> bool {
        &&& names_ascend(self.pipes)
        &&& forall|i: int| 0 <= i < self.pipes.len() ==> msgs_at_home(#[trigger] self.pipes[i])
    }

    /// Whether a pipe called `name` is registered.
    pub open spec fn has_pipe(self, name: Seq<char>) -> bool {
        exists|i: int| 0 <= i < self.pipes.len() && (#[trigger] self.pipes[i]).name == name
    }

    /// The pipe called `name`, where there is one.
    pub open spec fn pipe(self, name: Seq<char>) -> PipeView {
        let i = choose|i: int| 0 <= i < self.pipes.len() && (#[trigger] self.pipes[i]).name == name;
        self.pipes[i]
    }

    /// After a pipe called `name` was made: the pipes whose names come
    /// before `name`, then the new and empty pipe, then those whose names come
    /// after. A pipe that bore the name before is gone.
    pub open spec fn create(self, name: Seq<char>) -> BrokerView {
        BrokerView {
            pipes: self.pipes.filter(|p: PipeView| name_lt(p.name, name)).push(
                PipeView::empty(name),
            ) + self.pipes.filter(|p: PipeView| name_lt(name, p.name)),
            ..self
        }
    }

    /// Every pipe, with the one called `name` replaced by what `change` makes
    /// of it.
    pub open spec fn change_pipe(
        self,
        name: Seq<char>,
        change: spec_fn(PipeView) -> PipeView,
    ) -> BrokerView {
        BrokerView {
            pipes: self.pipes.map_values(
                |p: PipeView|
                    if p.name == name {
                        change(p)
                    } else {
                        p
                    },
            ),
            ..self
        }
    }

    /// After `client` has subscribed to the pipe called `name`.
    pub open spec fn sub(self, name: Seq<char>, client: Seq<char>) -> BrokerView {
        self.change_pipe(name, |p: PipeView| p.with_sub(client))
    }

    /// After `client` has left the pipe called `name`.
    pub open spec fn unsub(self, name: Seq<char>, client: Seq<char>) -> BrokerView {
        self.change_pipe(name, |p: PipeView| p.without_sub(client))
    }

    /// After `m` was appended to the pipe that it names.
    pub open spec fn post(self, m: MsgView) -> BrokerView {
        self.change_pipe(m.pipe_name, |p: PipeView| p.with_msg(m))
    }

    /// Whether `client` has acknowledged the message `msg_id`.
    pub open spec fn acked(self, msg_id: Seq<char>, client: Seq<char>) -> bool {
        self.acks.contains((msg_id, client))
    }

    /// After `client` has acknowledged the message `msg_id`.
    pub open spec fn ack(self, msg_id: Seq<char>, client: Seq<char>) -> BrokerView {
        BrokerView { acks: self.acks.insert((msg_id, client)), ..self }
    }

    /// What `client` is to receive: the logs of the pipes it subscribes to,
    /// in the order of the pipes, without the messages it has acknowledged.
    pub open spec fn fetch(self, client: Seq<char>) -> Seq<MsgView> {
        unacked(candidates(self.pipes, client), self.acks, client)
    }

    /// In a well-formed registry two places with the same name are one place.
    pub proof fn lemma_names_distinct(self, i: int, j: int)
        requires
            names_ascend(self.pipes),
            0 <= i < self.pipes.len(),
            0 <= j < self.pipes.len(),
            self.pipes[i].name == self.pipes[j].name,
        ensures
            i == j,
    {
        lemma_name_lt_irreflexive(self.pipes[i].name);
    }

    /// The pipe called `name` is the one at the place that bears the name.
    pub proof fn lemma_pipe_at(self, i: int)
        requires
            names_ascend(self.pipes),
            0 <= i < self.pipes.len(),
        ensures
            self.has_pipe(self.pipes[i].name),
            self.pipe(self.pipes[i].name) == self.pipes[i],
    {
        let name = self.pipes[i].name;
        let j = choose|j: int| 0 <= j < self.pipes.len() && (#[trigger] self.pipes[j]).name == name;
        self.lemma_names_distinct(i, j);
    }

    /// Changing the pipe called `name` touches the one place that bears the
    /// name and no other.
    pub proof fn lemma_change_at(
        self,
        i: int,
        name: Seq<char>,
        change: spec_fn(PipeView) -> PipeView,
    )
        requires
            names_ascend(self.pipes),
            0 <= i < self.pipes.len(),
            self.pipes[i].name == name,
        ensures
            self.change_pipe(name, change).pipes == self.pipes.update(i, change(self.pipes[i])),
    {
        assert forall|k: int| 0 <= k < self.pipes.len() && k != i implies self.pipes[k].name
            != name by {
            if self.pipes[k].name == name {
                self.lemma_names_distinct(i, k);
            }
        }
        assert(self.change_pipe(name, change).pipes =~= self.pipes.update(
            i,
            change(self.pipes[i]),
        ));
    }

    /// Where the new pipe goes: at the place where its name belongs. If that
    /// place bears the name, the new pipe takes it over; otherwise the new
    /// pipe is put in front of it.
    pub proof fn lemma_create_at(self, k: int, name: Seq<char>)
        requires
            self.wf(),
            is_place_of(self.pipes, k, name),
        ensures
            self.create(name).wf(),
            self.has_pipe(name) <==> k < self.pipes.len() && self.pipes[k].name == name,
            self.has_pipe(name) ==> self.create(name).pipes == self.pipes.update(
                k,
                PipeView::empty(name),
            ),
            !self.has_pipe(name) ==> self.create(name).pipes == self.pipes.insert(
                k,
                PipeView::empty(name),
            ),
    {
        lemma_split_at_place(self.pipes, k, name);
        let fresh = PipeView::empty(name);
        let made = self.create(name).pipes;
        let same = k < self.pipes.len() && self.pipes[k].name == name;
        if same {
            assert(self.pipes[k].name == name);
            assert(made =~= self.pipes.update(k, fresh));
            self.lemma_update_wf(k, fresh);
        } else {
            assert(made =~= self.pipes.insert(k, fresh));
            assert forall|a: int, b: int| 0 <= a < b < made.len() implies name_lt(
                (#[trigger] made[a]).name,
                (#[trigger] made[b]).name,
            ) by {
                let a0 = if a < k { a } else { a - 1 };
                let b0 = if b < k { b } else { b - 1 };
                if a != k {
                    assert(made[a] == self.pipes[a0]);
                }
                if b != k {
                    assert(made[b] == self.pipes[b0]);
                }
            }
            assert forall|a: int| 0 <= a < made.len() implies msgs_at_home(#[trigger] made[a]) by {
                if a < k {
                    assert(made[a] == self.pipes[a]);
                } else if a > k {
                    assert(made[a] == self.pipes[a - 1]);
                }
            }
        }
    }

    /// Changing a pipe that is not registered changes nothing.
    pub proof fn lemma_change_absent(self, name: Seq<char>, change: spec_fn(PipeView) -> PipeView)
        requires
            !self.has_pipe(name),
        ensures
            self.change_pipe(name, change) == self,
    {
        assert(self.change_pipe(name, change).pipes =~= self.pipes);
    }

    /// A pipe put in the place of one with the same name, its messages at
    /// home, leaves the registry well formed.
    pub proof fn lemma_update_wf(self, i: int, q: PipeView)
        requires
            self.wf(),
            0 <= i < self.pipes.len(),
            q.name == self.pipes[i].name,
            msgs_at_home(q),
        ensures
            (BrokerView { pipes: self.pipes.update(i, q), ..self }).wf(),
    {
        let made = self.pipes.update(i, q);
        assert forall|a: int, b: int| 0 <= a < b < made.len() implies name_lt(
            (#[trigger] made[a]).name,
            (#[trigger] made[b]).name,
        ) by {
            assert(made[a].name == self.pipes[a].name);
            assert(made[b].name == self.pipes[b].name);
        }
        assert forall|a: int| 0 <= a < made.len() implies msgs_at_home(#[trigger] made[a]) by {
            if a != i {
                assert(made[a] == self.pipes[a]);
            }
        }
    }
}

/// The place where a pipe called `name` belongs: the names before it come
/// before `name`, and the name at it, if there is one, does not.
pub open spec fn is_place_of(pipes: Seq<PipeView>, k: int, name: Seq<char>) -> bool {
    &&& 0 <= k <= pipes.len()
    &&& forall|j: int| 0 <= j < k ==> name_lt((#[trigger] pipes[j]).name, name)
    &&& k < pipes.len() ==> !name_lt(pipes[k].name, name)
}

/// In a registry in order, the pipes whose names come before `name` are
/// those before its place, and the pipes whose names come after are those
/// from `k2` on: the place itself if it does not bear the name, the next if
/// it does.
pub proof fn lemma_split_at_place(pipes: Seq<PipeView>, k: int, name: Seq<char>)
    requires
        names_ascend(pipes),
        is_place_of(pipes, k, name),
    ensures
        pipes.filter(|p: PipeView| name_lt(p.name, name)) == pipes.take(k),
        k < pipes.len() && pipes[k].name == name ==> pipes.filter(
            |p: PipeView| name_lt(name, p.name),
        ) == pipes.skip(k + 1),
        !(k < pipes.len() && pipes[k].name == name) ==> pipes.filter(
            |p: PipeView| name_lt(name, p.name),
        ) == pipes.skip(k),
        forall|j: int| 0 <= j < pipes.len() && j != k ==> (#[trigger] pipes[j]).name != name,
        forall|j: int| k < j < pipes.len() ==> name_lt(name, (#[trigger] pipes[j]).name),
        k < pipes.len() && pipes[k].name != name ==> name_lt(name, pipes[k].name),
{
    let before = |p: PipeView| name_lt(p.name, name);
    let after = |p: PipeView| name_lt(name, p.name);
    let n = pipes.len() as int;
    let same = k < n && pipes[k].name == name;
    let k2 = if same {
        k + 1
    } else {
        k
    };
    lemma_name_lt_irreflexive(name);
    assert forall|j: int| 0 <= j < k implies !after(#[trigger] pipes[j]) by {
        if name_lt(name, pipes[j].name) {
            lemma_name_lt_transitive(name, pipes[j].name, name);
        }
    }
    assert forall|j: int| k <= j < n implies !before(#[trigger] pipes[j]) by {
        if j > k && name_lt(pipes[j].name, name) {
            assert(name_lt(pipes[k].name, pipes[j].name));
            lemma_name_lt_transitive(pipes[k].name, pipes[j].name, name);
        }
    }
    if k < n {
        lemma_name_lt_total(pipes[k].name, name);
    }
    assert forall|j: int| k < j < n implies name_lt(name, (#[trigger] pipes[j]).name) by {
        assert(name_lt(pipes[k].name, pipes[j].name));
        if !same {
            lemma_name_lt_transitive(name, pipes[k].name, pipes[j].name);
        }
    }
    assert forall|j: int| k2 <= j < n implies after(#[trigger] pipes[j]) by {
        if j > k {
            assert(name_lt(name, pipes[j].name));
        }
    }
    assert forall|j: int| 0 <= j < k2 implies !after(#[trigger] pipes[j]) by {}
    lemma_filter_keeps_head(pipes, before, k);
    lemma_filter_keeps_tail(pipes, after, k2);
}

/// One pipe more adds what it offers to the end of the candidates.
pub proof fn lemma_candidates_push(pipes: Seq<PipeView>, p: PipeView, client: Seq<char>)
    ensures
        candidates(pipes.push(p), client) == candidates(pipes, client) + p.offered_to(client),
{
    let offer = |p: PipeView| p.offered_to(client);
    assert(pipes.push(p).map_values(offer) =~= pipes.map_values(offer).push(offer(p)));
    pipes.map_values(offer).lemma_flatten_push(offer(p));
}

/// One message more is kept at the end if the client has not acknowledged
/// it, and dropped otherwise.
pub proof fn lemma_unacked_push(
    msgs: Seq<MsgView>,
    m: MsgView,
    acks: Set<(Seq<char>, Seq<char>)>,
    client: Seq<char>,
)
    ensures
        unacked(msgs.push(m), acks, client) == if acks.contains((m.id, client)) {
            unacked(msgs, acks, client)
        } else {
            unacked(msgs, acks, client).push(m)
        },
{
    msgs.lemma_filter_push(m, |m: MsgView| !acks.contains((m.id, client)));
}

/// A message is among the candidates exactly if it lies in the log of a pipe
/// that the client subscribes to.
pub proof fn lemma_candidates_contains(pipes: Seq<PipeView>, client: Seq<char>, m: MsgView)
    ensures
        candidates(pipes, client).contains(m) <==> exists|i: int|
            0 <= i < pipes.len() && (#[trigger] pipes[i]).subs.contains(client)
                && pipes[i].msgs.contains(m),
    decreases pipes.len(),
{
    if pipes.len() == 0 {
        assert(pipes.map_values(|p: PipeView| p.offered_to(client)) =~= Seq::empty());
    } else {
        let head = pipes.drop_last();
        let p = pipes.last();
        assert(pipes =~= head.push(p));
        lemma_candidates_push(head, p, client);
        lemma_candidates_contains(head, client, m);
        let all = candidates(pipes, client);
        let front = candidates(head, client);
        let back = p.offered_to(client);
        if all.contains(m) {
            let a = choose|a: int| 0 <= a < all.len() && all[a] == m;
            if a < front.len() {
                assert(front[a] == m);
                let i = choose|i: int|
                    0 <= i < head.len() && (#[trigger] head[i]).subs.contains(client)
                        && head[i].msgs.contains(m);
                assert(pipes[i] == head[i]);
            } else {
                assert(back[a - front.len()] == m);
                assert(pipes[pipes.len() - 1].subs.contains(client));
            }
        }
        if exists|i: int|
            0 <= i < pipes.len() && (#[trigger] pipes[i]).subs.contains(client)
                && pipes[i].msgs.contains(m) {
            let i = choose|i: int|
                0 <= i < pipes.len() && (#[trigger] pipes[i]).subs.contains(client)
                    && pipes[i].msgs.contains(m);
            if i < head.len() {
                assert(head[i] == pipes[i]);
                let a = choose|a: int| 0 <= a < front.len() && front[a] == m;
                assert(all[a] == m);
            } else {
                let k = choose|k: int| 0 <= k < p.msgs.len() && p.msgs[k] == m;
                assert(all[front.len() + k] == m);
            }
        }
    }
}

/// A message is among the unacknowledged ones exactly if it is among the
/// given ones and the client has not acknowledged it.
pub proof fn lemma_unacked_contains(
    msgs: Seq<MsgView>,
    acks: Set<(Seq<char>, Seq<char>)>,
    client: Seq<char>,
    m: MsgView,
)
    ensures
        unacked(msgs, acks, client).contains(m) <==> msgs.contains(m) && !acks.contains(
            (m.id, client),
        ),
{
    let keep = |m: MsgView| !acks.contains((m.id, client));
    let kept = msgs.filter(keep);
    if kept.contains(m) {
        msgs.lemma_filter_contains_rev(keep, m);
        let a = choose|a: int| 0 <= a < kept.len() && kept[a] == m;
        msgs.lemma_filter_pred(keep, a);
    }
    if msgs.contains(m) && keep(m) {
        let a = choose|a: int| 0 <= a < msgs.len() && msgs[a] == m;
        msgs.lemma_filter_contains(keep, a);
    }
}

/// A pipe replaced by one that offers the client the same leaves the
/// candidates as they were.
pub proof fn lemma_candidates_update(pipes: Seq<PipeView>, i: int, q: PipeView, client: Seq<char>)
    requires
        0 <= i < pipes.len(),
        q.offered_to(client) == pipes[i].offered_to(client),
    ensures
        candidates(pipes.update(i, q), client) == candidates(pipes, client),
{
    let offer = |p: PipeView| p.offered_to(client);
    assert(pipes.update(i, q).map_values(offer) =~= pipes.map_values(offer));
}

/// A registry in order, without its last pipe, is a registry in order.
pub proof fn lemma_head_well_formed(pipes: Seq<PipeView>)
    requires
        pipes.len() > 0,
        names_ascend(pipes),
        forall|i: int| 0 <= i < pipes.len() ==> msgs_at_home(#[trigger] pipes[i]),
    ensures
        names_ascend(pipes.drop_last()),
        forall|i: int|
            0 <= i < pipes.drop_last().len() ==> msgs_at_home(#[trigger] pipes.drop_last()[i]),
{
    let head = pipes.drop_last();
    assert forall|i: int, j: int| 0 <= i < j < head.len() implies name_lt(
        (#[trigger] head[i]).name,
        (#[trigger] head[j]).name,
    ) by {
        assert(head[i] == pipes[i] && head[j] == pipes[j]);
    }
    assert forall|i: int| 0 <= i < head.len() implies msgs_at_home(#[trigger] head[i]) by {
        assert(head[i] == pipes[i]);
    }
}

/// A message comes before another, or beside it, in the order of the pipes
/// that they name.
pub open spec fn pipe_not_after(m: MsgView, other: MsgView) -> bool {
    m.pipe_name == other.pipe_name || name_lt(m.pipe_name, other.pipe_name)
}

/// The candidates stand in the order of the names of their pipes.
pub proof fn lemma_candidates_in_name_order(pipes: Seq<PipeView>, client: Seq<char>)
    requires
        names_ascend(pipes),
        forall|i: int| 0 <= i < pipes.len() ==> msgs_at_home(#[trigger] pipes[i]),
    ensures
        forall|a: int, b: int|
            0 <= a < b < candidates(pipes, client).len() ==> pipe_not_after(
                #[trigger] candidates(pipes, client)[a],
                #[trigger] candidates(pipes, client)[b],
            ),
    decreases pipes.len(),
{
    if pipes.len() == 0 {
        assert(pipes.map_values(|p: PipeView| p.offered_to(client)) =~= Seq::empty());
    } else {
        let head = pipes.drop_last();
        let p = pipes.last();
        let n = pipes.len() - 1;
        assert(pipes =~= head.push(p));
        lemma_head_well_formed(pipes);
        lemma_candidates_in_name_order(head, client);
        lemma_candidates_push(head, p, client);
        let all = candidates(pipes, client);
        let front = candidates(head, client);
        assert(msgs_at_home(pipes[n]));
        assert forall|a: int, b: int| 0 <= a < b < all.len() implies pipe_not_after(
            #[trigger] all[a],
            #[trigger] all[b],
        ) by {
            if b < front.len() {
                assert(all[a] == front[a] && all[b] == front[b]);
            } else if a >= front.len() {
                assert(all[a] == p.msgs[a - front.len()] && all[b] == p.msgs[b - front.len()]);
            } else {
                assert(all[b] == p.msgs[b - front.len()]);
                assert(all[a] == front[a]);
                assert(front.contains(front[a]));
                lemma_candidates_contains(head, client, front[a]);
                let i = choose|i: int|
                    0 <= i < head.len() && (#[trigger] head[i]).subs.contains(client)
                        && head[i].msgs.contains(front[a]);
                let k = choose|k: int| 0 <= k < head[i].msgs.len() && head[i].msgs[k] == front[a];
                assert(head[i] == pipes[i]);
                assert(msgs_at_home(pipes[i]));
                assert(pipes[i].msgs[k].pipe_name == pipes[i].name);
                assert(name_lt(pipes[i].name, pipes[n].name));
            }
        }
    }
}

/// The candidates that name one pipe are what that pipe offers.
pub proof fn lemma_candidates_of_pipe(pipes: Seq<PipeView>, client: Seq<char>, name: Seq<char>)
    requires
        names_ascend(pipes),
        forall|i: int| 0 <= i < pipes.len() ==> msgs_at_home(#[trigger] pipes[i]),
    ensures
        forall|i: int|
            0 <= i < pipes.len() && (#[trigger] pipes[i]).name == name ==> candidates(
                pipes,
                client,
            ).filter(|m: MsgView| m.pipe_name == name) == pipes[i].offered_to(client),
        (forall|i: int| 0 <= i < pipes.len() ==> (#[trigger] pipes[i]).name != name)
            ==> candidates(pipes, client).filter(|m: MsgView| m.pipe_name == name) == Seq::<
            MsgView,
        >::empty(),
    decreases pipes.len(),
{
    let named = |m: MsgView| m.pipe_name == name;
    if pipes.len() == 0 {
        assert(pipes.map_values(|p: PipeView| p.offered_to(client)) =~= Seq::empty());
        lemma_filter_drops_all(candidates(pipes, client), named);
    } else {
        let head = pipes.drop_last();
        let p = pipes.last();
        let n = pipes.len() - 1;
        assert(pipes =~= head.push(p));
        lemma_head_well_formed(pipes);
        lemma_candidates_of_pipe(head, client, name);
        lemma_candidates_push(head, p, client);
        let front = candidates(head, client);
        let back = p.offered_to(client);
        Seq::filter_distributes_over_add(front, back, named);
        assert(msgs_at_home(pipes[n]));
        if p.name == name {
            lemma_filter_keeps_all(back, named);
            assert forall|i: int| 0 <= i < head.len() implies (#[trigger] head[i]).name != name by {
                assert(head[i] == pipes[i]);
                assert(name_lt(pipes[i].name, pipes[n].name));
                lemma_name_lt_irreflexive(name);
            }
            assert(Seq::<MsgView>::empty() + back =~= back);
            assert forall|i: int| 0 <= i < pipes.len() && (#[trigger] pipes[i]).name
                == name implies i == n by {
                if i < n {
                    assert(head[i] == pipes[i]);
                }
            }
        } else {
            lemma_filter_drops_all(back, named);
            assert(front.filter(named) + Seq::<MsgView>::empty() =~= front.filter(named));
            assert forall|i: int| 0 <= i < pipes.len() && (#[trigger] pipes[i]).name
                == name implies front.filter(named) == pipes[i].offered_to(client) by {
                assert(head[i] == pipes[i]);
            }
            if forall|i: int| 0 <= i < pipes.len() ==> (#[trigger] pipes[i]).name != name {
                assert forall|i: int| 0 <= i < head.len() implies (#[trigger] head[i]).name
                    != name by {
                    assert(head[i] == pipes[i]);
                }
            }
        }
    }
}

/// A filter keeps identifiers distinct.
pub proof fn lemma_filter_distinct_ids(msgs: Seq<MsgView>, keep: spec_fn(MsgView) -> bool)
    requires
        distinct_ids(msgs),
    ensures
        distinct_ids(msgs.filter(keep)),
{
    let kept = msgs.filter(keep);
    assert forall|a: int, b: int| 0 <= a < b < kept.len() implies (#[trigger] kept[a]).id != (
    #[trigger] kept[b]).id by {
        lemma_filter_keeps_order(msgs, keep, a, b);
        let (x, y) = choose|x: int, y: int|
            0 <= x < y < msgs.len() && #[trigger] msgs[x] == kept[a] && #[trigger] msgs[y]
                == kept[b];
        assert(msgs[x].id != msgs[y].id);
    }
}

/// Where no two messages in the logs share an identifier, no two
/// candidates do.
pub proof fn lemma_candidates_distinct_ids(pipes: Seq<PipeView>, client: Seq<char>)
    requires
        ids_unique(pipes),
    ensures
        distinct_ids(candidates(pipes, client)),
    decreases pipes.len(),
{
    if pipes.len() == 0 {
        assert(pipes.map_values(|p: PipeView| p.offered_to(client)) =~= Seq::empty());
    } else {
        let head = pipes.drop_last();
        let p = pipes.last();
        let n = pipes.len() - 1;
        assert(pipes =~= head.push(p));
        assert forall|i: int, k: int, j: int, l: int|
            0 <= i < head.len() && 0 <= k < head[i].msgs.len() && 0 <= j < head.len() && 0 <= l
                < head[j].msgs.len() && (i != j || k != l) implies (#[trigger] head[i].msgs[k]).id
            != (#[trigger] head[j].msgs[l]).id by {
            assert(head[i] == pipes[i] && head[j] == pipes[j]);
            assert(pipes[i].msgs[k].id != pipes[j].msgs[l].id);
        }
        lemma_candidates_distinct_ids(head, client);
        lemma_candidates_push(head, p, client);
        let all = candidates(pipes, client);
        let front = candidates(head, client);
        let back = p.offered_to(client);
        assert forall|a: int, b: int| 0 <= a < b < all.len() implies (#[trigger] all[a]).id != (
        #[trigger] all[b]).id by {
            if b < front.len() {
                assert(all[a] == front[a] && all[b] == front[b]);
            } else if a >= front.len() {
                let k = a - front.len();
                let l = b - front.len();
                assert(all[a] == pipes[n].msgs[k] && all[b] == pipes[n].msgs[l]);
                assert(pipes[n].msgs[k].id != pipes[n].msgs[l].id);
            } else {
                let l = b - front.len();
                assert(all[a] == front[a]);
                assert(all[b] == pipes[n].msgs[l]);
                assert(front.contains(front[a]));
                lemma_candidates_contains(head, client, front[a]);
                let i = choose|i: int|
                    0 <= i < head.len() && (#[trigger] head[i]).subs.contains(client)
                        && head[i].msgs.contains(front[a]);
                let k = choose|k: int| 0 <= k < head[i].msgs.len() && head[i].msgs[k] == front[a];
                assert(head[i] == pipes[i]);
                assert(pipes[i].msgs[k].id != pipes[n].msgs[l].id);
            }
        }
    }
}

} // verus!
