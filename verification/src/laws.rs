//! What holds of the broker whatever was done to it before, stated over the
//! plain values that the operations' contracts speak of.

use vstd::prelude::*;
use crate::model::{
    candidates, distinct_ids, ids_unique, is_place_of, lemma_candidates_contains,
    lemma_candidates_distinct_ids, lemma_candidates_in_name_order, lemma_candidates_of_pipe,
    lemma_candidates_update, lemma_filter_distinct_ids, lemma_unacked_contains, msgs_at_home,
    names_ascend, pipe_not_after, unacked, BrokerView,
};
use crate::msg::MsgView;
use crate::order::name_lt;
use crate::pipe::PipeView;
use crate::seqs::{lemma_filter_agree, lemma_filter_keeps_order, lemma_filter_twice};

verus! {

/// Subscribing to, leaving, or posting to a pipe that is not registered
/// leaves the broker as it was.
pub proof fn law_unknown_pipe_untouched(
    b: BrokerView,
    name: Seq<char>,
    client: Seq<char>,
    m: MsgView,
)
    requires
        !b.has_pipe(name),
        m.pipe_name == name,
    ensures
        b.sub(name, client) == b,
        b.unsub(name, client) == b,
        b.post(m) == b,
{
    b.lemma_change_absent(name, |p: PipeView| p.with_sub(client));
    b.lemma_change_absent(name, |p: PipeView| p.without_sub(client));
    b.lemma_change_absent(name, |p: PipeView| p.with_msg(m));
}

/// Subscribing, leaving and posting keep the registry well formed, keep
/// every pipe's name and place, and leave the acknowledgments alone.
pub proof fn law_changes_keep_order(
    b: BrokerView,
    name: Seq<char>,
    client: Seq<char>,
    m: MsgView,
)
    requires
        b.wf(),
    ensures
        b.sub(name, client).wf(),
        b.unsub(name, client).wf(),
        b.post(m).wf(),
        forall|n: Seq<char>|
            b.sub(name, client).has_pipe(n) == b.has_pipe(n) && b.unsub(name, client).has_pipe(n)
                == b.has_pipe(n) && b.post(m).has_pipe(n) == b.has_pipe(n),
        b.sub(name, client).acks == b.acks,
        b.unsub(name, client).acks == b.acks,
        b.post(m).acks == b.acks,
{
    lemma_change_keeps_wf(b, name, |p: PipeView| p.with_sub(client));
    lemma_change_keeps_wf(b, name, |p: PipeView| p.without_sub(client));
    assert forall|p: PipeView| msgs_at_home(p) && p.name == m.pipe_name implies msgs_at_home(
        #[trigger] p.with_msg(m),
    ) by {
        let q = p.with_msg(m);
        assert forall|k: int| 0 <= k < q.msgs.len() implies (#[trigger] q.msgs[k]).pipe_name
            == q.name by {
            if k < p.msgs.len() {
                assert(q.msgs[k] == p.msgs[k]);
            }
        }
    }
    lemma_change_keeps_wf(b, m.pipe_name, |p: PipeView| p.with_msg(m));
}

/// A change that keeps a pipe's name and keeps its messages at home keeps
/// the registry well formed and the set of names.
proof fn lemma_change_keeps_wf(
    b: BrokerView,
    name: Seq<char>,
    change: spec_fn(PipeView) -> PipeView,
)
    requires
        b.wf(),
        forall|p: PipeView| p.name == name ==> (#[trigger] change(p)).name == p.name,
        forall|p: PipeView|
            msgs_at_home(p) && p.name == name ==> msgs_at_home(#[trigger] change(p)),
    ensures
        b.change_pipe(name, change).wf(),
        forall|n: Seq<char>| b.change_pipe(name, change).has_pipe(n) == b.has_pipe(n),
        forall|i: int|
            0 <= i < b.pipes.len() ==> (#[trigger] b.change_pipe(name, change).pipes[i]).name
                == b.pipes[i].name,
{
    let c = b.change_pipe(name, change);
    assert(c.pipes.len() == b.pipes.len());
    assert forall|i: int| 0 <= i < b.pipes.len() implies (#[trigger] c.pipes[i]).name
        == b.pipes[i].name && msgs_at_home(c.pipes[i]) by {
        assert(msgs_at_home(b.pipes[i]));
    }
    assert forall|i: int, j: int| 0 <= i < j < c.pipes.len() implies name_lt(
        (#[trigger] c.pipes[i]).name,
        (#[trigger] c.pipes[j]).name,
    ) by {
        assert(c.pipes[i].name == b.pipes[i].name);
        assert(c.pipes[j].name == b.pipes[j].name);
    }
    assert forall|n: Seq<char>| c.has_pipe(n) == b.has_pipe(n) by {
        if b.has_pipe(n) {
            let i = choose|i: int| 0 <= i < b.pipes.len() && (#[trigger] b.pipes[i]).name == n;
            assert(c.pipes[i].name == n);
        }
        if c.has_pipe(n) {
            let i = choose|i: int| 0 <= i < c.pipes.len() && (#[trigger] c.pipes[i]).name == n;
            assert(b.pipes[i].name == n);
        }
    }
}

/// The rule of visibility: a client is sent a message exactly if it
/// subscribes to the pipe that the message lies in and has not acknowledged
/// the message.
pub proof fn law_visibility(b: BrokerView, client: Seq<char>, m: MsgView)
    requires
        b.wf(),
    ensures
        b.fetch(client).contains(m) <==> ({
            &&& b.has_pipe(m.pipe_name)
            &&& b.pipe(m.pipe_name).subs.contains(client)
            &&& b.pipe(m.pipe_name).msgs.contains(m)
            &&& !b.acked(m.id, client)
        }),
{
    lemma_unacked_contains(candidates(b.pipes, client), b.acks, client, m);
    lemma_candidates_contains(b.pipes, client, m);
    if candidates(b.pipes, client).contains(m) {
        let i = choose|i: int|
            0 <= i < b.pipes.len() && (#[trigger] b.pipes[i]).subs.contains(client)
                && b.pipes[i].msgs.contains(m);
        let k = choose|k: int| 0 <= k < b.pipes[i].msgs.len() && b.pipes[i].msgs[k] == m;
        assert(msgs_at_home(b.pipes[i]));
        assert(b.pipes[i].msgs[k].pipe_name == b.pipes[i].name);
        b.lemma_pipe_at(i);
    }
    if b.has_pipe(m.pipe_name) && b.pipe(m.pipe_name).subs.contains(client) && b.pipe(
        m.pipe_name,
    ).msgs.contains(m) {
        let i = choose|i: int|
            0 <= i < b.pipes.len() && (#[trigger] b.pipes[i]).name == m.pipe_name;
        assert(b.pipes[i].subs.contains(client));
    }
}

/// Acknowledging the same message twice is acknowledging it once.
pub proof fn law_ack_idempotent(b: BrokerView, msg_id: Seq<char>, client: Seq<char>)
    ensures
        b.ack(msg_id, client).ack(msg_id, client) == b.ack(msg_id, client),
        b.ack(msg_id, client).acked(msg_id, client),
{
    assert(b.acks.insert((msg_id, client)).insert((msg_id, client)) =~= b.acks.insert(
        (msg_id, client),
    ));
}

/// What was acknowledged stays acknowledged: no operation takes a pair out
/// of the table.
pub proof fn law_acks_only_grow(
    b: BrokerView,
    name: Seq<char>,
    client: Seq<char>,
    m: MsgView,
    msg_id: Seq<char>,
)
    ensures
        b.acks.subset_of(b.ack(msg_id, client).acks),
        b.create(name).acks == b.acks,
        b.sub(name, client).acks == b.acks,
        b.unsub(name, client).acks == b.acks,
        b.post(m).acks == b.acks,
{
}

/// After a client has acknowledged a message, it is sent what it was sent
/// before without the messages of that identifier, in the same order.
pub proof fn law_ack_hides_message(b: BrokerView, msg_id: Seq<char>, client: Seq<char>)
    ensures
        b.ack(msg_id, client).fetch(client) == b.fetch(client).filter(
            |m: MsgView| m.id != msg_id,
        ),
        forall|i: int|
            0 <= i < b.ack(msg_id, client).fetch(client).len() ==> (#[trigger] b.ack(
                msg_id,
                client,
            ).fetch(client)[i]).id != msg_id,
{
    let all = candidates(b.pipes, client);
    let before = |m: MsgView| !b.acks.contains((m.id, client));
    let other = |m: MsgView| m.id != msg_id;
    let after = |m: MsgView| !b.acks.insert((msg_id, client)).contains((m.id, client));
    let both = |m: MsgView| before(m) && other(m);
    lemma_filter_twice(all, before, other);
    lemma_filter_agree(all, after, both);
    let sent = b.ack(msg_id, client).fetch(client);
    assert forall|i: int| 0 <= i < sent.len() implies (#[trigger] sent[i]).id != msg_id by {
        b.fetch(client).lemma_filter_pred(other, i);
    }
}

/// An acknowledgment of one client changes nothing for any other client.
pub proof fn law_ack_spares_others(
    b: BrokerView,
    msg_id: Seq<char>,
    client: Seq<char>,
    other: Seq<char>,
)
    requires
        other != client,
    ensures
        b.ack(msg_id, client).fetch(other) == b.fetch(other),
{
    let all = candidates(b.pipes, other);
    let before = |m: MsgView| !b.acks.contains((m.id, other));
    let after = |m: MsgView| !b.acks.insert((msg_id, client)).contains((m.id, other));
    lemma_filter_agree(all, after, before);
}

/// Subscribing twice is subscribing once, and leaving twice is leaving once.
pub proof fn law_sub_idempotent(b: BrokerView, name: Seq<char>, client: Seq<char>)
    ensures
        b.sub(name, client).sub(name, client) == b.sub(name, client),
        b.unsub(name, client).unsub(name, client) == b.unsub(name, client),
{
    let once = b.sub(name, client);
    let twice = once.sub(name, client);
    assert forall|i: int| 0 <= i < b.pipes.len() implies twice.pipes[i] == once.pipes[i] by {
        let p = b.pipes[i];
        if p.name == name {
            assert(p.subs.insert(client).insert(client) =~= p.subs.insert(client));
        }
    }
    assert(twice.pipes =~= once.pipes);
    let gone = b.unsub(name, client);
    let again = gone.unsub(name, client);
    assert forall|i: int| 0 <= i < b.pipes.len() implies again.pipes[i] == gone.pipes[i] by {
        let p = b.pipes[i];
        if p.name == name {
            assert(p.subs.remove(client).remove(client) =~= p.subs.remove(client));
        }
    }
    assert(again.pipes =~= gone.pipes);
}

/// After subscribing the client is a subscriber of the pipe, once: the
/// subscribers are those of before and the client, so a pipe that had none
/// has exactly one. The log is as it was.
pub proof fn law_sub_joins(b: BrokerView, name: Seq<char>, client: Seq<char>)
    requires
        b.wf(),
        b.has_pipe(name),
    ensures
        b.sub(name, client).has_pipe(name),
        b.sub(name, client).pipe(name) == b.pipe(name).with_sub(client),
        b.sub(name, client).pipe(name).subs.contains(client),
        b.pipe(name).subs.is_empty() ==> b.sub(name, client).pipe(name).subs.len() == 1,
        b.pipe(name).subs.contains(client) ==> b.sub(name, client) == b,
{
    let change = |p: PipeView| p.with_sub(client);
    lemma_changed_pipe(b, name, change);
    if b.pipe(name).subs.is_empty() {
        assert(b.pipe(name).subs =~= Set::empty());
        assert(b.pipe(name).subs.insert(client) =~= set![client]);
    }
    if b.pipe(name).subs.contains(client) {
        assert(b.pipe(name).subs.insert(client) =~= b.pipe(name).subs);
        assert(b.sub(name, client).pipes =~= b.pipes);
    }
}

/// After leaving the client is no subscriber of the pipe; leaving a pipe
/// that the client does not subscribe to changes nothing.
pub proof fn law_unsub_leaves(b: BrokerView, name: Seq<char>, client: Seq<char>)
    requires
        b.wf(),
        b.has_pipe(name),
    ensures
        b.unsub(name, client).has_pipe(name),
        b.unsub(name, client).pipe(name) == b.pipe(name).without_sub(client),
        !b.unsub(name, client).pipe(name).subs.contains(client),
        !b.pipe(name).subs.contains(client) ==> b.unsub(name, client) == b,
{
    let change = |p: PipeView| p.without_sub(client);
    lemma_changed_pipe(b, name, change);
    if !b.pipe(name).subs.contains(client) {
        assert(b.pipe(name).subs.remove(client) =~= b.pipe(name).subs);
        assert(b.unsub(name, client).pipes =~= b.pipes);
    }
}

/// A client that subscribes to a pipe or leaves it changes nothing in what
/// any other client is sent.
pub proof fn law_sub_spares_others(
    b: BrokerView,
    name: Seq<char>,
    client: Seq<char>,
    other: Seq<char>,
)
    requires
        b.wf(),
        other != client,
    ensures
        b.sub(name, client).fetch(other) == b.fetch(other),
        b.unsub(name, client).fetch(other) == b.fetch(other),
        forall|n: Seq<char>|
            b.has_pipe(n) ==> (b.unsub(name, client).pipe(n).subs.contains(other) <==> b.pipe(
                n,
            ).subs.contains(other)),
{
    let join = |p: PipeView| p.with_sub(client);
    let leave = |p: PipeView| p.without_sub(client);
    if b.has_pipe(name) {
        let i = choose|i: int| 0 <= i < b.pipes.len() && (#[trigger] b.pipes[i]).name == name;
        b.lemma_change_at(i, name, join);
        b.lemma_change_at(i, name, leave);
        lemma_candidates_update(b.pipes, i, join(b.pipes[i]), other);
        lemma_candidates_update(b.pipes, i, leave(b.pipes[i]), other);
    } else {
        b.lemma_change_absent(name, join);
        b.lemma_change_absent(name, leave);
    }
    let left = b.unsub(name, client);
    lemma_change_keeps_wf(b, name, leave);
    assert forall|n: Seq<char>| b.has_pipe(n) implies (left.pipe(n).subs.contains(other)
        <==> b.pipe(n).subs.contains(other)) by {
        let j = choose|j: int| 0 <= j < b.pipes.len() && (#[trigger] b.pipes[j]).name == n;
        b.lemma_pipe_at(j);
        assert(left.pipes[j].name == n);
        left.lemma_pipe_at(j);
    }
}

/// A client is sent nothing from a pipe that it does not subscribe to.
pub proof fn law_no_subscription_no_delivery(b: BrokerView, name: Seq<char>, client: Seq<char>)
    requires
        b.wf(),
        b.has_pipe(name) ==> !b.pipe(name).subs.contains(client),
    ensures
        forall|i: int|
            0 <= i < b.fetch(client).len() ==> (#[trigger] b.fetch(client)[i]).pipe_name != name,
{
    let sent = b.fetch(client);
    assert forall|i: int| 0 <= i < sent.len() implies (#[trigger] sent[i]).pipe_name != name by {
        assert(sent.contains(sent[i]));
        law_visibility(b, client, sent[i]);
    }
}

/// Once a client has left a pipe, a message posted to that pipe afterwards
/// is not sent to it, nor is anything else from that pipe.
pub proof fn law_unsub_stops_delivery(
    b: BrokerView,
    name: Seq<char>,
    client: Seq<char>,
    m: MsgView,
)
    requires
        b.wf(),
        m.pipe_name == name,
    ensures
        !b.unsub(name, client).post(m).fetch(client).contains(m),
        forall|i: int|
            0 <= i < b.unsub(name, client).post(m).fetch(client).len() ==> (
            #[trigger] b.unsub(name, client).post(m).fetch(client)[i]).pipe_name != name,
{
    let left = b.unsub(name, client);
    let posted = left.post(m);
    law_changes_keep_order(b, name, client, m);
    law_changes_keep_order(left, name, client, m);
    if b.has_pipe(name) {
        law_unsub_leaves(b, name, client);
        lemma_changed_pipe(left, name, |p: PipeView| p.with_msg(m));
    }
    law_no_subscription_no_delivery(posted, name, client);
    let sent = posted.fetch(client);
    if sent.contains(m) {
        let i = choose|i: int| 0 <= i < sent.len() && sent[i] == m;
        assert(sent[i].pipe_name != name);
    }
}

/// A message posted to a pipe stands at the end of that pipe's log, behind
/// what the pipe held before; the pipe's subscribers are as they were.
pub proof fn law_post_appends(b: BrokerView, m: MsgView)
    requires
        b.wf(),
        b.has_pipe(m.pipe_name),
    ensures
        b.post(m).has_pipe(m.pipe_name),
        b.post(m).pipe(m.pipe_name) == b.pipe(m.pipe_name).with_msg(m),
        b.post(m).pipe(m.pipe_name).msgs.last() == m,
{
    lemma_changed_pipe(b, m.pipe_name, |p: PipeView| p.with_msg(m));
}

/// A message posted to a pipe is sent to each subscriber of that pipe that
/// has not acknowledged its identifier.
pub proof fn law_post_delivers(b: BrokerView, client: Seq<char>, m: MsgView)
    requires
        b.wf(),
        b.has_pipe(m.pipe_name),
        b.pipe(m.pipe_name).subs.contains(client),
        !b.acked(m.id, client),
    ensures
        b.post(m).fetch(client).contains(m),
{
    law_post_appends(b, m);
    law_changes_keep_order(b, m.pipe_name, client, m);
    let log = b.post(m).pipe(m.pipe_name).msgs;
    assert(log[log.len() - 1] == m);
    law_visibility(b.post(m), client, m);
}

/// A message posted to a pipe that a client does not subscribe to changes
/// nothing in what that client is sent.
pub proof fn law_post_unseen(b: BrokerView, client: Seq<char>, m: MsgView)
    requires
        b.wf(),
        b.has_pipe(m.pipe_name) ==> !b.pipe(m.pipe_name).subs.contains(client),
    ensures
        b.post(m).fetch(client) == b.fetch(client),
{
    if b.has_pipe(m.pipe_name) {
        let name = m.pipe_name;
        let change = |p: PipeView| p.with_msg(m);
        let i = choose|i: int| 0 <= i < b.pipes.len() && (#[trigger] b.pipes[i]).name == name;
        b.lemma_pipe_at(i);
        b.lemma_change_at(i, name, change);
        lemma_candidates_update(b.pipes, i, change(b.pipes[i]), client);
    } else {
        b.lemma_change_absent(m.pipe_name, |p: PipeView| p.with_msg(m));
    }
}

/// A message posted to a pipe without subscribers is sent to no client.
pub proof fn law_post_without_subscribers(b: BrokerView, m: MsgView)
    requires
        b.wf(),
        b.has_pipe(m.pipe_name) ==> b.pipe(m.pipe_name).subs.is_empty(),
    ensures
        forall|client: Seq<char>| #[trigger] b.post(m).fetch(client) == b.fetch(client),
        forall|client: Seq<char>| !(#[trigger] b.post(m).fetch(client)).contains(m),
{
    assert forall|client: Seq<char>|
        #[trigger] b.post(m).fetch(client) == b.fetch(client) && !b.post(m).fetch(
            client,
        ).contains(m) by {
        law_post_unseen(b, client, m);
        law_visibility(b, client, m);
    }
}

/// The order of delivery between pipes: what a client is sent stands in the
/// order of the names of the pipes, whenever those were made.
pub proof fn law_fetch_in_name_order(b: BrokerView, client: Seq<char>)
    requires
        b.wf(),
    ensures
        forall|i: int, j: int|
            0 <= i < j < b.fetch(client).len() ==> pipe_not_after(
                #[trigger] b.fetch(client)[i],
                #[trigger] b.fetch(client)[j],
            ),
{
    let all = candidates(b.pipes, client);
    let keep = |m: MsgView| !b.acks.contains((m.id, client));
    let sent = b.fetch(client);
    lemma_candidates_in_name_order(b.pipes, client);
    assert forall|i: int, j: int| 0 <= i < j < sent.len() implies pipe_not_after(
        #[trigger] sent[i],
        #[trigger] sent[j],
    ) by {
        lemma_filter_keeps_order(all, keep, i, j);
        let (x, y) = choose|x: int, y: int|
            0 <= x < y < all.len() && #[trigger] all[x] == sent[i] && #[trigger] all[y] == sent[j];
        assert(pipe_not_after(all[x], all[y]));
    }
}

/// The order of delivery within a pipe: of what a client is sent, the
/// messages of one pipe are that pipe's log, in the order of posting,
/// without what the client has acknowledged.
pub proof fn law_fetch_in_posting_order(b: BrokerView, client: Seq<char>, name: Seq<char>)
    requires
        b.wf(),
        b.has_pipe(name),
    ensures
        b.fetch(client).filter(|m: MsgView| m.pipe_name == name) == unacked(
            b.pipe(name).offered_to(client),
            b.acks,
            client,
        ),
{
    let all = candidates(b.pipes, client);
    let keep = |m: MsgView| !b.acks.contains((m.id, client));
    let named = |m: MsgView| m.pipe_name == name;
    let i = choose|i: int| 0 <= i < b.pipes.len() && (#[trigger] b.pipes[i]).name == name;
    b.lemma_pipe_at(i);
    lemma_candidates_of_pipe(b.pipes, client, name);
    assert(all.filter(named) == b.pipe(name).offered_to(client));
    lemma_filter_twice(all, keep, named);
    lemma_filter_twice(all, named, keep);
    lemma_filter_agree(all, |m: MsgView| keep(m) && named(m), |m: MsgView| named(m) && keep(m));
}

/// Where no two messages in the broker share an identifier, a client is
/// sent each message once: no two of the messages sent share an identifier.
pub proof fn law_fetch_once_each(b: BrokerView, client: Seq<char>)
    requires
        ids_unique(b.pipes),
    ensures
        distinct_ids(b.fetch(client)),
        b.fetch(client).no_duplicates(),
{
    lemma_candidates_distinct_ids(b.pipes, client);
    lemma_filter_distinct_ids(
        candidates(b.pipes, client),
        |m: MsgView| !b.acks.contains((m.id, client)),
    );
}

/// A message whose identifier no message in the broker bears leaves the
/// identifiers unique when it is posted.
pub proof fn law_post_keeps_ids_unique(b: BrokerView, m: MsgView)
    requires
        b.wf(),
        ids_unique(b.pipes),
        forall|i: int, k: int|
            0 <= i < b.pipes.len() && 0 <= k < b.pipes[i].msgs.len() ==> (
            #[trigger] b.pipes[i].msgs[k]).id != m.id,
    ensures
        ids_unique(b.post(m).pipes),
{
    let c = b.post(m);
    assert forall|i: int, k: int|
        0 <= i < c.pipes.len() && 0 <= k < c.pipes[i].msgs.len() implies (
    #[trigger] c.pipes[i].msgs[k]) == (if k < b.pipes[i].msgs.len() {
        b.pipes[i].msgs[k]
    } else {
        m
    }) && (k >= b.pipes[i].msgs.len() ==> b.pipes[i].name == m.pipe_name && k
        == b.pipes[i].msgs.len()) by {}
    assert forall|i: int, k: int, j: int, l: int|
        0 <= i < c.pipes.len() && 0 <= k < c.pipes[i].msgs.len() && 0 <= j < c.pipes.len() && 0 <= l
            < c.pipes[j].msgs.len() && (i != j || k != l) implies (#[trigger] c.pipes[i].msgs[k]).id
        != (#[trigger] c.pipes[j].msgs[l]).id by {
        let old_k = k < b.pipes[i].msgs.len();
        let old_l = l < b.pipes[j].msgs.len();
        if old_k && old_l {
            assert(b.pipes[i].msgs[k].id != b.pipes[j].msgs[l].id);
        } else if old_k {
            assert(b.pipes[i].msgs[k].id != m.id);
        } else if old_l {
            assert(b.pipes[j].msgs[l].id != m.id);
        } else {
            b.lemma_names_distinct(i, j);
        }
    }
}

/// A client is sent nothing exactly if each message in the pipes it
/// subscribes to has been acknowledged by it; so it is sent nothing if it
/// subscribes to no pipe.
pub proof fn law_empty_fetch(b: BrokerView, client: Seq<char>)
    ensures
        b.fetch(client).len() == 0 <==> forall|i: int, k: int|
            0 <= i < b.pipes.len() && 0 <= k < b.pipes[i].msgs.len() && b.pipes[i].subs.contains(
                client,
            ) ==> b.acked((#[trigger] b.pipes[i].msgs[k]).id, client),
        (forall|i: int| 0 <= i < b.pipes.len() ==> !(#[trigger] b.pipes[i]).subs.contains(client))
            ==> b.fetch(client) == Seq::<MsgView>::empty(),
{
    let sent = b.fetch(client);
    let all = candidates(b.pipes, client);
    if sent.len() > 0 {
        let m = sent[0];
        assert(sent.contains(m));
        lemma_unacked_contains(all, b.acks, client, m);
        lemma_candidates_contains(b.pipes, client, m);
        let i = choose|i: int|
            0 <= i < b.pipes.len() && (#[trigger] b.pipes[i]).subs.contains(client)
                && b.pipes[i].msgs.contains(m);
        let k = choose|k: int| 0 <= k < b.pipes[i].msgs.len() && b.pipes[i].msgs[k] == m;
        assert(!b.acked(b.pipes[i].msgs[k].id, client));
    }
    if exists|i: int, k: int|
        0 <= i < b.pipes.len() && 0 <= k < b.pipes[i].msgs.len() && b.pipes[i].subs.contains(client)
            && !b.acked((#[trigger] b.pipes[i].msgs[k]).id, client) {
        let (i, k) = choose|i: int, k: int|
            0 <= i < b.pipes.len() && 0 <= k < b.pipes[i].msgs.len() && b.pipes[i].subs.contains(
                client,
            ) && !b.acked((#[trigger] b.pipes[i].msgs[k]).id, client);
        let m = b.pipes[i].msgs[k];
        assert(b.pipes[i].msgs.contains(m));
        lemma_candidates_contains(b.pipes, client, m);
        lemma_unacked_contains(all, b.acks, client, m);
        assert(sent.len() > 0);
    }
    assert(sent.len() == 0 ==> sent =~= Seq::<MsgView>::empty());
}

/// Making a pipe registers an empty pipe of that name, whatever bore the
/// name before: its log and its subscribers are gone.
pub proof fn law_create_replaces(b: BrokerView, name: Seq<char>)
    requires
        b.wf(),
    ensures
        b.create(name).wf(),
        b.create(name).has_pipe(name),
        b.create(name).pipe(name) == PipeView::empty(name),
        b.create(name).pipes.len() == if b.has_pipe(name) {
            b.pipes.len()
        } else {
            b.pipes.len() + 1
        },
{
    let k = place_of(b.pipes, name, 0);
    lemma_place_of(b.pipes, name, 0);
    b.lemma_create_at(k, name);
    let c = b.create(name);
    assert(c.pipes[k] == PipeView::empty(name));
    c.lemma_pipe_at(k);
}

/// Making a pipe leaves every pipe of another name as it was.
pub proof fn law_create_spares_others(b: BrokerView, name: Seq<char>, other: Seq<char>)
    requires
        b.wf(),
        other != name,
    ensures
        b.create(name).has_pipe(other) == b.has_pipe(other),
        b.has_pipe(other) ==> b.create(name).pipe(other) == b.pipe(other),
{
    let k = place_of(b.pipes, name, 0);
    lemma_place_of(b.pipes, name, 0);
    b.lemma_create_at(k, name);
    let c = b.create(name);
    if b.has_pipe(other) {
        let i = choose|i: int| 0 <= i < b.pipes.len() && (#[trigger] b.pipes[i]).name == other;
        b.lemma_pipe_at(i);
        let j = if b.has_pipe(name) || i < k {
            i
        } else {
            i + 1
        };
        assert(c.pipes[j] == b.pipes[i]);
        c.lemma_pipe_at(j);
    }
    if c.has_pipe(other) {
        let j = choose|j: int| 0 <= j < c.pipes.len() && (#[trigger] c.pipes[j]).name == other;
        let i = if b.has_pipe(name) || j < k {
            j
        } else {
            j - 1
        };
        assert(c.pipes[j] == b.pipes[i]);
    }
}

/// The first place from `from` on whose name does not come before `name`.
spec fn place_of(pipes: Seq<PipeView>, name: Seq<char>, from: int) -> int
    decreases pipes.len() - from,
{
    if 0 <= from < pipes.len() && name_lt(pipes[from].name, name) {
        place_of(pipes, name, from + 1)
    } else {
        from
    }
}

proof fn lemma_place_of(pipes: Seq<PipeView>, name: Seq<char>, from: int)
    requires
        0 <= from <= pipes.len(),
        forall|j: int| 0 <= j < from ==> name_lt((#[trigger] pipes[j]).name, name),
    ensures
        is_place_of(pipes, place_of(pipes, name, from), name),
    decreases pipes.len() - from,
{
    if from < pipes.len() && name_lt(pipes[from].name, name) {
        lemma_place_of(pipes, name, from + 1);
    }
}

/// After a change of the pipe called `name` that keeps its name, the pipe
/// of that name is the changed one, and every other pipe is as it was.
proof fn lemma_changed_pipe(
    b: BrokerView,
    name: Seq<char>,
    change: spec_fn(PipeView) -> PipeView,
)
    requires
        names_ascend(b.pipes),
        b.has_pipe(name),
        forall|p: PipeView| p.name == name ==> (#[trigger] change(p)).name == p.name,
    ensures
        b.change_pipe(name, change).has_pipe(name),
        b.change_pipe(name, change).pipe(name) == change(b.pipe(name)),
        names_ascend(b.change_pipe(name, change).pipes),
        forall|i: int|
            0 <= i < b.pipes.len() && b.pipes[i].name != name ==> (#[trigger] b.change_pipe(
                name,
                change,
            ).pipes[i]) == b.pipes[i],
{
    let c = b.change_pipe(name, change);
    let i = choose|i: int| 0 <= i < b.pipes.len() && (#[trigger] b.pipes[i]).name == name;
    b.lemma_pipe_at(i);
    b.lemma_change_at(i, name, change);
    assert forall|x: int, y: int| 0 <= x < y < c.pipes.len() implies name_lt(
        (#[trigger] c.pipes[x]).name,
        (#[trigger] c.pipes[y]).name,
    ) by {
        assert(c.pipes[x].name == b.pipes[x].name);
        assert(c.pipes[y].name == b.pipes[y].name);
    }
    assert(c.pipes[i].name == name);
    c.lemma_pipe_at(i);
}

} // verus!
