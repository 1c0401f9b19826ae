//! Rounds of a match between two peers held in one process: both send their
//! input, each hands the other everything it has to say, then both step.

use vstd::prelude::*;
use super::{
    CHECKSUM_INTERVAL, Desync, Lockstep, LockstepView, Message, Seat, Slots, Turn, compared,
    lemma_agreeing_checksums_never_desync, lemma_inputs_commute, lockstep_wf, queue_slot,
    spec_checksum, spec_is_over, spec_new_lockstep, spec_other, spec_ready, spec_record,
    spec_try_step, step_if_running,
};
use crate::game::{lemma_new_game_wf, lemma_step_keeps_wf, valid_board};

verus! {

/// What `send_input` does to a peer.
pub open spec fn spec_send(v: LockstepView, turn: Turn) -> LockstepView {
    LockstepView {
        next_input_tick: (v.next_input_tick + 1) as u64,
        inputs: spec_record(v.inputs, v.next_input_tick, v.seat, turn),
        ..v
    }
}

/// What `receive` does to a peer.
pub open spec fn spec_receive(v: LockstepView, m: Message) -> LockstepView {
    match m {
        Message::Input { tick, turn } => LockstepView {
            inputs: spec_record(v.inputs, tick, spec_other(v.seat), turn),
            ..v
        },
        Message::Checksum { tick, digest } => LockstepView { remote: v.remote.insert(tick, digest), ..v },
    }
}

/// Receiving the messages one after the other.
pub open spec fn spec_receive_all(v: LockstepView, ms: Seq<Message>) -> LockstepView
    decreases ms.len(),
{
    if ms.len() == 0 {
        v
    } else {
        spec_receive(spec_receive_all(v, ms.drop_last()), ms.last())
    }
}

/// One round: each peer sends its input and the other receives it; the host
/// hands over its outbox, then the guest; then the host steps, and the guest
/// after it unless the host found the peers diverged.
pub open spec fn spec_round(h: LockstepView, g: LockstepView, host_turn: Turn, guest_turn: Turn) -> (
    LockstepView,
    LockstepView,
    Result<(), Desync>,
) {
    let h1 = spec_receive(spec_send(h, host_turn), Message::Input { tick: g.next_input_tick, turn: guest_turn });
    let g1 = spec_receive(spec_send(g, guest_turn), Message::Input { tick: h.next_input_tick, turn: host_turn });
    let g2 = spec_receive_all(g1, h1.outbox);
    let h2 = LockstepView { outbox: Seq::empty(), ..h1 };
    let h3 = spec_receive_all(h2, g2.outbox);
    let g3 = LockstepView { outbox: Seq::empty(), ..g2 };
    let (h4, rh) = spec_try_step(h3);
    match rh {
        Err(e) => (h4, g3, Err(e)),
        Ok(_) => {
            let (g4, rg) = spec_try_step(g3);
            (
                h4,
                g4,
                match rg {
                    Err(e) => Err(e),
                    Ok(_) => Ok(()),
                },
            )
        },
    }
}

/// Hands every message to a peer, in order.
fn receive_all(peer: &mut Lockstep, ms: &Vec<Message>)
    requires
        old(peer).wf(),
    ensures
        final(peer)@ == spec_receive_all(old(peer)@, ms@),
        final(peer)@.tick == old(peer)@.tick,
        final(peer).wf(),
{
    let ghost start = peer@;
    let mut i: usize = 0;
    while i < ms.len()
        invariant
            i <= ms@.len(),
            peer.wf(),
            peer@.tick == start.tick,
            peer@ == spec_receive_all(start, ms@.take(i as int)),
        decreases ms@.len() - i,
    {
        proof {
            assert(ms@.take(i + 1).drop_last() =~= ms@.take(i as int));
            assert(ms@.take(i + 1).last() == ms@[i as int]);
        }
        peer.receive(ms[i]);
        i = i + 1;
    }
    proof {
        assert(ms@.take(ms@.len() as int) =~= ms@);
    }
}

/// Plays one round between two peers in this process: both send their
/// input, each receives the other's input and then everything in the
/// other's outbox (the host's first), then the host steps and, unless it
/// reports a desync, the guest.
pub fn play_round(host: &mut Lockstep, guest: &mut Lockstep, host_turn: Turn, guest_turn: Turn) -> (r: Result<(), Desync>)
    requires
        old(host).wf(),
        old(guest).wf(),
        old(host)@.next_input_tick < u64::MAX,
        old(guest)@.next_input_tick < u64::MAX,
        old(host)@.tick < u64::MAX,
        old(guest)@.tick < u64::MAX,
    ensures
        (final(host)@, final(guest)@, r) == spec_round(old(host)@, old(guest)@, host_turn, guest_turn),
        final(host).wf(),
        final(guest).wf(),
{
    let from_host = host.send_input(host_turn);
    let from_guest = guest.send_input(guest_turn);
    guest.receive(from_host);
    host.receive(from_guest);
    let out = host.drain_outbox();
    receive_all(guest, &out);
    let out = guest.drain_outbox();
    receive_all(host, &out);
    match host.try_step() {
        Err(e) => {
            return Err(e);
        },
        Ok(_) => {},
    }
    match guest.try_step() {
        Err(e) => Err(e),
        Ok(_) => Ok(()),
    }
}


// ── Two peers in step ───────────────────────────────────────────────────────

/// A checksum message whose digest is the one `d` fixes for its tick.
pub open spec fn checksum_fixed(m: Message, d: Map<u64, u64>) -> bool {
    match m {
        Message::Checksum { tick, digest } => d.contains_key(tick) && d[tick] == digest,
        Message::Input { .. } => false,
    }
}

/// Every checksum a peer holds, its own or received, and every message
/// waiting in its outbox, carries the digest that `d` fixes for its tick;
/// `d` speaks only of ticks the peer has run.
pub open spec fn digests_fixed(v: LockstepView, d: Map<u64, u64>) -> bool {
    &&& forall|t: u64| #[trigger] v.local.contains_key(t) ==> d.contains_key(t) && v.local[t] == d[t]
    &&& forall|t: u64| #[trigger] v.remote.contains_key(t) ==> d.contains_key(t) && v.remote[t] == d[t]
    &&& forall|i: int| 0 <= i < v.outbox.len() ==> checksum_fixed(#[trigger] v.outbox[i], d)
    &&& forall|t: u64| #[trigger] d.contains_key(t) ==> t < v.tick
}

/// Host and guest between rounds: the same two games at the same tick, the
/// same inputs and input schedule, and checksums that all agree with one
/// digest per tick.
pub open spec fn peers_in_step(h: LockstepView, g: LockstepView) -> bool {
    &&& h.seat == Seat::Host
    &&& g.seat == Seat::Guest
    &&& lockstep_wf(h)
    &&& lockstep_wf(g)
    &&& h.host == g.host
    &&& h.guest == g.guest
    &&& h.tick == g.tick
    &&& h.inputs == g.inputs
    &&& h.next_input_tick == g.next_input_tick
    &&& h.tick <= h.next_input_tick
    &&& exists|d: Map<u64, u64>| digests_fixed(h, d) && digests_fixed(g, d)
}

/// The digests once a peer has tried to step: the tick it runs, if it is a
/// checksum tick, gets the digest of the games it ends in.
pub open spec fn stepped_digests(v: LockstepView, d: Map<u64, u64>) -> Map<u64, u64> {
    if spec_is_over(v) || !spec_ready(v) {
        d
    } else {
        let slots = v.inputs[v.tick];
        let host = step_if_running(queue_slot(v.host, slots.0));
        let guest = step_if_running(queue_slot(v.guest, slots.1));
        if v.tick % CHECKSUM_INTERVAL == 0 {
            d.insert(v.tick, spec_checksum(host, guest))
        } else {
            d
        }
    }
}

/// Receiving checksum messages that agree with `d` changes nothing but the
/// received checksums, and they agree with `d` too.
proof fn lemma_receive_checksums(v: LockstepView, ms: Seq<Message>, d: Map<u64, u64>)
    requires
        digests_fixed(v, d),
        forall|i: int| 0 <= i < ms.len() ==> checksum_fixed(#[trigger] ms[i], d),
    ensures
        spec_receive_all(v, ms) == (LockstepView { remote: spec_receive_all(v, ms).remote, ..v }),
        digests_fixed(spec_receive_all(v, ms), d),
    decreases ms.len(),
{
    if ms.len() > 0 {
        let init = ms.drop_last();
        assert forall|i: int| 0 <= i < init.len() implies checksum_fixed(#[trigger] init[i], d) by {
            assert(init[i] == ms[i]);
        }
        lemma_receive_checksums(v, init, d);
        assert(checksum_fixed(ms[ms.len() - 1], d));
        let w = spec_receive_all(v, init);
        let r = spec_receive_all(v, ms);
        assert forall|t: u64| #[trigger] r.remote.contains_key(t) implies d.contains_key(t) && r.remote[t] == d[t] by {
            if !w.remote.contains_key(t) {
                assert(ms.last() == ms[ms.len() - 1]);
            }
        }
    }
}

/// A peer's attempt to step keeps the match's invariant.
proof fn lemma_try_step_wf(v: LockstepView)
    requires
        lockstep_wf(v),
        v.tick < u64::MAX,
    ensures
        lockstep_wf(spec_try_step(v).0),
{
    if !(spec_is_over(v) || !spec_ready(v)) {
        let slots = v.inputs[v.tick];
        let qh = queue_slot(v.host, slots.0);
        let qg = queue_slot(v.guest, slots.1);
        lemma_step_keeps_wf(qh);
        lemma_step_keeps_wf(qg);
    }
}

/// A peer whose checksums agree with `d` steps without finding a desync,
/// and its checksums then agree with the stepped digests.
proof fn lemma_step_fixed(v: LockstepView, d: Map<u64, u64>)
    requires
        digests_fixed(v, d),
        v.tick < u64::MAX,
    ensures
        spec_try_step(v).1 is Ok,
        digests_fixed(spec_try_step(v).0, stepped_digests(v, d)),
{
    if !(spec_is_over(v) || !spec_ready(v)) {
        let slots = v.inputs[v.tick];
        let host = step_if_running(queue_slot(v.host, slots.0));
        let guest = step_if_running(queue_slot(v.guest, slots.1));
        let completed = v.tick;
        let v1 = LockstepView {
            host,
            guest,
            inputs: v.inputs.remove(v.tick),
            tick: (v.tick + 1) as u64,
            ..v
        };
        let d2 = stepped_digests(v, d);
        let v2 = if completed % CHECKSUM_INTERVAL == 0 {
            let c = spec_checksum(host, guest);
            LockstepView {
                local: v1.local.insert(completed, c),
                outbox: v1.outbox.push(Message::Checksum { tick: completed, digest: c }),
                ..v1
            }
        } else {
            v1
        };
        assert(!d.contains_key(completed));
        assert forall|i: int| 0 <= i < v2.outbox.len() implies checksum_fixed(#[trigger] v2.outbox[i], d2) by {
            if i < v.outbox.len() {
                assert(v2.outbox[i] == v.outbox[i]);
                assert(checksum_fixed(v.outbox[i], d));
            }
        }
        assert(digests_fixed(v2, d2));
        assert forall|t: u64| compared(v2, t) implies v2.local[t] == v2.remote[t] by {
            assert(v2.local.contains_key(t));
            assert(v2.remote.contains_key(t));
        }
        lemma_agreeing_checksums_never_desync(v2);
        let v3 = spec_try_step(v).0;
        assert(forall|i: int| 0 <= i < v3.outbox.len() ==> v3.outbox[i] == v2.outbox[i]);
        assert forall|t: u64| #[trigger] v3.local.contains_key(t) implies d2.contains_key(t) && v3.local[t] == d2[t] by {
            assert(v2.local.contains_key(t));
        }
        assert forall|t: u64| #[trigger] v3.remote.contains_key(t) implies d2.contains_key(t) && v3.remote[t] == d2[t] by {
            assert(v2.remote.contains_key(t));
        }
    }
}

/// A round keeps two peers in step, and neither finds a desync.
pub proof fn lemma_round_keeps_peers_in_step(h: LockstepView, g: LockstepView, host_turn: Turn, guest_turn: Turn)
    requires
        peers_in_step(h, g),
        h.next_input_tick < u64::MAX,
    ensures
        spec_round(h, g, host_turn, guest_turn).2 is Ok,
        peers_in_step(spec_round(h, g, host_turn, guest_turn).0, spec_round(h, g, host_turn, guest_turn).1),
        spec_round(h, g, host_turn, guest_turn).0.next_input_tick == h.next_input_tick + 1,
{
    let d = choose|d: Map<u64, u64>| digests_fixed(h, d) && digests_fixed(g, d);
    let n = h.next_input_tick;
    let h1 = spec_receive(spec_send(h, host_turn), Message::Input { tick: g.next_input_tick, turn: guest_turn });
    let g1 = spec_receive(spec_send(g, guest_turn), Message::Input { tick: h.next_input_tick, turn: host_turn });
    lemma_inputs_commute(h.inputs, n, Seat::Host, host_turn, n, Seat::Guest, guest_turn);
    assert(h1.inputs == g1.inputs);
    assert(digests_fixed(h1, d));
    assert(digests_fixed(g1, d));
    lemma_receive_checksums(g1, h1.outbox, d);
    let g2 = spec_receive_all(g1, h1.outbox);
    let h2 = LockstepView { outbox: Seq::empty(), ..h1 };
    assert(digests_fixed(h2, d));
    lemma_receive_checksums(h2, g2.outbox, d);
    let h3 = spec_receive_all(h2, g2.outbox);
    let g3 = LockstepView { outbox: Seq::empty(), ..g2 };
    assert(digests_fixed(g3, d));
    assert(lockstep_wf(h3) && lockstep_wf(g3));
    assert(h3.tick == h.tick && g3.tick == g.tick);
    lemma_step_fixed(h3, d);
    lemma_step_fixed(g3, d);
    lemma_try_step_wf(h3);
    lemma_try_step_wf(g3);
    assert(stepped_digests(h3, d) == stepped_digests(g3, d));
    let h4 = spec_try_step(h3).0;
    let g4 = spec_try_step(g3).0;
    assert(h4.host == g4.host && h4.guest == g4.guest && h4.tick == g4.tick && h4.inputs == g4.inputs);
    assert(digests_fixed(h4, stepped_digests(h3, d)) && digests_fixed(g4, stepped_digests(h3, d)));
}

/// Rounds played one after the other, stopping at the first desync.
pub open spec fn spec_rounds(h: LockstepView, g: LockstepView, turns: Seq<(Turn, Turn)>) -> (
    LockstepView,
    LockstepView,
    Result<(), Desync>,
)
    decreases turns.len(),
{
    if turns.len() == 0 {
        (h, g, Ok(()))
    } else {
        let (h1, g1, r) = spec_rounds(h, g, turns.drop_last());
        match r {
            Err(e) => (h1, g1, Err(e)),
            Ok(_) => spec_round(h1, g1, turns.last().0, turns.last().1),
        }
    }
}

/// Rounds keep two peers in step, and none reports a desync.
proof fn lemma_rounds_keep_peers_in_step(h: LockstepView, g: LockstepView, turns: Seq<(Turn, Turn)>)
    requires
        peers_in_step(h, g),
        h.next_input_tick + turns.len() < u64::MAX,
    ensures
        spec_rounds(h, g, turns).2 is Ok,
        peers_in_step(spec_rounds(h, g, turns).0, spec_rounds(h, g, turns).1),
        spec_rounds(h, g, turns).0.next_input_tick == h.next_input_tick + turns.len(),
    decreases turns.len(),
{
    if turns.len() > 0 {
        lemma_rounds_keep_peers_in_step(h, g, turns.drop_last());
        let (h1, g1, r) = spec_rounds(h, g, turns.drop_last());
        lemma_round_keeps_peers_in_step(h1, g1, turns.last().0, turns.last().1);
    }
}

/// A fresh host and guest of one match start in step.
proof fn lemma_new_peers_in_step(width: i32, height: i32, seeds: Seq<u64>, delay: u64)
    requires
        seeds.len() == 2,
        delay > 0,
        valid_board(width as int, height as int),
    ensures
        peers_in_step(
            spec_new_lockstep(Seat::Host, width, height, seeds, delay),
            spec_new_lockstep(Seat::Guest, width, height, seeds, delay),
        ),
{
    reveal(crate::game::spec_new_game);
    lemma_new_game_wf(width, height, seeds[0]);
    lemma_new_game_wf(width, height, seeds[1]);
    let h = spec_new_lockstep(Seat::Host, width, height, seeds, delay);
    let g = spec_new_lockstep(Seat::Guest, width, height, seeds, delay);
    assert(digests_fixed(h, Map::empty()) && digests_fixed(g, Map::empty()));
}

/// Two peers stay identical for a whole match: a host and a guest started
/// with the same size, seeds and delay, playing any inputs round after
/// round, never report a desync, and after every round hold the same two
/// games at the same tick, so their checksums agree and, once the match is
/// over, so does the winner.
pub proof fn lemma_peers_stay_identical(
    width: i32,
    height: i32,
    seeds: Seq<u64>,
    delay: u64,
    turns: Seq<(Turn, Turn)>,
)
    requires
        seeds.len() == 2,
        delay > 0,
        valid_board(width as int, height as int),
        delay + turns.len() < u64::MAX,
    ensures
        ({
            let (h, g, r) = spec_rounds(
                spec_new_lockstep(Seat::Host, width, height, seeds, delay),
                spec_new_lockstep(Seat::Guest, width, height, seeds, delay),
                turns,
            );
            &&& r is Ok
            &&& peers_in_step(h, g)
            &&& h.host == g.host
            &&& h.guest == g.guest
            &&& h.tick == g.tick
            &&& spec_checksum(h.host, h.guest) == spec_checksum(g.host, g.guest)
        }),
{
    lemma_new_peers_in_step(width, height, seeds, delay);
    lemma_rounds_keep_peers_in_step(
        spec_new_lockstep(Seat::Host, width, height, seeds, delay),
        spec_new_lockstep(Seat::Guest, width, height, seeds, delay),
        turns,
    );
}


// ── Delivery order ──────────────────────────────────────────────────────────

/// The tick a message speaks of.
pub open spec fn message_tick(m: Message) -> u64 {
    match m {
        Message::Input { tick, .. } => tick,
        Message::Checksum { tick, .. } => tick,
    }
}

/// Input messages, no two for the same tick.
pub open spec fn distinct_inputs(ms: Seq<Message>) -> bool {
    &&& forall|i: int| 0 <= i < ms.len() ==> (#[trigger] ms[i]) is Input
    &&& forall|i: int, j: int|
        0 <= i < j < ms.len() ==> message_tick(#[trigger] ms[i]) != message_tick(#[trigger] ms[j])
}

/// Whether `msgs` holds an input for `tick`.
pub open spec fn has_input_for(msgs: Set<Message>, tick: u64) -> bool {
    exists|u: Turn| msgs.contains(Message::Input { tick, turn: u })
}

/// The inputs once the input messages `msgs`, at most one per tick, have
/// been filed for `seat`: each fills that seat's slot for its tick if the
/// slot is still empty.
pub open spec fn inputs_after(inputs: Map<u64, Slots>, seat: Seat, msgs: Set<Message>) -> Map<u64, Slots> {
    Map::new(
        |t: u64| inputs.contains_key(t) || has_input_for(msgs, t),
        |t: u64|
            if has_input_for(msgs, t) {
                spec_record(
                    inputs,
                    t,
                    seat,
                    choose|u: Turn| msgs.contains(Message::Input { tick: t, turn: u }),
                )[t]
            } else {
                inputs[t]
            },
    )
}

/// Receiving input messages, one per tick, files each of them.
proof fn lemma_receive_inputs(v: LockstepView, ms: Seq<Message>)
    requires
        distinct_inputs(ms),
    ensures
        spec_receive_all(v, ms) == (LockstepView {
            inputs: inputs_after(v.inputs, spec_other(v.seat), ms.to_set()),
            ..v
        }),
    decreases ms.len(),
{
    let seat = spec_other(v.seat);
    if ms.len() == 0 {
        assert(ms.to_set() =~= Set::<Message>::empty());
        assert(inputs_after(v.inputs, seat, ms.to_set()) =~= v.inputs);
    } else {
        let init = ms.drop_last();
        assert(distinct_inputs(init)) by {
            assert forall|i: int, j: int| 0 <= i < j < init.len() implies message_tick(#[trigger] init[i])
                != message_tick(#[trigger] init[j]) by {
                assert(init[i] == ms[i] && init[j] == ms[j]);
            }
            assert forall|i: int| 0 <= i < init.len() implies (#[trigger] init[i]) is Input by {
                assert(init[i] == ms[i]);
            }
        }
        lemma_receive_inputs(v, init);
        let m = ms.last();
        assert(ms[ms.len() - 1] is Input);
        let t = message_tick(m);
        let u = match m {
            Message::Input { turn, .. } => turn,
            Message::Checksum { .. } => None,
        };
        assert(m == Message::Input { tick: t, turn: u });
        let s0 = init.to_set();
        assert(ms == init.push(m));
        init.lemma_push_to_set_commute(m);
        let s1 = ms.to_set();
        assert(s1 == s0.insert(m));
        assert(!has_input_for(s0, t)) by {
            if has_input_for(s0, t) {
                let w = choose|w: Turn| s0.contains(Message::Input { tick: t, turn: w });
                assert(init.contains(Message::Input { tick: t, turn: w }));
                let k = choose|k: int| 0 <= k < init.len() && init[k] == Message::Input { tick: t, turn: w };
                assert(ms[k] == init[k]);
                assert(message_tick(ms[k]) != message_tick(ms[ms.len() - 1]));
            }
        }
        let a = inputs_after(v.inputs, seat, s0);
        let b = inputs_after(v.inputs, seat, s1);
        assert(has_input_for(s1, t)) by {
            assert(s1.contains(Message::Input { tick: t, turn: u }));
        }
        assert forall|w: Turn| s1.contains(Message::Input { tick: t, turn: w }) implies w == u by {
            if w != u {
                assert(s0.contains(Message::Input { tick: t, turn: w }));
            }
        }
        assert forall|x: u64| x != t implies has_input_for(s1, x) == has_input_for(s0, x) by {
            if has_input_for(s1, x) {
                let w = choose|w: Turn| s1.contains(Message::Input { tick: x, turn: w });
                assert(s0.contains(Message::Input { tick: x, turn: w }));
            }
            if has_input_for(s0, x) {
                let w = choose|w: Turn| s0.contains(Message::Input { tick: x, turn: w });
                assert(s1.contains(Message::Input { tick: x, turn: w }));
            }
        }
        assert forall|x: u64| x != t && #[trigger] has_input_for(s1, x) implies (choose|w: Turn|
            s1.contains(Message::Input { tick: x, turn: w })) == (choose|w: Turn|
            s0.contains(Message::Input { tick: x, turn: w })) by {
            assert forall|w: Turn| s1.contains(Message::Input { tick: x, turn: w }) == s0.contains(
                Message::Input { tick: x, turn: w },
            ) by {}
            assert((|w: Turn| s1.contains(Message::Input { tick: x, turn: w })) =~= (|w: Turn|
                s0.contains(Message::Input { tick: x, turn: w })));
        }
        assert(spec_record(a, t, seat, u) =~= b);
    }
}

/// Delivery order does not matter: input messages for distinct ticks leave
/// a peer in the same state whatever order they arrive in, since each fills
/// the other seat's slot for its own tick, and only if it is still empty.
pub proof fn lemma_delivery_order_is_irrelevant(v: LockstepView, ms: Seq<Message>, ns: Seq<Message>)
    requires
        distinct_inputs(ms),
        distinct_inputs(ns),
        ms.to_set() == ns.to_set(),
    ensures
        spec_receive_all(v, ms) == spec_receive_all(v, ns),
{
    lemma_receive_inputs(v, ms);
    lemma_receive_inputs(v, ns);
}

} // verus!
