//! Two-player Snake over lockstep networking.
//!
//! Each peer runs both games itself, and the peers exchange only inputs: "on
//! tick 47 I pressed left". A tick advances when both peers' inputs for it are
//! known. Peers periodically exchange a checksum of the whole world; if the
//! checksums for a tick disagree the games have diverged and the match is
//! over.

use vstd::prelude::*;
use std::collections::{BTreeMap, VecDeque};
use crate::game::{
    SnakeGame, SnakeView, lemma_step_keeps_wf, lemma_step_ticks, snake_wf, spec_new_game, spec_step,
    turn_accepted, valid_board,
};
use crate::snake::{Coord, Direction, GameStatus};

pub mod rounds;

verus! {

broadcast use vstd::laws_cmp::group_laws_cmp;

/// Which of the two players a peer is.
#[derive(Clone, Copy, Debug, PartialEq, Eq, PartialOrd, Ord, Structural)]
pub enum Seat {
    /// The player who created the match.
    Host,
    /// The player who joined it.
    Guest,
}

/// The other seat.
pub open spec fn spec_other(s: Seat) -> Seat {
    match s {
        Seat::Host => Seat::Guest,
        Seat::Guest => Seat::Host,
    }
}

/// The position of a seat in the pairs used throughout.
pub open spec fn spec_index(s: Seat) -> usize {
    match s {
        Seat::Host => 0,
        Seat::Guest => 1,
    }
}

impl Seat {
    /// The other seat.
    pub fn other(self) -> (s: Seat)
        ensures
            s == spec_other(self),
    {
        match self {
            Seat::Host => Seat::Guest,
            Seat::Guest => Seat::Host,
        }
    }

    /// Index into the two-element pairs used throughout.
    pub fn index(self) -> (i: usize)
        ensures
            i == spec_index(self),
            i < 2,
    {
        match self {
            Seat::Host => 0,
            Seat::Guest => 1,
        }
    }
}

/// Seats come in opposite pairs with distinct indices.
pub proof fn lemma_seats_are_opposites(s: Seat)
    ensures
        spec_other(spec_other(s)) == s,
        spec_other(s) != s,
        spec_index(spec_other(s)) != spec_index(s),
{
}

/// One player's input for one tick: a steering choice, or nothing.
pub type Turn = Option<Direction>;

/// A message between peers. The entire protocol.
#[derive(Clone, Copy, Debug, PartialEq, Eq, Structural)]
pub enum Message {
    /// This seat's input for a tick.
    Input {
        /// The tick the input applies to.
        tick: u64,
        /// What was pressed, if anything.
        turn: Turn,
    },
    /// A checksum of the sender's whole world at the end of a tick.
    Checksum {
        /// The tick the checksum describes.
        tick: u64,
        /// The digest itself.
        digest: u64,
    },
}

/// Why a match stopped.
#[derive(Clone, Copy, Debug, PartialEq, Eq, Structural)]
pub enum Desync {
    /// The peers' checksums for a tick disagreed: the games have diverged.
    ChecksumMismatch {
        /// The tick at which they first disagreed.
        tick: u64,
        /// What this peer computed.
        local: u64,
        /// What the other peer reported.
        remote: u64,
    },
}

/// How often peers compare checksums, in ticks.
pub const CHECKSUM_INTERVAL: u64 = 30;

/// The inputs known for one tick: one slot per seat, filled once.
pub type Slots = (Option<Turn>, Option<Turn>);

// ── Checksums ───────────────────────────────────────────────────────────────

/// FNV-1a's starting value.
pub const FNV_OFFSET: u64 = 0xcbf2_9ce4_8422_2325;

/// FNV-1a's multiplier.
pub const FNV_PRIME: u64 = 0x1000_0000_01b3;

/// One byte of FNV-1a.
pub open spec fn fnv_byte(h: u64, b: u8) -> u64 {
    vstd::wrapping::u64_specs::wrapping_mul(h ^ (b as u64), FNV_PRIME)
}

/// FNV-1a over `bytes`, continuing from `h`.
pub open spec fn fnv_fold(h: u64, bytes: Seq<u8>) -> u64
    decreases bytes.len(),
{
    if bytes.len() == 0 {
        h
    } else {
        fnv_byte(fnv_fold(h, bytes.drop_last()), bytes.last())
    }
}

/// Hashing two pieces one after the other is hashing them joined.
pub proof fn lemma_fnv_fold_concat(h: u64, a: Seq<u8>, b: Seq<u8>)
    ensures
        fnv_fold(h, a + b) == fnv_fold(fnv_fold(h, a), b),
    decreases b.len(),
{
    if b.len() == 0 {
        assert(a + b =~= a);
    } else {
        lemma_fnv_fold_concat(h, a, b.drop_last());
        assert((a + b).drop_last() =~= a + b.drop_last());
        assert((a + b).last() == b.last());
    }
}

/// The little-endian bytes of a `u64`.
pub open spec fn u64_le(v: u64) -> Seq<u8> {
    Seq::new(8, |i: int| (v >> ((8 * i) as u64)) as u8)
}

/// The little-endian bytes of a `u32`.
pub open spec fn u32_le(v: u32) -> Seq<u8> {
    Seq::new(4, |i: int| (v >> ((8 * i) as u32)) as u8)
}

/// The little-endian bytes of an `i32`.
pub open spec fn i32_le(v: i32) -> Seq<u8> {
    u32_le(v as u32)
}

/// The bytes of a snake's cells, head first.
pub open spec fn body_bytes(body: Seq<Coord>) -> Seq<u8>
    decreases body.len(),
{
    if body.len() == 0 {
        Seq::empty()
    } else {
        body_bytes(body.drop_last()) + i32_le(body.last().x) + i32_le(body.last().y)
    }
}

/// The bytes of one game that feed its checksum: everything that feeds the
/// next tick.
pub open spec fn game_bytes(g: SnakeView) -> Seq<u8> {
    u64_le(g.ticks) + u32_le(g.score) + seq![if g.status != GameStatus::Running {
        1u8
    } else {
        0u8
    }] + body_bytes(g.body) + match g.food {
        Some(f) => i32_le(f.x) + i32_le(f.y),
        None => Seq::empty(),
    }
}

/// The digest of both games.
pub open spec fn spec_checksum(host: SnakeView, guest: SnakeView) -> u64 {
    fnv_fold(FNV_OFFSET, game_bytes(host) + game_bytes(guest))
}

/// Hashes the little-endian bytes of `v`.
fn hash_u64(h: u64, v: u64) -> (r: u64)
    ensures
        r == fnv_fold(h, u64_le(v)),
{
    let mut acc = h;
    let mut i: u64 = 0;
    while i < 8
        invariant
            i <= 8,
            acc == fnv_fold(h, u64_le(v).take(i as int)),
        decreases 8 - i,
    {
        let b = (v >> (8 * i)) as u8;
        proof {
            assert(u64_le(v).take(i + 1).drop_last() =~= u64_le(v).take(i as int));
            assert(u64_le(v).take(i + 1).last() == b);
        }
        acc = (acc ^ (b as u64)).wrapping_mul(FNV_PRIME);
        i = i + 1;
    }
    proof {
        assert(u64_le(v).take(8) =~= u64_le(v));
    }
    acc
}

/// Hashes the little-endian bytes of `v`.
fn hash_u32(h: u64, v: u32) -> (r: u64)
    ensures
        r == fnv_fold(h, u32_le(v)),
{
    let mut acc = h;
    let mut i: u32 = 0;
    while i < 4
        invariant
            i <= 4,
            acc == fnv_fold(h, u32_le(v).take(i as int)),
        decreases 4 - i,
    {
        let b = (v >> (8 * i)) as u8;
        proof {
            assert(u32_le(v).take(i + 1).drop_last() =~= u32_le(v).take(i as int));
            assert(u32_le(v).take(i + 1).last() == b);
        }
        acc = (acc ^ (b as u64)).wrapping_mul(FNV_PRIME);
        i = i + 1;
    }
    proof {
        assert(u32_le(v).take(4) =~= u32_le(v));
    }
    acc
}

/// Hashes the bytes of one game.
fn hash_game(h: u64, game: &SnakeGame) -> (r: u64)
    ensures
        r == fnv_fold(h, game_bytes(game@)),
{
    let ghost g = game@;
    let ghost ticks_bytes = u64_le(g.ticks);
    let ghost score_bytes = u32_le(g.score);
    let over_byte: u8 = if game.is_over() {
        1
    } else {
        0
    };
    let mut acc = hash_u64(h, game.ticks());
    acc = hash_u32(acc, game.score());
    acc = (acc ^ (over_byte as u64)).wrapping_mul(FNV_PRIME);
    let ghost head = ticks_bytes + score_bytes + seq![over_byte];
    proof {
        lemma_fnv_fold_concat(h, ticks_bytes, score_bytes);
        assert((ticks_bytes + score_bytes).push(over_byte) =~= head);
        assert(head.drop_last() =~= ticks_bytes + score_bytes);
        assert(acc == fnv_fold(h, head));
    }
    let body = game.body();
    let n = body.len();
    let mut i: usize = 0;
    proof {
        assert(body@.take(0) =~= Seq::<Coord>::empty());
        assert(head + body_bytes(body@.take(0)) =~= head);
    }
    while i < n
        invariant
            n == body@.len(),
            i <= n,
            acc == fnv_fold(h, head + body_bytes(body@.take(i as int))),
        decreases n - i,
    {
        let c = body[i];
        let a0 = acc;
        acc = hash_u32(acc, c.x as u32);
        acc = hash_u32(acc, c.y as u32);
        proof {
            let prev = head + body_bytes(body@.take(i as int));
            lemma_fnv_fold_concat(h, prev, i32_le(c.x));
            lemma_fnv_fold_concat(h, prev + i32_le(c.x), i32_le(c.y));
            assert(body@.take(i + 1).drop_last() =~= body@.take(i as int));
            assert(body@.take(i + 1).last() == c);
            assert(head + body_bytes(body@.take(i + 1)) =~= prev + i32_le(c.x) + i32_le(c.y));
        }
        i = i + 1;
    }
    proof {
        assert(body@.take(n as int) =~= g.body);
    }
    match game.food() {
        Some(f) => {
            let a0 = acc;
            acc = hash_u32(acc, f.x as u32);
            acc = hash_u32(acc, f.y as u32);
            proof {
                let prev = head + body_bytes(g.body);
                lemma_fnv_fold_concat(h, prev, i32_le(f.x));
                lemma_fnv_fold_concat(h, prev + i32_le(f.x), i32_le(f.y));
                lemma_fnv_fold_concat(h, prev, i32_le(f.x) + i32_le(f.y));
                assert(prev + i32_le(f.x) + i32_le(f.y) =~= prev + (i32_le(f.x) + i32_le(f.y)));
                assert(game_bytes(g) =~= prev + (i32_le(f.x) + i32_le(f.y)));
            }
        },
        None => {
            proof {
                assert(game_bytes(g) =~= head + body_bytes(g.body));
            }
        },
    }
    acc
}

// ── The match ───────────────────────────────────────────────────────────────

/// A match as plain values.
pub struct LockstepView {
    pub seat: Seat,
    pub host: SnakeView,
    pub guest: SnakeView,
    pub inputs: Map<u64, Slots>,
    pub remote: Map<u64, u64>,
    pub local: Map<u64, u64>,
    pub tick: u64,
    pub delay: u64,
    pub next_input_tick: u64,
    pub outbox: Seq<Message>,
}

/// The invariant of a match.
pub open spec fn lockstep_wf(v: LockstepView) -> bool {
    &&& snake_wf(v.host)
    &&& snake_wf(v.guest)
    &&& v.host.width == v.guest.width
    &&& v.host.height == v.guest.height
    &&& v.host.ticks <= v.tick
    &&& v.guest.ticks <= v.tick
    &&& v.delay > 0
}

/// Files an input, ignoring a duplicate: each slot is filled once.
pub open spec fn spec_record(inputs: Map<u64, Slots>, tick: u64, seat: Seat, turn: Turn) -> Map<
    u64,
    Slots,
> {
    let slots = if inputs.contains_key(tick) {
        inputs[tick]
    } else {
        (None, None)
    };
    let filled = match seat {
        Seat::Host => if slots.0 is None {
            (Some(turn), slots.1)
        } else {
            slots
        },
        Seat::Guest => if slots.1 is None {
            (slots.0, Some(turn))
        } else {
            slots
        },
    };
    inputs.insert(tick, filled)
}

/// The opening inputs: the first `delay` ticks have no input from anyone.
pub open spec fn opening_inputs(delay: u64) -> Map<u64, Slots> {
    Map::new(|t: u64| t < delay, |t: u64| (Some(None::<Direction>), Some(None::<Direction>)))
}

/// A fresh match.
pub open spec fn spec_new_lockstep(seat: Seat, width: i32, height: i32, seeds: Seq<u64>, delay: u64) -> LockstepView {
    LockstepView {
        seat,
        host: spec_new_game(width, height, seeds[0]),
        guest: spec_new_game(width, height, seeds[1]),
        inputs: opening_inputs(delay),
        remote: Map::empty(),
        local: Map::empty(),
        tick: 0,
        delay,
        next_input_tick: delay,
        outbox: Seq::empty(),
    }
}

/// Whether either snake has died.
pub open spec fn spec_is_over(v: LockstepView) -> bool {
    v.host.status != GameStatus::Running || v.guest.status != GameStatus::Running
}

/// Whether every input needed for the next tick has arrived.
pub open spec fn spec_ready(v: LockstepView) -> bool {
    v.inputs.contains_key(v.tick) && v.inputs[v.tick].0 is Some && v.inputs[v.tick].1 is Some
}

/// Queues a slot's turn, if it holds one.
pub open spec fn queue_slot(g: SnakeView, slot: Option<Turn>) -> SnakeView {
    match slot {
        Some(Some(d)) => if turn_accepted(g, d) {
            SnakeView { queued: Some(d), ..g }
        } else {
            g
        },
        _ => g,
    }
}

/// Steps a game that is still running.
pub open spec fn step_if_running(g: SnakeView) -> SnakeView {
    if g.status == GameStatus::Running {
        spec_step(g).0
    } else {
        g
    }
}

/// A tick with a checksum on both sides.
pub open spec fn compared(v: LockstepView, t: u64) -> bool {
    v.local.contains_key(t) && v.remote.contains_key(t)
}

/// A tick whose checksums disagree.
pub open spec fn mismatched(v: LockstepView, t: u64) -> bool {
    compared(v, t) && v.local[t] != v.remote[t]
}

/// The first tick whose checksums disagree, if any.
pub open spec fn first_mismatch(v: LockstepView) -> u64 {
    choose|t: u64| mismatched(v, t) && forall|u: u64| mismatched(v, u) ==> t <= u
}

/// Compares every checksum pair that has both halves, in tick order: each
/// agreeing pair is dropped, and the first disagreeing one is dropped and
/// reported, leaving later pairs in place.
pub open spec fn spec_compare(v: LockstepView) -> (LockstepView, Result<(), Desync>) {
    if exists|t: u64| mismatched(v, t) {
        let t = first_mismatch(v);
        let done = Set::new(|u: u64| compared(v, u) && u <= t);
        (
            LockstepView { local: v.local.remove_keys(done), remote: v.remote.remove_keys(done), ..v },
            Err(Desync::ChecksumMismatch { tick: t, local: v.local[t], remote: v.remote[t] }),
        )
    } else {
        let done = Set::new(|u: u64| compared(v, u));
        (
            LockstepView { local: v.local.remove_keys(done), remote: v.remote.remove_keys(done), ..v },
            Ok(()),
        )
    }
}

/// Runs one tick if both peers' inputs for it are known: `Ok(true)` if it
/// ran, `Ok(false)` if it is still waiting, `Err` if the peers diverged.
pub open spec fn spec_try_step(v: LockstepView) -> (LockstepView, Result<bool, Desync>) {
    if spec_is_over(v) || !spec_ready(v) {
        (v, Ok(false))
    } else {
        let slots = v.inputs[v.tick];
        let host = step_if_running(queue_slot(v.host, slots.0));
        let guest = step_if_running(queue_slot(v.guest, slots.1));
        let completed = v.tick;
        let v1 = LockstepView {
            host,
            guest,
            inputs: v.inputs.remove(v.tick),
            tick: (v.tick + 1) as u64,
            ..v
        };
        let v2 = if completed % CHECKSUM_INTERVAL == 0 {
            let d = spec_checksum(host, guest);
            LockstepView {
                local: v1.local.insert(completed, d),
                outbox: v1.outbox.push(Message::Checksum { tick: completed, digest: d }),
                ..v1
            }
        } else {
            v1
        };
        let (v3, r) = spec_compare(v2);
        (
            v3,
            match r {
                Ok(()) => Ok(true),
                Err(e) => Err(e),
            },
        )
    }
}

/// The ticks among the first `j` of `ticks` at or before `cut` (all of
/// them when there is no cut).
pub open spec fn dropped(ticks: Seq<u64>, j: int, cut: Option<u64>) -> Set<u64> {
    Set::new(
        |u: u64|
            exists|k: int|
                0 <= k < j && ticks[k] == u && match cut {
                    Some(f) => u <= f,
                    None => true,
                },
    )
}

/// Some disagreeing tick exists, so a first one does.
proof fn lemma_first_mismatch_exists(v: LockstepView, t: u64)
    requires
        mismatched(v, t),
    ensures
        mismatched(v, first_mismatch(v)),
        forall|u: u64| mismatched(v, u) ==> first_mismatch(v) <= u,
    decreases t,
{
    if exists|u: u64| mismatched(v, u) && u < t {
        let u = choose|u: u64| mismatched(v, u) && u < t;
        lemma_first_mismatch_exists(v, u);
    } else {
        assert(mismatched(v, t) && forall|u: u64| mismatched(v, u) ==> t <= u);
    }
}

// ── Laws of the protocol ────────────────────────────────────────────────────

/// Inputs are first-writer-wins: once a seat's slot for a tick is filled, a
/// later input for that seat and tick changes nothing.
pub proof fn lemma_first_input_wins(inputs: Map<u64, Slots>, tick: u64, seat: Seat, a: Turn, b: Turn)
    ensures
        spec_record(spec_record(inputs, tick, seat, a), tick, seat, b) == spec_record(
            inputs,
            tick,
            seat,
            a,
        ),
{
    let once = spec_record(inputs, tick, seat, a);
    assert(spec_record(once, tick, seat, b) =~= once);
}

/// Delivery order does not matter: two inputs commute unless they fill the
/// very same slot (the same tick for the same seat), where the first wins.
pub proof fn lemma_inputs_commute(
    inputs: Map<u64, Slots>,
    t1: u64,
    s1: Seat,
    a: Turn,
    t2: u64,
    s2: Seat,
    b: Turn,
)
    requires
        t1 != t2 || s1 != s2,
    ensures
        spec_record(spec_record(inputs, t1, s1, a), t2, s2, b) == spec_record(
            spec_record(inputs, t2, s2, b),
            t1,
            s1,
            a,
        ),
{
    let x = spec_record(spec_record(inputs, t1, s1, a), t2, s2, b);
    let y = spec_record(spec_record(inputs, t2, s2, b), t1, s1, a);
    assert(x =~= y);
}

/// A peer will not run ahead: without both inputs for the next tick, or once
/// the match is over, a step does nothing and reports that it waited.
pub proof fn lemma_waiting_changes_nothing(v: LockstepView)
    requires
        spec_is_over(v) || !spec_ready(v),
    ensures
        spec_try_step(v) == (v, Ok::<bool, Desync>(false)),
{
}

/// Peers whose checksums agree on every tick that both have are never told
/// they diverged, and every such pair is dropped once compared.
pub proof fn lemma_agreeing_checksums_never_desync(v: LockstepView)
    requires
        forall|t: u64| compared(v, t) ==> v.local[t] == v.remote[t],
    ensures
        spec_compare(v).1 == Ok::<(), Desync>(()),
        forall|t: u64| !compared(spec_compare(v).0, t),
{
    assert(!exists|t: u64| mismatched(v, t));
}

/// Four little-endian bytes name one `u32`.
proof fn lemma_u32_le_injective(a: u32, b: u32)
    requires
        u32_le(a) == u32_le(b),
    ensures
        a == b,
{
    assert forall|i: int| 0 <= i < 4 implies #[trigger] ((a >> ((8 * i) as u32)) as u8) == ((b >> ((
    8 * i) as u32)) as u8) by {
        assert(u32_le(a).len() == 4);
        assert(u32_le(a)[i] == (a >> ((8 * i) as u32)) as u8);
        assert(u32_le(b)[i] == (b >> ((8 * i) as u32)) as u8);
        assert(u32_le(a)[i] == u32_le(b)[i]);
    }
    let (s0, s1, s2, s3) = ((8 * 0int) as u32, (8 * 1int) as u32, (8 * 2int) as u32, (8 * 3int) as u32);
    assert(s0 == 0 && s1 == 8 && s2 == 16 && s3 == 24);
    assert((a >> s0) as u8 == (b >> s0) as u8);
    assert((a >> s1) as u8 == (b >> s1) as u8);
    assert((a >> s2) as u8 == (b >> s2) as u8);
    assert((a >> s3) as u8 == (b >> s3) as u8);
    assert(a == b) by (bit_vector)
        requires
            s0 == 0 && s1 == 8 && s2 == 16 && s3 == 24,
            (a >> s0) as u8 == (b >> s0) as u8,
            (a >> s1) as u8 == (b >> s1) as u8,
            (a >> s2) as u8 == (b >> s2) as u8,
            (a >> s3) as u8 == (b >> s3) as u8,
    ;
}

/// Eight little-endian bytes name one `u64`.
proof fn lemma_u64_le_injective(a: u64, b: u64)
    requires
        u64_le(a) == u64_le(b),
    ensures
        a == b,
{
    assert forall|i: int| 0 <= i < 8 implies #[trigger] ((a >> ((8 * i) as u64)) as u8) == ((b >> ((
    8 * i) as u64)) as u8) by {
        assert(u64_le(a).len() == 8);
        assert(u64_le(a)[i] == (a >> ((8 * i) as u64)) as u8);
        assert(u64_le(b)[i] == (b >> ((8 * i) as u64)) as u8);
        assert(u64_le(a)[i] == u64_le(b)[i]);
    }
    let (s0, s1, s2, s3) = ((8 * 0int) as u64, (8 * 1int) as u64, (8 * 2int) as u64, (8 * 3int) as u64);
    let (s4, s5, s6, s7) = ((8 * 4int) as u64, (8 * 5int) as u64, (8 * 6int) as u64, (8 * 7int) as u64);
    assert(s0 == 0 && s1 == 8 && s2 == 16 && s3 == 24 && s4 == 32 && s5 == 40 && s6 == 48 && s7 == 56);
    assert((a >> s0) as u8 == (b >> s0) as u8);
    assert((a >> s1) as u8 == (b >> s1) as u8);
    assert((a >> s2) as u8 == (b >> s2) as u8);
    assert((a >> s3) as u8 == (b >> s3) as u8);
    assert((a >> s4) as u8 == (b >> s4) as u8);
    assert((a >> s5) as u8 == (b >> s5) as u8);
    assert((a >> s6) as u8 == (b >> s6) as u8);
    assert((a >> s7) as u8 == (b >> s7) as u8);
    assert(a == b) by (bit_vector)
        requires
            s0 == 0 && s1 == 8 && s2 == 16 && s3 == 24 && s4 == 32 && s5 == 40 && s6 == 48 && s7 == 56,
            (a >> s0) as u8 == (b >> s0) as u8,
            (a >> s1) as u8 == (b >> s1) as u8,
            (a >> s2) as u8 == (b >> s2) as u8,
            (a >> s3) as u8 == (b >> s3) as u8,
            (a >> s4) as u8 == (b >> s4) as u8,
            (a >> s5) as u8 == (b >> s5) as u8,
            (a >> s6) as u8 == (b >> s6) as u8,
            (a >> s7) as u8 == (b >> s7) as u8,
    ;
}

/// Four little-endian bytes name one `i32`.
proof fn lemma_i32_le_injective(a: i32, b: i32)
    requires
        i32_le(a) == i32_le(b),
    ensures
        a == b,
{
    lemma_u32_le_injective(a as u32, b as u32);
    assert(a == b) by (bit_vector)
        requires
            a as u32 == b as u32,
    ;
}

/// A body gives eight bytes per cell.
proof fn lemma_body_bytes_len(body: Seq<Coord>)
    ensures
        body_bytes(body).len() == 8 * body.len(),
    decreases body.len(),
{
    if body.len() > 0 {
        lemma_body_bytes_len(body.drop_last());
    }
}

/// Different bodies give different bytes: the bytes name every cell, both
/// coordinates, in order.
pub proof fn lemma_body_bytes_injective(a: Seq<Coord>, b: Seq<Coord>)
    requires
        body_bytes(a) == body_bytes(b),
    ensures
        a == b,
    decreases a.len(),
{
    lemma_body_bytes_len(a);
    lemma_body_bytes_len(b);
    assert(a.len() == b.len());
    if a.len() > 0 {
        let (ia, ib) = (a.drop_last(), b.drop_last());
        lemma_body_bytes_len(ia);
        lemma_body_bytes_len(ib);
        let n: int = 8 * ia.len() as int;
        let ba = body_bytes(a);
        assert(ba == body_bytes(ia) + i32_le(a.last().x) + i32_le(a.last().y));
        assert(body_bytes(b) == body_bytes(ib) + i32_le(b.last().x) + i32_le(b.last().y));
        assert(ba.subrange(0, n) =~= body_bytes(ia));
        assert(body_bytes(b).subrange(0, n) =~= body_bytes(ib));
        assert(ba.subrange(n, n + 4) =~= i32_le(a.last().x));
        assert(body_bytes(b).subrange(n, n + 4) =~= i32_le(b.last().x));
        assert(ba.subrange(n + 4, n + 8) =~= i32_le(a.last().y));
        assert(body_bytes(b).subrange(n + 4, n + 8) =~= i32_le(b.last().y));
        lemma_i32_le_injective(a.last().x, b.last().x);
        lemma_i32_le_injective(a.last().y, b.last().y);
        lemma_body_bytes_injective(ia, ib);
        assert(a =~= ia.push(a.last()));
        assert(b =~= ib.push(b.last()));
    } else {
        assert(a =~= b);
    }
}

/// What a game feeds its checksum pins the game down: two games whose bytes
/// agree, and that have the same food or snakes of the same length, have
/// the same clock, the same score, are over alike, and have the same body,
/// cell for cell, and the same food. A divergence in any of these changes
/// the bytes hashed.
pub proof fn lemma_game_bytes_determine_game(g1: SnakeView, g2: SnakeView)
    requires
        game_bytes(g1) == game_bytes(g2),
        g1.food == g2.food || g1.body.len() == g2.body.len(),
    ensures
        g1.ticks == g2.ticks,
        g1.score == g2.score,
        (g1.status != GameStatus::Running) == (g2.status != GameStatus::Running),
        g1.body == g2.body,
        g1.food == g2.food,
{
    let o1: u8 = if g1.status != GameStatus::Running { 1u8 } else { 0u8 };
    let o2: u8 = if g2.status != GameStatus::Running { 1u8 } else { 0u8 };
    let f1: Seq<u8> = match g1.food {
        Some(c) => i32_le(c.x) + i32_le(c.y),
        None => Seq::empty(),
    };
    let f2: Seq<u8> = match g2.food {
        Some(c) => i32_le(c.x) + i32_le(c.y),
        None => Seq::empty(),
    };
    let p1 = u64_le(g1.ticks) + u32_le(g1.score) + seq![o1];
    let p2 = u64_le(g2.ticks) + u32_le(g2.score) + seq![o2];
    let b1 = body_bytes(g1.body);
    let b2 = body_bytes(g2.body);
    let all = game_bytes(g1);
    assert(all == p1 + b1 + f1);
    assert(game_bytes(g2) == p2 + b2 + f2);
    lemma_body_bytes_len(g1.body);
    lemma_body_bytes_len(g2.body);
    assert(b1.len() == b2.len());
    assert(all.subrange(0, 8) =~= u64_le(g1.ticks));
    assert(game_bytes(g2).subrange(0, 8) =~= u64_le(g2.ticks));
    assert(all.subrange(8, 12) =~= u32_le(g1.score));
    assert(game_bytes(g2).subrange(8, 12) =~= u32_le(g2.score));
    assert(all[12] == o1);
    assert(game_bytes(g2)[12] == o2);
    let e = 13 + b1.len() as int;
    assert(all.subrange(13, e) =~= b1);
    assert(game_bytes(g2).subrange(13, e) =~= b2);
    lemma_u64_le_injective(g1.ticks, g2.ticks);
    lemma_u32_le_injective(g1.score, g2.score);
    lemma_body_bytes_injective(g1.body, g2.body);
    assert(all.subrange(e, all.len() as int) =~= f1);
    assert(game_bytes(g2).subrange(e, all.len() as int) =~= f2);
    if let Some(c1) = g1.food {
        if let Some(c2) = g2.food {
            assert(f1.subrange(0, 4) =~= i32_le(c1.x));
            assert(f2.subrange(0, 4) =~= i32_le(c2.x));
            assert(f1.subrange(4, 8) =~= i32_le(c1.y));
            assert(f2.subrange(4, 8) =~= i32_le(c2.y));
            lemma_i32_le_injective(c1.x, c2.x);
            lemma_i32_le_injective(c1.y, c2.y);
        }
    }
}

/// The checksum is 64-bit FNV-1a: starting from the offset basis
/// `0xcbf29ce484222325`, each byte is XORed in and the result multiplied by
/// the prime `0x100000001b3`, modulo 2^64, over the host game's bytes and
/// then the guest's.
pub proof fn lemma_checksum_is_fnv1a(host: SnakeView, guest: SnakeView, h: u64, bytes: Seq<u8>, b: u8)
    ensures
        spec_checksum(host, guest) == fnv_fold(
            fnv_fold(0xcbf2_9ce4_8422_2325u64, game_bytes(host)),
            game_bytes(guest),
        ),
        fnv_fold(h, Seq::empty()) == h,
        fnv_fold(h, bytes.push(b)) as int == ((fnv_fold(h, bytes) ^ (b as u64)) as int * 0x1000_0000_01b3)
            % 0x1_0000_0000_0000_0000,
{
    lemma_fnv_fold_concat(FNV_OFFSET, game_bytes(host), game_bytes(guest));
    assert(bytes.push(b).drop_last() =~= bytes);
    let x = fnv_fold(h, bytes) ^ (b as u64);
    assert(0 <= (x as nat * FNV_PRIME as nat) % 0x1_0000_0000_0000_0000nat < 0x1_0000_0000_0000_0000);
}

/// A disagreeing pair is always reported: the report names the earliest
/// disagreeing tick, with the two digests that disagree there.
pub proof fn lemma_disagreement_is_reported(v: LockstepView, t: u64)
    requires
        mismatched(v, t),
    ensures
        spec_compare(v).1 matches Err(Desync::ChecksumMismatch { tick, local, remote }) && tick <= t
            && mismatched(v, tick) && local == v.local[tick] && remote == v.remote[tick]
            && local != remote,
{
    lemma_first_mismatch_exists(v, t);
}

/// What a step does to the two games depends only on the games, the tick and
/// that tick's inputs: not on which seat the peer holds, nor on its
/// checksums or outbox. Two peers that agree on those stay identical.
pub proof fn lemma_peers_step_alike(a: LockstepView, b: LockstepView)
    requires
        a.host == b.host,
        a.guest == b.guest,
        a.tick == b.tick,
        a.inputs.contains_key(a.tick) == b.inputs.contains_key(b.tick),
        a.inputs.contains_key(a.tick) ==> a.inputs[a.tick] == b.inputs[b.tick],
    ensures
        spec_try_step(a).0.host == spec_try_step(b).0.host,
        spec_try_step(a).0.guest == spec_try_step(b).0.guest,
        spec_try_step(a).0.tick == spec_try_step(b).0.tick,
        spec_try_step(a).1 is Ok ==> spec_try_step(b).1 is Ok ==> spec_try_step(a).1
            == spec_try_step(b).1,
        spec_checksum(spec_try_step(a).0.host, spec_try_step(a).0.guest) == spec_checksum(
            spec_try_step(b).0.host,
            spec_try_step(b).0.guest,
        ),
{
}

/// Both games, and the lockstep bookkeeping around them.
pub struct Lockstep {
    seat: Seat,
    host_game: SnakeGame,
    guest_game: SnakeGame,
    /// Inputs known so far, per tick, per seat.
    inputs: BTreeMap<u64, Slots>,
    /// Checksums received from the other peer but not yet compared.
    remote_checksums: BTreeMap<u64, u64>,
    /// Our own checksums, kept until the other peer's arrives.
    local_checksums: BTreeMap<u64, u64>,
    tick: u64,
    delay: u64,
    /// The tick the next locally-sent input will apply to: a counter, so that
    /// the stream of inputs has no gaps however many ticks run between sends.
    next_input_tick: u64,
    outbox: Vec<Message>,
}

impl View for Lockstep {
    type V = LockstepView;

    closed spec fn view(&self) -> LockstepView {
        LockstepView {
            seat: self.seat,
            host: self.host_game@,
            guest: self.guest_game@,
            inputs: self.inputs@,
            remote: self.remote_checksums@,
            local: self.local_checksums@,
            tick: self.tick,
            delay: self.delay,
            next_input_tick: self.next_input_tick,
            outbox: self.outbox@,
        }
    }
}

impl Lockstep {
    /// The invariant of the match.
    pub open spec fn wf(&self) -> bool {
        lockstep_wf(self@)
    }

    /// Starts a match.
    ///
    /// Both peers must pass the same seeds and the same `delay`. The delay is
    /// at least one tick: a peer cannot need the other's input for the tick
    /// it is about to run.
    pub fn new(seat: Seat, width: i32, height: i32, seeds: [u64; 2], delay: u64) -> (l: Lockstep)
        requires
            delay > 0,
            valid_board(width as int, height as int),
        ensures
            l@ == spec_new_lockstep(seat, width, height, seeds@, delay),
            l.wf(),
    {
        let mut this = Lockstep {
            seat,
            host_game: SnakeGame::new(width, height, seeds[0]),
            guest_game: SnakeGame::new(width, height, seeds[1]),
            inputs: BTreeMap::new(),
            remote_checksums: BTreeMap::new(),
            local_checksums: BTreeMap::new(),
            tick: 0,
            delay,
            next_input_tick: delay,
            outbox: Vec::new(),
        };
        // The first `delay` ticks have no input from anyone: there was no
        // earlier tick to have sent it.
        let mut t: u64 = 0;
        proof {
            assert(this@.inputs =~= Map::new(
                |u: u64| u < 0u64,
                |u: u64| (Some(None::<Direction>), Some(None::<Direction>)),
            ));
        }
        while t < delay
            invariant
                t <= delay,
                this@ == (LockstepView {
                    inputs: Map::new(
                        |u: u64| u < t,
                        |u: u64| (Some(None::<Direction>), Some(None::<Direction>)),
                    ),
                    ..spec_new_lockstep(seat, width, height, seeds@, delay)
                }),
            decreases delay - t,
        {
            this.record(t, Seat::Host, None);
            this.record(t, Seat::Guest, None);
            proof {
                assert(this@.inputs =~= Map::new(
                    |u: u64| u < t + 1,
                    |u: u64| (Some(None::<Direction>), Some(None::<Direction>)),
                ));
            }
            t = t + 1;
        }
        proof {
            assert(this@.inputs =~= opening_inputs(delay));
        }
        this
    }

    /// This peer's seat.
    pub fn seat(&self) -> (s: Seat)
        ensures
            s == self@.seat,
    {
        self.seat
    }

    /// The next tick that has not yet run.
    pub fn tick(&self) -> (t: u64)
        ensures
            t == self@.tick,
    {
        self.tick
    }

    /// A game, by seat.
    pub fn game(&self, seat: Seat) -> (g: &SnakeGame)
        ensures
            g@ == (match seat {
                Seat::Host => self@.host,
                Seat::Guest => self@.guest,
            }),
    {
        match seat {
            Seat::Host => &self.host_game,
            Seat::Guest => &self.guest_game,
        }
    }

    /// Whether either snake has died, which ends the match.
    pub fn is_over(&self) -> (r: bool)
        ensures
            r == spec_is_over(self@),
    {
        self.host_game.is_over() || self.guest_game.is_over()
    }

    /// The winner, once the match is over: `None` while it runs, and on a draw
    /// when both died on the same tick.
    pub fn winner(&self) -> (w: Option<Seat>)
        ensures
            w == (if self@.host.status != GameStatus::Running && self@.guest.status
                == GameStatus::Running {
                Some(Seat::Guest)
            } else if self@.host.status == GameStatus::Running && self@.guest.status
                != GameStatus::Running {
                Some(Seat::Host)
            } else {
                None::<Seat>
            }),
    {
        match (self.host_game.is_over(), self.guest_game.is_over()) {
            (true, false) => Some(Seat::Guest),
            (false, true) => Some(Seat::Host),
            _ => None,
        }
    }

    /// Queues this peer's input for the next unscheduled tick, and returns the
    /// message to send.
    ///
    /// Successive calls schedule successive ticks, starting `delay` ahead of
    /// the first, so the stream of inputs has no gaps.
    pub fn send_input(&mut self, turn: Turn) -> (m: Message)
        requires
            old(self).wf(),
            old(self)@.next_input_tick < u64::MAX,
        ensures
            m == (Message::Input { tick: old(self)@.next_input_tick, turn }),
            final(self)@ == (LockstepView {
                next_input_tick: (old(self)@.next_input_tick + 1) as u64,
                inputs: spec_record(old(self)@.inputs, old(self)@.next_input_tick, old(self)@.seat, turn),
                ..old(self)@
            }),
            final(self).wf(),
    {
        let tick = self.next_input_tick;
        self.next_input_tick = self.next_input_tick + 1;
        let seat = self.seat;
        self.record(tick, seat, turn);
        Message::Input { tick, turn }
    }

    /// The tick the next `send_input` will apply to.
    pub fn next_input_tick(&self) -> (t: u64)
        ensures
            t == self@.next_input_tick,
    {
        self.next_input_tick
    }

    /// How many ticks ahead this match schedules input.
    pub fn delay(&self) -> (d: u64)
        ensures
            d == self@.delay,
    {
        self.delay
    }

    /// Accepts a message from the other peer.
    pub fn receive(&mut self, message: Message)
        requires
            old(self).wf(),
        ensures
            final(self)@ == (match message {
                Message::Input { tick, turn } => LockstepView {
                    inputs: spec_record(old(self)@.inputs, tick, spec_other(old(self)@.seat), turn),
                    ..old(self)@
                },
                Message::Checksum { tick, digest } => LockstepView {
                    remote: old(self)@.remote.insert(tick, digest),
                    ..old(self)@
                },
            }),
            final(self).wf(),
    {
        match message {
            Message::Input { tick, turn } => {
                let seat = self.seat.other();
                self.record(tick, seat, turn);
            },
            Message::Checksum { tick, digest } => {
                self.remote_checksums.insert(tick, digest);
            },
        }
    }

    /// Messages this peer has produced and not yet handed to a transport.
    pub fn drain_outbox(&mut self) -> (out: Vec<Message>)
        requires
            old(self).wf(),
        ensures
            out@ == old(self)@.outbox,
            final(self)@ == (LockstepView { outbox: Seq::empty(), ..old(self)@ }),
            final(self).wf(),
    {
        let mut out: Vec<Message> = Vec::new();
        std::mem::swap(&mut out, &mut self.outbox);
        out
    }

    /// Whether every input needed for the next tick has arrived.
    pub fn ready(&self) -> (r: bool)
        ensures
            r == spec_ready(self@),
    {
        match self.inputs.get(&self.tick) {
            Some(slots) => slots.0.is_some() && slots.1.is_some(),
            None => false,
        }
    }

    /// Runs one tick if both peers' inputs for it are known.
    ///
    /// Returns `Ok(true)` if a tick ran, `Ok(false)` if it is still waiting on
    /// the other peer, and `Err` if the peers have diverged.
    #[verifier::rlimit(60)]
    pub fn try_step(&mut self) -> (r: Result<bool, Desync>)
        requires
            old(self).wf(),
            old(self)@.tick < u64::MAX,
        ensures
            (final(self)@, r) == spec_try_step(old(self)@),
            final(self).wf(),
    {
        let ghost v = self@;
        if self.is_over() || !self.ready() {
            return Ok(false);
        }
        let slots = match self.inputs.remove(&self.tick) {
            Some(s) => s,
            None => {
                return Ok(false);
            },
        };
        if let Some(Some(direction)) = slots.0 {
            self.host_game.queue_turn(direction);
        }
        if let Some(Some(direction)) = slots.1 {
            self.guest_game.queue_turn(direction);
        }
        proof {
            lemma_step_keeps_wf(self.host_game@);
            lemma_step_keeps_wf(self.guest_game@);
        }
        if !self.host_game.is_over() {
            self.host_game.step();
        }
        if !self.guest_game.is_over() {
            self.guest_game.step();
        }
        let completed = self.tick;
        self.tick = self.tick + 1;
        if completed % CHECKSUM_INTERVAL == 0 {
            let digest = self.checksum();
            self.local_checksums.insert(completed, digest);
            self.outbox.push(Message::Checksum { tick: completed, digest });
        }
        match self.compare_checksums() {
            Ok(()) => Ok(true),
            Err(e) => Err(e),
        }
    }

    /// A digest of both games: the state that must not diverge.
    ///
    /// FNV-1a over everything that feeds the next tick.
    pub fn checksum(&self) -> (d: u64)
        ensures
            d == spec_checksum(self@.host, self@.guest),
    {
        let h = hash_game(FNV_OFFSET, &self.host_game);
        let r = hash_game(h, &self.guest_game);
        proof {
            lemma_fnv_fold_concat(FNV_OFFSET, game_bytes(self@.host), game_bytes(self@.guest));
        }
        r
    }

    /// Compares any checksum pairs that have both halves.
    fn compare_checksums(&mut self) -> (r: Result<(), Desync>)
        ensures
            (final(self)@, r) == spec_compare(old(self)@),
    {
        let ghost v = self@;
        // Every tick with both halves.
        let mut ticks: Vec<u64> = Vec::new();
        for t in it: self.remote_checksums.keys()
            invariant
                forall|k: int| 0 <= k < ticks@.len() ==> compared(v, #[trigger] ticks@[k]),
                forall|k: int|
                    0 <= k < it.index() && v.local.contains_key(*it.seq()[k]) ==> ticks@.contains(
                        *#[trigger] it.seq()[k],
                    ),
                self@ == v,
        {
            proof {
                assert(*t == *it.seq()[it.index() as int]);
            }
            let ghost before = ticks@;
            if self.local_checksums.contains_key(t) {
                ticks.push(*t);
            }
            proof {
                assert forall|k: int|
                    0 <= k < it.index() + 1 && v.local.contains_key(
                        *it.seq()[k],
                    ) implies ticks@.contains(*it.seq()[k]) by {
                    if k < it.index() {
                        let m = choose|m: int| 0 <= m < before.len() && before[m] == *it.seq()[k];
                        assert(ticks@[m] == before[m]);
                    } else {
                        assert(ticks@[ticks@.len() - 1] == *t);
                    }
                }
            }
        }
        proof {
            assert forall|u: u64| compared(v, u) implies ticks@.contains(u) by {
                assert(v.remote.dom().contains(u));
            }
        }
        // The first tick whose checksums disagree, with both digests.
        let mut first: Option<(u64, u64, u64)> = None;
        let mut i: usize = 0;
        while i < ticks.len()
            invariant
                self@ == v,
                i <= ticks@.len(),
                forall|k: int| 0 <= k < ticks@.len() ==> compared(v, #[trigger] ticks@[k]),
                match first {
                    Some((f, l, r)) => mismatched(v, f) && l == v.local[f] && r == v.remote[f]
                        && forall|k: int|
                        0 <= k < i && mismatched(v, #[trigger] ticks@[k]) ==> f <= ticks@[k],
                    None => forall|k: int| 0 <= k < i ==> !mismatched(v, #[trigger] ticks@[k]),
                },
            decreases ticks@.len() - i,
        {
            let t = ticks[i];
            proof {
                assert(compared(v, ticks@[i as int]));
            }
            let local = *self.local_checksums.get(&t).unwrap();
            let remote = *self.remote_checksums.get(&t).unwrap();
            if local != remote {
                let earlier = match first {
                    Some((f, _, _)) => f <= t,
                    None => false,
                };
                if !earlier {
                    first = Some((t, local, remote));
                }
            }
            i = i + 1;
        }
        let ghost cut = match first {
            Some((f, _, _)) => Some(f),
            None => None::<u64>,
        };
        proof {
            if let Some((f, _, _)) = first {
                assert forall|u: u64| mismatched(v, u) implies f <= u by {
                    assert(ticks@.contains(u));
                    let k = choose|k: int| 0 <= k < ticks@.len() && ticks@[k] == u;
                    assert(mismatched(v, ticks@[k]));
                }
                lemma_first_mismatch_exists(v, f);
                assert(first_mismatch(v) == f);
            } else {
                assert forall|u: u64| !mismatched(v, u) by {
                    if mismatched(v, u) {
                        assert(ticks@.contains(u));
                        let k = choose|k: int| 0 <= k < ticks@.len() && ticks@[k] == u;
                        assert(!mismatched(v, ticks@[k]));
                    }
                }
            }
        }
        // Drop every pair up to the first disagreement, or all of them.
        let mut j: usize = 0;
        proof {
            assert(dropped(ticks@, 0, cut) =~= Set::empty());
            assert(v.local.remove_keys(Set::empty()) =~= v.local);
            assert(v.remote.remove_keys(Set::empty()) =~= v.remote);
        }
        while j < ticks.len()
            invariant
                j <= ticks@.len(),
                cut == (match first {
                    Some((f, _, _)) => Some(f),
                    None => None::<u64>,
                }),
                self@ == (LockstepView {
                    local: v.local.remove_keys(dropped(ticks@, j as int, cut)),
                    remote: v.remote.remove_keys(dropped(ticks@, j as int, cut)),
                    ..v
                }),
            decreases ticks@.len() - j,
        {
            let t = ticks[j];
            let drop = match first {
                Some((f, _, _)) => t <= f,
                None => true,
            };
            if drop {
                self.local_checksums.remove(&t);
                self.remote_checksums.remove(&t);
            }
            proof {
                let d0 = dropped(ticks@, j as int, cut);
                let d1 = dropped(ticks@, j + 1, cut);
                if drop {
                    assert(d1 =~= d0.insert(t));
                    assert(v.local.remove_keys(d1) =~= v.local.remove_keys(d0).remove(t));
                    assert(v.remote.remove_keys(d1) =~= v.remote.remove_keys(d0).remove(t));
                } else {
                    assert(d1 =~= d0);
                }
            }
            j = j + 1;
        }
        proof {
            let d = dropped(ticks@, ticks@.len() as int, cut);
            match first {
                Some((f, _, _)) => {
                    assert(d =~= Set::new(|u: u64| compared(v, u) && u <= f));
                },
                None => {
                    assert(d =~= Set::new(|u: u64| compared(v, u)));
                },
            }
        }
        match first {
            Some((f, l, r)) => Err(Desync::ChecksumMismatch { tick: f, local: l, remote: r }),
            None => Ok(()),
        }
    }

    /// Files an input, ignoring a duplicate.
    fn record(&mut self, tick: u64, seat: Seat, turn: Turn)
        ensures
            final(self)@ == (LockstepView {
                inputs: spec_record(old(self)@.inputs, tick, seat, turn),
                ..old(self)@
            }),
    {
        let slots = match self.inputs.get(&tick) {
            Some(s) => *s,
            None => (None, None),
        };
        let filled = match seat {
            Seat::Host => if slots.0.is_none() {
                (Some(turn), slots.1)
            } else {
                slots
            },
            Seat::Guest => if slots.1.is_none() {
                (slots.0, Some(turn))
            } else {
                slots
            },
        };
        self.inputs.insert(tick, filled);
    }
}

// ── Driving a match ─────────────────────────────────────────────────────────

/// A one-way link as plain values: its latency, and what is in flight, each
/// message with the tick it falls due.
pub struct LinkView {
    pub latency: u64,
    pub queue: Seq<(u64, Message)>,
}

/// A one-way link that holds each message for a fixed number of ticks.
pub struct Link {
    latency: u64,
    queue: VecDeque<(u64, Message)>,
}

impl View for Link {
    type V = LinkView;

    closed spec fn view(&self) -> LinkView {
        LinkView { latency: self.latency, queue: self.queue@ }
    }
}

impl Link {
    /// An empty link with the given latency.
    pub fn new(latency: u64) -> (l: Link)
        ensures
            l@ == (LinkView { latency, queue: Seq::empty() }),
    {
        Link { latency, queue: VecDeque::new() }
    }

    /// Puts a message in flight, due `latency` ticks after `now`.
    pub fn send(&mut self, now: u64, message: Message)
        requires
            now + old(self)@.latency <= u64::MAX,
        ensures
            final(self)@ == (LinkView {
                queue: old(self)@.queue.push(((now + old(self)@.latency) as u64, message)),
                ..old(self)@
            }),
    {
        self.queue.push_back((now + self.latency, message));
    }

    /// Everything due by `now`: the longest run at the front of the queue
    /// whose due ticks are at most `now`, in the order it was sent.
    pub fn deliver(&mut self, now: u64) -> (out: Vec<Message>)
        ensures
            out@.len() <= old(self)@.queue.len(),
            forall|i: int|
                0 <= i < out@.len() ==> old(self)@.queue[i].0 <= now && out@[i]
                    == old(self)@.queue[i].1,
            out@.len() < old(self)@.queue.len() ==> old(self)@.queue[out@.len() as int].0 > now,
            final(self)@ == (LinkView {
                queue: old(self)@.queue.skip(out@.len() as int),
                ..old(self)@
            }),
    {
        let ghost q = self.queue@;
        let mut out: Vec<Message> = Vec::new();
        let mut done = false;
        proof {
            assert(q.skip(0) =~= q);
        }
        while !done
            invariant
                self@.latency == old(self)@.latency,
                q == old(self)@.queue,
                out@.len() <= q.len(),
                self.queue@ == q.skip(out@.len() as int),
                forall|i: int| 0 <= i < out@.len() ==> #[trigger] q[i].0 <= now,
                forall|i: int| 0 <= i < out@.len() ==> #[trigger] out@[i] == q[i].1,
                done ==> (out@.len() == q.len() || q[out@.len() as int].0 > now),
            decreases self.queue@.len() + (if done {
                0int
            } else {
                1int
            }),
        {
            if self.queue.len() == 0 {
                done = true;
            } else {
                let due = self.queue[0].0;
                let ghost k = out@.len() as int;
                proof {
                    assert(self.queue@[0] == q[k]);
                }
                if due > now {
                    done = true;
                } else {
                    match self.queue.pop_front() {
                        Some((_, m)) => {
                            let ghost before = out@;
                            out.push(m);
                            proof {
                                assert forall|i: int|
                                    0 <= i < out@.len() implies q[i].0 <= now && out@[i]
                                    == q[i].1 by {
                                    if i < k {
                                        assert(out@[i] == before[i]);
                                    }
                                }
                                assert(q.skip(out@.len() as int) =~= q.skip(
                                    out@.len() - 1,
                                ).subrange(1, q.skip(out@.len() - 1).len() as int));
                                assert(q[k].0 <= now);
                                assert(out@[k] == q[k].1);
                            }
                        },
                        None => {
                            done = true;
                        },
                    }
                }
            }
        }
        out
    }
}

/// The turn a scripted player presses in a given round.
pub open spec fn spec_scripted_turn(seed: u64, round: u64) -> Turn {
    let mixed = vstd::wrapping::u64_specs::wrapping_add(
        vstd::wrapping::u64_specs::wrapping_mul(seed, 2_654_435_761),
        (round * 31) as u64,
    );
    if mixed % 11 == 0 {
        Some(Direction::Up)
    } else if mixed % 11 == 2 {
        Some(Direction::Right)
    } else if mixed % 11 == 5 {
        Some(Direction::Down)
    } else if mixed % 11 == 8 {
        Some(Direction::Left)
    } else {
        None
    }
}

/// A deterministic stand-in for a player pressing keys.
pub fn scripted_turn(seed: u64, round: u64) -> (t: Turn)
    requires
        round * 31 <= u64::MAX,
    ensures
        t == spec_scripted_turn(seed, round),
{
    let mixed = seed.wrapping_mul(2_654_435_761).wrapping_add(round * 31);
    let r = mixed % 11;
    if r == 0 {
        Some(Direction::Up)
    } else if r == 2 {
        Some(Direction::Right)
    } else if r == 5 {
        Some(Direction::Down)
    } else if r == 8 {
        Some(Direction::Left)
    } else {
        None
    }
}

} // verus!
