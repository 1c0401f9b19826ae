//! The replay text format: writing it, and reading it back.

use vstd::prelude::*;
use super::{
    Replay, ReplayError, ReplayErrorView, ReplayView, REPLAY_VERSION, lemma_play_keeps_wf, play_out_ticks,
    replay_wf, spec_play,
};
use crate::snake::Direction;
use crate::game::{snake_wf, valid_board, MAX_BOARD_SIZE, MIN_BOARD_SIZE};
use crate::text::{
    append_i32, append_u64, chars_of, fmt_i32, fmt_nat, is_ws, lemma_digits_not_ws, lemma_fmt_nat,
    lemma_line_end_bounds, lemma_parse_fmt_i32, lemma_parse_fmt_unsigned, lemma_word_len_exact,
    line_end, line_spans, lines, lines_from, word_len, parse_i32, parse_i32_span, parse_u32, parse_u64,
    parse_unsigned_span, span_is, span_ok, spans_match, trim, trim_bounds, trim_end, trim_start,
    word_spans, words,
};

verus! {

// ── The words of the format ─────────────────────────────────────────────────

/// The header's fixed start, `"snake-replay "`.
pub open spec fn header_prefix() -> Seq<char> {
    seq!['s', 'n', 'a', 'k', 'e', '-', 'r', 'e', 'p', 'l', 'a', 'y', ' ']
}

/// The `board` keyword.
pub open spec fn kw_board() -> Seq<char> {
    seq!['b', 'o', 'a', 'r', 'd']
}

/// The `seed` keyword.
pub open spec fn kw_seed() -> Seq<char> {
    seq!['s', 'e', 'e', 'd']
}

/// The `turn` keyword.
pub open spec fn kw_turn() -> Seq<char> {
    seq!['t', 'u', 'r', 'n']
}

/// The name written for a direction.
pub open spec fn direction_word(d: Direction) -> Seq<char> {
    match d {
        Direction::Up => seq!['u', 'p'],
        Direction::Down => seq!['d', 'o', 'w', 'n'],
        Direction::Left => seq!['l', 'e', 'f', 't'],
        Direction::Right => seq!['r', 'i', 'g', 'h', 't'],
    }
}

/// The direction a name stands for, if any.
pub open spec fn spec_direction_from_name(name: Seq<char>) -> Option<Direction> {
    if name == direction_word(Direction::Up) {
        Some(Direction::Up)
    } else if name == direction_word(Direction::Down) {
        Some(Direction::Down)
    } else if name == direction_word(Direction::Left) {
        Some(Direction::Left)
    } else if name == direction_word(Direction::Right) {
        Some(Direction::Right)
    } else {
        None
    }
}

// ── Writing ─────────────────────────────────────────────────────────────────

/// The header line.
pub open spec fn header_line() -> Seq<char> {
    header_prefix() + fmt_nat(REPLAY_VERSION as nat)
}

/// The line declaring the board.
pub open spec fn board_line(width: i32, height: i32) -> Seq<char> {
    kw_board() + seq![' '] + fmt_i32(width) + seq![' '] + fmt_i32(height)
}

/// The line declaring the seed.
pub open spec fn seed_line(seed: u64) -> Seq<char> {
    kw_seed() + seq![' '] + fmt_nat(seed as nat)
}

/// The line recording one turn.
pub open spec fn turn_line(tick: u64, d: Direction) -> Seq<char> {
    kw_turn() + seq![' '] + fmt_nat(tick as nat) + seq![' '] + direction_word(d)
}

/// The lines written for a recording, in order, without their line endings.
pub open spec fn text_lines(r: ReplayView) -> Seq<Seq<char>> {
    seq![header_line(), board_line(r.width, r.height), seed_line(r.seed)] + r.turns.map_values(
        |p: (u64, Direction)| turn_line(p.0, p.1),
    )
}

/// Lines joined, each followed by `'\n'`.
pub open spec fn join_lines(ls: Seq<Seq<char>>) -> Seq<char>
    decreases ls.len(),
{
    if ls.len() == 0 {
        Seq::empty()
    } else {
        ls[0] + seq!['\n'] + join_lines(ls.drop_first())
    }
}

/// The text written for a recording.
pub open spec fn spec_to_text(r: ReplayView) -> Seq<char> {
    join_lines(text_lines(r))
}

/// Joining one more line appends it and its line ending.
pub proof fn lemma_join_lines_push(ls: Seq<Seq<char>>, x: Seq<char>)
    ensures
        join_lines(ls.push(x)) == join_lines(ls) + x + seq!['\n'],
    decreases ls.len(),
{
    if ls.len() == 0 {
        assert(ls.push(x).drop_first() =~= Seq::<Seq<char>>::empty());
        assert(join_lines(ls.push(x)) == ls.push(x)[0] + seq!['\n'] + join_lines(
            ls.push(x).drop_first(),
        ));
        assert(join_lines(ls.push(x)) =~= x + seq!['\n']);
    } else {
        lemma_join_lines_push(ls.drop_first(), x);
        assert(ls.push(x).drop_first() =~= ls.drop_first().push(x));
        assert(join_lines(ls.push(x)) =~= join_lines(ls) + x + seq!['\n']);
    }
}

/// The name written for a direction in a replay file.
pub fn direction_name(direction: Direction) -> (r: &'static str)
    ensures
        r@ == direction_word(direction),
{
    proof {
        reveal_strlit("up");
        reveal_strlit("down");
        reveal_strlit("left");
        reveal_strlit("right");
    }
    let r = match direction {
        Direction::Up => "up",
        Direction::Down => "down",
        Direction::Left => "left",
        Direction::Right => "right",
    };
    proof {
        assert(r@ =~= direction_word(direction));
    }
    r
}

/// The inverse of [`direction_name`].
pub fn direction_from_name(name: &str) -> (r: Option<Direction>)
    ensures
        r == spec_direction_from_name(name@),
{
    let chars = chars_of(name);
    proof {
        assert(chars@.subrange(0, chars@.len() as int) =~= chars@);
    }
    direction_in_span(&chars, 0, chars.len())
}

/// The direction named by `s[start..end]`, if any.
fn direction_in_span(s: &Vec<char>, start: usize, end: usize) -> (r: Option<Direction>)
    requires
        start <= end <= s@.len(),
    ensures
        r == spec_direction_from_name(s@.subrange(start as int, end as int)),
{
    let ghost name = s@.subrange(start as int, end as int);
    proof {
        assert(['u', 'p']@ =~= direction_word(Direction::Up));
        assert(['d', 'o', 'w', 'n']@ =~= direction_word(Direction::Down));
        assert(['l', 'e', 'f', 't']@ =~= direction_word(Direction::Left));
        assert(['r', 'i', 'g', 'h', 't']@ =~= direction_word(Direction::Right));
    }
    if span_is(s, start, end, &['u', 'p']) {
        Some(Direction::Up)
    } else if span_is(s, start, end, &['d', 'o', 'w', 'n']) {
        Some(Direction::Down)
    } else if span_is(s, start, end, &['l', 'e', 'f', 't']) {
        Some(Direction::Left)
    } else if span_is(s, start, end, &['r', 'i', 'g', 'h', 't']) {
        Some(Direction::Right)
    } else {
        None
    }
}

/// Appends `line` and its line ending.
fn append_line_end(out: &mut String)
    ensures
        final(out)@ == old(out)@ + seq!['\n'],
{
    proof {
        reveal_strlit("\n");
    }
    out.append("\n");
    proof {
        assert("\n"@ =~= seq!['\n']);
    }
}

/// Appends a single space.
fn append_space(out: &mut String)
    ensures
        final(out)@ == old(out)@ + seq![' '],
{
    proof {
        reveal_strlit(" ");
    }
    out.append(" ");
    proof {
        assert(" "@ =~= seq![' ']);
    }
}

impl Replay {
    /// Serialises to the text format described in the module documentation.
    pub fn to_text(&self) -> (text: String)
        ensures
            text@ == spec_to_text(self@),
    {
        let ghost ls = text_lines(self@);
        proof {
            reveal_strlit("snake-replay ");
            reveal_strlit("board");
            reveal_strlit("seed");
            reveal_strlit("turn");
            assert("snake-replay "@ =~= header_prefix());
            assert("board"@ =~= kw_board());
            assert("seed"@ =~= kw_seed());
            assert("turn"@ =~= kw_turn());
            assert(ls.take(0) =~= Seq::<Seq<char>>::empty());
        }
        let mut out = String::new();
        // Header.
        out.append("snake-replay ");
        append_u64(&mut out, REPLAY_VERSION as u64);
        append_line_end(&mut out);
        proof {
            lemma_join_lines_push(ls.take(0), ls[0]);
            assert(ls.take(0).push(ls[0]) =~= ls.take(1));
        }
        // Board.
        out.append("board");
        append_space(&mut out);
        append_i32(&mut out, self.width);
        append_space(&mut out);
        append_i32(&mut out, self.height);
        append_line_end(&mut out);
        proof {
            lemma_join_lines_push(ls.take(1), ls[1]);
            assert(ls.take(1).push(ls[1]) =~= ls.take(2));
            assert(out@ =~= join_lines(ls.take(2)));
        }
        // Seed.
        out.append("seed");
        append_space(&mut out);
        append_u64(&mut out, self.seed);
        append_line_end(&mut out);
        proof {
            lemma_join_lines_push(ls.take(2), ls[2]);
            assert(ls.take(2).push(ls[2]) =~= ls.take(3));
            assert(out@ =~= join_lines(ls.take(3)));
        }
        let n = self.turns.len();
        let mut i: usize = 0;
        while i < n
            invariant
                n == self.turns@.len(),
                i <= n,
                ls == text_lines(self@),
                ls.len() == 3 + n,
                out@ == join_lines(ls.take(3 + i)),
            decreases n - i,
        {
            let (tick, direction) = self.turns[i];
            proof {
                reveal_strlit("turn");
                assert("turn"@ =~= kw_turn());
            }
            out.append("turn");
            append_space(&mut out);
            append_u64(&mut out, tick);
            append_space(&mut out);
            out.append(direction_name(direction));
            append_line_end(&mut out);
            proof {
                assert(ls[3 + i] == turn_line(tick, direction));
                lemma_join_lines_push(ls.take(3 + i), ls[3 + i]);
                assert(ls.take(3 + i).push(ls[3 + i]) =~= ls.take(3 + i + 1));
                assert(out@ =~= join_lines(ls.take(3 + i + 1)));
            }
            i = i + 1;
        }
        proof {
            assert(ls.take(3 + n) =~= ls);
        }
        out
    }
}

// ── Reading ─────────────────────────────────────────────────────────────────

/// What has been read so far: the board, if declared; the seed (zero until
/// declared); and the turns.
pub struct ParseState {
    pub board: Option<(i32, i32)>,
    pub seed: u64,
    pub turns: Seq<(u64, Direction)>,
}

/// Reads one line after the header. `number` is its one-based line number.
pub open spec fn parse_line(raw: Seq<char>, number: usize, st: ParseState) -> Result<
    ParseState,
    ReplayErrorView,
> {
    let line = trim(raw);
    if line.len() == 0 || line[0] == '#' {
        // Blank lines and `#` comments let a human annotate a bug report.
        Ok(st)
    } else {
        let parts = words(line);
        let bad = ReplayErrorView::BadLine { line: number, text: raw };
        if parts.len() == 3 && parts[0] == kw_board() {
            match (parse_i32(parts[1]), parse_i32(parts[2])) {
                (Some(w), Some(h)) => Ok(ParseState { board: Some((w, h)), ..st }),
                _ => Err(bad),
            }
        } else if parts.len() == 2 && parts[0] == kw_seed() {
            match parse_u64(parts[1]) {
                Some(s) => Ok(ParseState { seed: s, ..st }),
                None => Err(bad),
            }
        } else if parts.len() == 3 && parts[0] == kw_turn() {
            match (parse_u64(parts[1]), spec_direction_from_name(parts[2])) {
                (Some(tick), Some(d)) => if st.turns.len() > 0 && st.turns.last().0 > tick {
                    Err(ReplayErrorView::OutOfOrderTurn { tick })
                } else {
                    Ok(ParseState { turns: st.turns.push((tick, d)), ..st })
                },
                _ => Err(bad),
            }
        } else {
            Err(bad)
        }
    }
}

/// Reads lines `i..` after the header, then requires a board.
pub open spec fn parse_lines(ls: Seq<Seq<char>>, i: int, st: ParseState) -> Result<
    ReplayView,
    ReplayErrorView,
>
    decreases ls.len() - i,
{
    if i < 0 || i >= ls.len() {
        match st.board {
            Some((w, h)) => if valid_board(w as int, h as int) {
                Ok(ReplayView { width: w, height: h, seed: st.seed, turns: st.turns })
            } else {
                Err(ReplayErrorView::InvalidBoard { width: w, height: h })
            },
            None => Err(ReplayErrorView::MissingBoard),
        }
    } else {
        match parse_line(ls[i], (i + 1) as usize, st) {
            Ok(next) => parse_lines(ls, i + 1, next),
            Err(e) => Err(e),
        }
    }
}

/// The state before any line after the header.
pub open spec fn initial_parse_state() -> ParseState {
    ParseState { board: None, seed: 0, turns: Seq::empty() }
}

/// What parsing a text gives: the recording, or the first problem found.
pub open spec fn spec_from_text(t: Seq<char>) -> Result<ReplayView, ReplayErrorView> {
    let ls = lines(t);
    if ls.len() == 0 {
        Err(ReplayErrorView::MissingHeader)
    } else {
        let header = ls[0];
        if header.len() < header_prefix().len() || header.take(13) != header_prefix() {
            Err(ReplayErrorView::MissingHeader)
        } else {
            match parse_u32(trim(header.skip(13))) {
                None => Err(ReplayErrorView::MissingHeader),
                Some(v) => if v != REPLAY_VERSION {
                    Err(ReplayErrorView::UnsupportedVersion(v))
                } else {
                    parse_lines(ls, 1, initial_parse_state())
                },
            }
        }
    }
}

/// Turns in a parse state are in tick order.
pub open spec fn turns_sorted(turns: Seq<(u64, Direction)>) -> bool {
    forall|i: int, j: int| 0 <= i < j < turns.len() ==> turns[i].0 <= turns[j].0
}

/// Whatever the lines after the header parse to keeps its turns in tick
/// order and has a playable board.
pub proof fn lemma_parse_lines_sorted(ls: Seq<Seq<char>>, i: int, st: ParseState)
    requires
        turns_sorted(st.turns),
    ensures
        parse_lines(ls, i, st) matches Ok(r) ==> replay_wf(r) && valid_board(r.width as int, r.height as int),
    decreases ls.len() - i,
{
    if 0 <= i < ls.len() {
        match parse_line(ls[i], (i + 1) as usize, st) {
            Ok(next) => {
                assert(turns_sorted(next.turns));
                lemma_parse_lines_sorted(ls, i + 1, next);
            },
            Err(_) => {},
        }
    }
}

/// Every replay the parser accepts can be played: its board is a playable
/// size and its turns are in tick order.
pub proof fn lemma_accepted_replays_are_playable(t: Seq<char>)
    ensures
        spec_from_text(t) matches Ok(r) ==> replay_wf(r) && valid_board(r.width as int, r.height as int),
{
    lemma_parse_lines_sorted(lines(t), 1, initial_parse_state());
}

/// Every replay the parser accepts can be played out: playing it past its
/// last turn, by any number of extra ticks, gives a game that keeps the
/// invariant, its snake one longer than its score.
pub proof fn lemma_accepted_replays_play_out(t: Seq<char>, extra: u64)
    ensures
        spec_from_text(t) matches Ok(r) ==> snake_wf(spec_play(r, play_out_ticks(r, extra)))
            && spec_play(r, play_out_ticks(r, extra)).body.len() == spec_play(
            r,
            play_out_ticks(r, extra),
        ).score + 1,
{
    lemma_accepted_replays_are_playable(t);
    if let Ok(r) = spec_from_text(t) {
        lemma_play_keeps_wf(r, play_out_ticks(r, extra));
    }
}

/// The reading state as exec values.
struct Parsed {
    board: Option<(i32, i32)>,
    seed: u64,
    turns: Vec<(u64, Direction)>,
}

impl Parsed {
    spec fn state(&self) -> ParseState {
        ParseState { board: self.board, seed: self.seed, turns: self.turns@ }
    }
}

/// Reads the line `s[start..end]` of `text`, numbered `number`.
fn read_line(
    s: &Vec<char>,
    text: &str,
    start: usize,
    end: usize,
    number: usize,
    st: Parsed,
) -> (r: Result<Parsed, ReplayError>)
    requires
        s@ == text@,
        start <= end <= s@.len(),
    ensures
        match r {
            Ok(next) => parse_line(s@.subrange(start as int, end as int), number, st.state())
                == Ok::<ParseState, ReplayErrorView>(next.state()),
            Err(e) => parse_line(s@.subrange(start as int, end as int), number, st.state())
                == Err::<ParseState, ReplayErrorView>(e@),
        },
{
    let ghost raw = s@.subrange(start as int, end as int);
    let (a, b) = trim_bounds(s, start, end);
    if a == b || s[a] == '#' {
        return Ok(st);
    }
    let parts = word_spans(s, a, b);
    let ghost ws = words(s@.subrange(a as int, b as int));
    proof {
        assert(ws == words(trim(raw)));
        reveal_strlit("");
    }
    proof {
        assert(['b', 'o', 'a', 'r', 'd']@ =~= kw_board());
        assert(['s', 'e', 'e', 'd']@ =~= kw_seed());
        assert(['t', 'u', 'r', 'n']@ =~= kw_turn());
    }
    let n = parts.len();
    if n == 3 && span_is(s, parts[0].0, parts[0].1, &['b', 'o', 'a', 'r', 'd']) {
        proof {
            assert(span_ok(s@, parts@[0], ws[0]));
            assert(span_ok(s@, parts@[1], ws[1]));
            assert(span_ok(s@, parts@[2], ws[2]));
        }
        let w = parse_i32_span(s, parts[1].0, parts[1].1);
        let h = parse_i32_span(s, parts[2].0, parts[2].1);
        match (w, h) {
            (Some(w), Some(h)) => Ok(Parsed { board: Some((w, h)), seed: st.seed, turns: st.turns }),
            _ => Err(bad_line(text, start, end, number)),
        }
    } else if n == 2 && span_is(s, parts[0].0, parts[0].1, &['s', 'e', 'e', 'd']) {
        proof {
            assert(span_ok(s@, parts@[0], ws[0]));
            assert(span_ok(s@, parts@[1], ws[1]));
        }
        match parse_unsigned_span(s, parts[1].0, parts[1].1, u64::MAX) {
            Some(v) => Ok(Parsed { board: st.board, seed: v, turns: st.turns }),
            None => Err(bad_line(text, start, end, number)),
        }
    } else if n == 3 && span_is(s, parts[0].0, parts[0].1, &['t', 'u', 'r', 'n']) {
        proof {
            assert(span_ok(s@, parts@[0], ws[0]));
            assert(span_ok(s@, parts@[1], ws[1]));
            assert(span_ok(s@, parts@[2], ws[2]));
        }
        let tick = parse_unsigned_span(s, parts[1].0, parts[1].1, u64::MAX);
        let dir = direction_in_span(s, parts[2].0, parts[2].1);
        match (tick, dir) {
            (Some(tick), Some(d)) => {
                let k = st.turns.len();
                if k > 0 && st.turns[k - 1].0 > tick {
                    return Err(ReplayError::OutOfOrderTurn { tick });
                }
                let mut turns = st.turns;
                turns.push((tick, d));
                Ok(Parsed { board: st.board, seed: st.seed, turns })
            },
            _ => Err(bad_line(text, start, end, number)),
        }
    } else {
        proof {
            if n == 3 {
                assert(span_ok(s@, parts@[0], ws[0]));
            }
            if n == 2 {
                assert(span_ok(s@, parts@[0], ws[0]));
            }
        }
        Err(bad_line(text, start, end, number))
    }
}

/// The error for an unreadable line: its number and its text.
fn bad_line(text: &str, start: usize, end: usize, number: usize) -> (e: ReplayError)
    requires
        start <= end <= text@.len(),
    ensures
        e@ == (ReplayErrorView::BadLine { line: number, text: text@.subrange(start as int, end as int) }),
{
    ReplayError::BadLine { line: number, text: String::from_str(text.substring_char(start, end)) }
}

/// Reading a line keeps the turns in tick order.
pub proof fn lemma_parse_line_sorted(raw: Seq<char>, number: usize, st: ParseState)
    requires
        turns_sorted(st.turns),
    ensures
        parse_line(raw, number, st) matches Ok(next) ==> turns_sorted(next.turns),
{
    if let Ok(next) = parse_line(raw, number, st) {
        if next.turns.len() > st.turns.len() {
            assert forall|i: int, j: int| 0 <= i < j < next.turns.len() implies next.turns[i].0
                <= next.turns[j].0 by {
                if j < st.turns.len() {
                    assert(next.turns[i] == st.turns[i]);
                    assert(next.turns[j] == st.turns[j]);
                } else {
                    assert(next.turns[i] == st.turns[i]);
                    if i < st.turns.len() - 1 {
                        assert(st.turns[i].0 <= st.turns[st.turns.len() - 1].0);
                    }
                }
            }
        }
    }
}

impl Replay {
    /// Parses the text format.
    ///
    /// Returns [`ReplayError`] describing the first problem found.
    pub fn from_text(text: &str) -> (r: Result<Replay, ReplayError>)
        ensures
            match r {
                Ok(rep) => spec_from_text(text@) == Ok::<ReplayView, ReplayErrorView>(rep@)
                    && rep.wf(),
                Err(e) => spec_from_text(text@) == Err::<ReplayView, ReplayErrorView>(e@),
            },
    {
        let s = chars_of(text);
        let spans = line_spans(&s);
        let ghost ls = lines(s@);
        if spans.len() == 0 {
            return Err(ReplayError::MissingHeader);
        }
        let (hs, he) = spans[0];
        proof {
            assert(span_ok(s@, spans@[0], ls[0]));
            assert(['s', 'n', 'a', 'k', 'e', '-', 'r', 'e', 'p', 'l', 'a', 'y', ' ']@
                =~= header_prefix());
        }
        if he - hs < 13 || !span_is(
            &s,
            hs,
            hs + 13,
            &['s', 'n', 'a', 'k', 'e', '-', 'r', 'e', 'p', 'l', 'a', 'y', ' '],
        ) {
            proof {
                if he - hs >= 13 {
                    assert(ls[0].take(13) =~= s@.subrange(hs as int, hs + 13));
                }
            }
            return Err(ReplayError::MissingHeader);
        }
        proof {
            assert(ls[0].take(13) =~= s@.subrange(hs as int, hs + 13));
            assert(ls[0].skip(13) =~= s@.subrange(hs + 13, he as int));
        }
        let (ts, te) = trim_bounds(&s, hs + 13, he);
        let version = match parse_unsigned_span(&s, ts, te, u32::MAX as u64) {
            Some(v) => v as u32,
            None => {
                return Err(ReplayError::MissingHeader);
            },
        };
        if version != REPLAY_VERSION {
            return Err(ReplayError::UnsupportedVersion(version));
        }
        let mut st = Parsed { board: None, seed: 0, turns: Vec::new() };
        proof {
            assert(st.state() =~= initial_parse_state());
        }
        let n = spans.len();
        let mut k: usize = 1;
        while k < n
            invariant
                s@ == text@,
                n == spans@.len(),
                spans_match(s@, spans@, ls),
                ls == lines(s@),
                1 <= k <= n,
                spec_from_text(text@) == parse_lines(ls, k as int, st.state()),
                turns_sorted(st.state().turns),
            decreases n - k,
        {
            let (a, b) = spans[k];
            proof {
                assert(span_ok(s@, spans@[k as int], ls[k as int]));
            }
            proof {
                lemma_parse_line_sorted(ls[k as int], (k + 1) as usize, st.state());
            }
            let next = read_line(&s, text, a, b, k + 1, st);
            match next {
                Ok(p) => {
                    st = p;
                },
                Err(e) => {
                    return Err(e);
                },
            }
            k = k + 1;
        }
        match st.board {
            Some((w, h)) => {
                if w < MIN_BOARD_SIZE || w > MAX_BOARD_SIZE || h < MIN_BOARD_SIZE || h > MAX_BOARD_SIZE {
                    return Err(ReplayError::InvalidBoard { width: w, height: h });
                }
                let rep = Replay { width: w, height: h, seed: st.seed, turns: st.turns };
                proof {
                    lemma_parse_lines_sorted(ls, k as int, st.state());
                }
                Ok(rep)
            },
            None => Err(ReplayError::MissingBoard),
        }
    }
}

} // verus!

verus! {

// ── Writing then reading gives the recording back ───────────────────────────

/// `s` holds no whitespace at all.
pub open spec fn no_ws(s: Seq<char>) -> bool {
    forall|k: int| 0 <= k < s.len() ==> !is_ws(#[trigger] s[k])
}

/// Concatenation keeps the absence of whitespace.
proof fn lemma_no_ws_concat(a: Seq<char>, b: Seq<char>)
    requires
        no_ws(a),
        no_ws(b),
    ensures
        no_ws(a + b),
{
    assert forall|k: int| 0 <= k < (a + b).len() implies !is_ws(#[trigger] (a + b)[k]) by {
        if k < a.len() {
            assert((a + b)[k] == a[k]);
        } else {
            assert((a + b)[k] == b[k - a.len()]);
        }
    }
}

/// Numbers as written hold no whitespace, and are not empty.
proof fn lemma_numbers_no_ws(n: nat, i: i32)
    ensures
        no_ws(fmt_nat(n)),
        no_ws(fmt_i32(i)),
        fmt_nat(n).len() > 0,
        fmt_i32(i).len() > 0,
{
    lemma_fmt_nat(n);
    lemma_digits_not_ws(fmt_nat(n));
    if i < 0 {
        lemma_fmt_nat((-i) as nat);
        lemma_digits_not_ws(fmt_nat((-i) as nat));
        assert(no_ws(seq!['-']));
        lemma_no_ws_concat(seq!['-'], fmt_nat((-i) as nat));
    } else {
        lemma_fmt_nat(i as nat);
        lemma_digits_not_ws(fmt_nat(i as nat));
    }
}

/// The keywords and direction names hold no whitespace.
proof fn lemma_words_no_ws(d: Direction)
    ensures
        no_ws(kw_board()),
        no_ws(kw_seed()),
        no_ws(kw_turn()),
        no_ws(direction_word(d)),
        direction_word(d).len() > 0,
{
    assert(no_ws(kw_board()));
    assert(no_ws(kw_seed()));
    assert(no_ws(kw_turn()));
    assert(no_ws(direction_word(d)));
}

/// A string without whitespace trims to itself.
proof fn lemma_trim_no_ws(s: Seq<char>)
    requires
        no_ws(s),
    ensures
        trim(s) == s,
{
    if s.len() > 0 {
        assert(!is_ws(s[0]));
        assert(!is_ws(s.last()));
    }
}

/// The words of `a`, a space, then `b`: `a`, then the words of `b`.
proof fn lemma_words_cons(a: Seq<char>, b: Seq<char>)
    requires
        a.len() > 0,
        no_ws(a),
    ensures
        words(a + seq![' '] + b) == seq![a] + words(b),
{
    let x = a + seq![' '] + b;
    assert(!is_ws(x[0]));
    assert(trim_start(x) == x);
    assert forall|m: int| 0 <= m < a.len() implies !is_ws(#[trigger] x[m]) by {
        assert(x[m] == a[m]);
    }
    assert(x[a.len() as int] == ' ');
    lemma_word_len_exact(x, a.len() as int);
    assert(x.take(a.len() as int) =~= a);
    let rest = x.skip(a.len() as int);
    assert(rest =~= seq![' '] + b);
    assert(rest.drop_first() =~= b);
    assert(trim_start(rest) == trim_start(b));
    assert(words(x) == seq![x.take(word_len(x) as int)] + words(x.skip(word_len(x) as int)));
    assert(words(rest) == words(b));
}

/// The words of a non-empty string without whitespace: the string.
proof fn lemma_words_single(a: Seq<char>)
    requires
        a.len() > 0,
        no_ws(a),
    ensures
        words(a) == seq![a],
{
    assert(!is_ws(a[0]));
    assert(trim_start(a) == a);
    lemma_word_len_exact(a, a.len() as int);
    assert(a.take(a.len() as int) =~= a);
    assert(a.skip(a.len() as int) =~= Seq::<char>::empty());
    assert(trim_start(Seq::<char>::empty()) =~= Seq::<char>::empty());
    assert(words(Seq::<char>::empty()) =~= Seq::<Seq<char>>::empty());
    assert(words(a) == seq![a.take(word_len(a) as int)] + words(a.skip(word_len(a) as int)));
    assert(seq![a] + Seq::<Seq<char>>::empty() =~= seq![a]);
}

/// A line's end is the first `'\n'` from its start.
proof fn lemma_line_end_at(t: Seq<char>, i: int, m: int)
    requires
        0 <= i <= m < t.len(),
        t[m] == '\n',
        forall|k: int| i <= k < m ==> t[k] != '\n',
    ensures
        line_end(t, i) == m,
    decreases m - i,
{
    if i < m {
        lemma_line_end_at(t, i + 1, m);
    }
}

/// Lines read from the middle of a text do not depend on what precedes it.
proof fn lemma_lines_from_shift(p: Seq<char>, q: Seq<char>, i: int)
    requires
        0 <= i,
    ensures
        lines_from(p + q, p.len() + i) == lines_from(q, i),
    decreases q.len() + 1 - i,
{
    let t = p + q;
    if i < q.len() {
        lemma_line_end_shift(p, q, i);
        lemma_line_end_bounds(q, i);
        let j = line_end(q, i);
        assert(t.subrange(p.len() + i, p.len() + j) =~= q.subrange(i, j));
        lemma_lines_from_shift(p, q, j + 1);
        assert(p.len() + j + 1 == p.len() + (j + 1));
    }
}

/// Line ends read from the middle of a text do not depend on what precedes
/// it.
proof fn lemma_line_end_shift(p: Seq<char>, q: Seq<char>, i: int)
    requires
        0 <= i <= q.len(),
    ensures
        line_end(p + q, p.len() + i) == p.len() + line_end(q, i),
    decreases q.len() - i,
{
    if i < q.len() {
        assert((p + q)[p.len() + i] == q[i]);
        if q[i] != '\n' {
            lemma_line_end_shift(p, q, i + 1);
        }
    }
}

/// A line fit to be written: no `'\n'` in it, and no `'\r'` at its end.
pub open spec fn plain_line(x: Seq<char>) -> bool {
    &&& forall|k: int| 0 <= k < x.len() ==> #[trigger] x[k] != '\n'
    &&& (x.len() == 0 || x.last() != '\r')
}

/// Reading the lines of joined plain lines gives them back.
proof fn lemma_lines_join(ls: Seq<Seq<char>>)
    requires
        forall|k: int| 0 <= k < ls.len() ==> plain_line(#[trigger] ls[k]),
    ensures
        lines(join_lines(ls)) == ls,
    decreases ls.len(),
{
    if ls.len() > 0 {
        let x = ls[0];
        let rest = ls.drop_first();
        assert forall|k: int| 0 <= k < rest.len() implies plain_line(#[trigger] rest[k]) by {
            assert(rest[k] == ls[k + 1]);
        }
        lemma_lines_join(rest);
        let p = x + seq!['\n'];
        let t = join_lines(ls);
        assert(t == p + join_lines(rest));
        assert(plain_line(ls[0]));
        assert forall|k: int| 0 <= k < x.len() implies t[k] != '\n' by {
            assert(t[k] == x[k]);
        }
        assert(t[x.len() as int] == '\n');
        lemma_line_end_at(t, 0, x.len() as int);
        assert(t.subrange(0, x.len() as int) =~= x);
        lemma_lines_from_shift(p, join_lines(rest), 0);
        assert(lines_from(t, 0) == seq![x] + lines_from(t, x.len() + 1int));
        assert(lines(t) =~= seq![x] + rest);
    }
}

/// A line made of words joined by single spaces is plain and trims to
/// itself.
proof fn lemma_spaced_line(a: Seq<char>, b: Seq<char>)
    requires
        a.len() > 0,
        no_ws(a),
        b.len() > 0,
        no_ws(b),
    ensures
        plain_line(a + seq![' '] + b),
        trim(a + seq![' '] + b) == a + seq![' '] + b,
        (a + seq![' '] + b).len() > 0,
        !is_ws((a + seq![' '] + b)[0]),
        !is_ws((a + seq![' '] + b).last()),
{
    let x = a + seq![' '] + b;
    assert(x[0] == a[0]);
    assert(x.last() == b.last());
    assert(!is_ws(b[b.len() - 1]));
    assert forall|k: int| 0 <= k < x.len() implies #[trigger] x[k] != '\n' by {
        if k < a.len() {
            assert(x[k] == a[k]);
        } else if k > a.len() {
            assert(x[k] == b[k - a.len() - 1]);
        }
    }
    assert(trim_start(x) == x);
    assert(trim_end(x) == x);
}

/// The lines of the written text are the directive lines.
proof fn lemma_text_lines_plain(r: ReplayView)
    ensures
        forall|k: int| 0 <= k < text_lines(r).len() ==> plain_line(#[trigger] text_lines(r)[k]),
        lines(spec_to_text(r)) == text_lines(r),
{
    let ls = text_lines(r);
    lemma_numbers_no_ws(1, r.width);
    lemma_numbers_no_ws(r.seed as nat, r.height);
    lemma_words_no_ws(Direction::Up);
    assert(ls[0] == header_line());
    assert(plain_line(header_line())) by {
        let h = header_line();
        lemma_fmt_nat(1);
        assert(fmt_nat(1) =~= seq!['1']);
        assert(h =~= seq!['s', 'n', 'a', 'k', 'e', '-', 'r', 'e', 'p', 'l', 'a', 'y', ' ', '1']);
    }
    assert(plain_line(board_line(r.width, r.height))) by {
        lemma_spaced_line_words3(kw_board(), fmt_i32(r.width), fmt_i32(r.height));
    }
    assert(plain_line(seed_line(r.seed))) by {
        lemma_spaced_line(kw_seed(), fmt_nat(r.seed as nat));
    }
    assert forall|k: int| 0 <= k < ls.len() implies plain_line(#[trigger] ls[k]) by {
        if k >= 3 {
            let p = r.turns[k - 3];
            assert(ls[k] == turn_line(p.0, p.1));
            lemma_numbers_no_ws(p.0 as nat, 0);
            lemma_words_no_ws(p.1);
            lemma_spaced_line_words3(kw_turn(), fmt_nat(p.0 as nat), direction_word(p.1));
        } else if k == 1 {
            assert(ls[1] == board_line(r.width, r.height));
        } else if k == 2 {
            assert(ls[2] == seed_line(r.seed));
        }
    }
    lemma_lines_join(ls);
}

/// Three words joined by single spaces: plain, trimmed, and read back as the
/// three words.
proof fn lemma_spaced_line_words3(a: Seq<char>, b: Seq<char>, c: Seq<char>)
    requires
        a.len() > 0,
        no_ws(a),
        b.len() > 0,
        no_ws(b),
        c.len() > 0,
        no_ws(c),
    ensures
        plain_line(a + seq![' '] + b + seq![' '] + c),
        trim(a + seq![' '] + b + seq![' '] + c) == a + seq![' '] + b + seq![' '] + c,
        words(a + seq![' '] + b + seq![' '] + c) == seq![a, b, c],
{
    lemma_spaced_line(b, c);
    let bc = b + seq![' '] + c;
    lemma_spaced_line_general(a, bc);
    assert(a + seq![' '] + b + seq![' '] + c =~= a + seq![' '] + bc);
    lemma_words_cons(a, bc);
    lemma_words_cons(b, c);
    lemma_words_single(c);
    assert(seq![a] + (seq![b] + seq![c]) =~= seq![a, b, c]);
}

/// `a`, a space, then a line that starts and ends without whitespace: plain,
/// and trimmed.
proof fn lemma_spaced_line_general(a: Seq<char>, rest: Seq<char>)
    requires
        a.len() > 0,
        no_ws(a),
        rest.len() > 0,
        plain_line(rest),
        !is_ws(rest[0]),
        !is_ws(rest.last()),
    ensures
        plain_line(a + seq![' '] + rest),
        trim(a + seq![' '] + rest) == a + seq![' '] + rest,
{
    let x = a + seq![' '] + rest;
    assert(x[0] == a[0]);
    assert(x.last() == rest.last());
    assert forall|k: int| 0 <= k < x.len() implies #[trigger] x[k] != '\n' by {
        if k < a.len() {
            assert(x[k] == a[k]);
        } else if k > a.len() {
            assert(x[k] == rest[k - a.len() - 1]);
        }
    }
    assert(trim_start(x) == x);
    assert(trim_end(x) == x);
}

/// Writing a well-formed recording and reading the text back gives the same
/// recording.
pub proof fn lemma_text_round_trip(r: ReplayView)
    requires
        replay_wf(r),
        valid_board(r.width as int, r.height as int),
    ensures
        spec_from_text(spec_to_text(r)) == Ok::<ReplayView, ReplayErrorView>(r),
{
    let ls = text_lines(r);
    lemma_text_lines_plain(r);
    let t = spec_to_text(r);
    assert(lines(t) == ls);
    // Header.
    lemma_fmt_nat(1);
    assert(fmt_nat(1) =~= seq!['1']);
    let h = ls[0];
    assert(h.take(13) =~= header_prefix());
    assert(h.skip(13) =~= seq!['1']);
    lemma_numbers_no_ws(1, 0);
    lemma_trim_no_ws(seq!['1']);
    lemma_parse_fmt_unsigned(1, u32::MAX as nat);
    assert(parse_u32(trim(h.skip(13))) == Some(1u32));
    // Board.
    lemma_numbers_no_ws(r.seed as nat, r.width);
    lemma_numbers_no_ws(0, r.height);
    lemma_words_no_ws(Direction::Up);
    lemma_spaced_line_words3(kw_board(), fmt_i32(r.width), fmt_i32(r.height));
    lemma_parse_fmt_i32(r.width);
    lemma_parse_fmt_i32(r.height);
    assert(ls[1] == board_line(r.width, r.height));
    let st1 = ParseState { board: Some((r.width, r.height)), ..initial_parse_state() };
    assert(parse_line(ls[1], 2, initial_parse_state()) == Ok::<ParseState, ReplayErrorView>(st1));
    // Seed.
    lemma_spaced_line(kw_seed(), fmt_nat(r.seed as nat));
    lemma_words_cons(kw_seed(), fmt_nat(r.seed as nat));
    lemma_words_single(fmt_nat(r.seed as nat));
    lemma_parse_fmt_unsigned(r.seed as nat, u64::MAX as nat);
    assert(ls[2] == seed_line(r.seed));
    let st2 = ParseState { seed: r.seed, ..st1 };
    assert(parse_line(ls[2], 3, st1) == Ok::<ParseState, ReplayErrorView>(st2));
    assert(r.turns.take(0) =~= Seq::<(u64, Direction)>::empty());
    lemma_parse_turns(r, 0);
    assert(parse_lines(ls, 2, st1) == parse_lines(ls, 3, st2));
    assert(parse_lines(ls, 1, initial_parse_state()) == parse_lines(ls, 2, st1));
}

/// Reading the turn lines from turn `j` on, after the board and seed, gives
/// the recording.
proof fn lemma_parse_turns(r: ReplayView, j: int)
    requires
        replay_wf(r),
        valid_board(r.width as int, r.height as int),
        0 <= j <= r.turns.len(),
    ensures
        parse_lines(
            text_lines(r),
            3 + j,
            ParseState { board: Some((r.width, r.height)), seed: r.seed, turns: r.turns.take(j) },
        ) == Ok::<ReplayView, ReplayErrorView>(r),
    decreases r.turns.len() - j,
{
    let ls = text_lines(r);
    let st = ParseState {
        board: Some((r.width, r.height)),
        seed: r.seed,
        turns: r.turns.take(j),
    };
    if j == r.turns.len() {
        assert(r.turns.take(j) =~= r.turns);
    } else {
        let p = r.turns[j];
        assert(ls[3 + j] == turn_line(p.0, p.1));
        lemma_numbers_no_ws(p.0 as nat, 0);
        lemma_words_no_ws(p.1);
        lemma_spaced_line_words3(kw_turn(), fmt_nat(p.0 as nat), direction_word(p.1));
        lemma_parse_fmt_unsigned(p.0 as nat, u64::MAX as nat);
        assert(parse_u64(fmt_nat(p.0 as nat)) == Some(p.0));
        assert(spec_direction_from_name(direction_word(p.1)) == Some(p.1));
        if j > 0 {
            assert(st.turns.last() == r.turns[j - 1]);
        }
        assert(r.turns.take(j).push(p) =~= r.turns.take(j + 1));
        let next = ParseState { turns: r.turns.take(j + 1), ..st };
        assert(parse_line(ls[3 + j], (3 + j + 1) as usize, st) == Ok::<
            ParseState,
            ReplayErrorView,
        >(next));
        lemma_parse_turns(r, j + 1);
    }
}

} // verus!
