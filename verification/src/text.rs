//! Plain-text building blocks: whitespace, trimming, words, lines, and
//! decimal numbers, each stated over `Seq<char>` and computed over a
//! `Vec<char>` by position.

use vstd::prelude::*;

verus! {

// ── Whitespace, trimming and words ──────────────────────────────────────────

/// Whether `c` has the Unicode `White_Space` property (what
/// `char::is_whitespace` answers).
pub open spec fn is_ws(c: char) -> bool {
    ||| c == '\t'
    ||| c == '\n'
    ||| c == '\u{0B}'
    ||| c == '\u{0C}'
    ||| c == '\r'
    ||| c == ' '
    ||| c == '\u{85}'
    ||| c == '\u{A0}'
    ||| c == '\u{1680}'
    ||| ('\u{2000}' as u32 <= c as u32 && c as u32 <= '\u{200A}' as u32)
    ||| c == '\u{2028}'
    ||| c == '\u{2029}'
    ||| c == '\u{202F}'
    ||| c == '\u{205F}'
    ||| c == '\u{3000}'
}

/// `s` without its leading whitespace.
pub open spec fn trim_start(s: Seq<char>) -> Seq<char>
    decreases s.len(),
{
    if s.len() > 0 && is_ws(s[0]) {
        trim_start(s.drop_first())
    } else {
        s
    }
}

/// `s` without its trailing whitespace.
pub open spec fn trim_end(s: Seq<char>) -> Seq<char>
    decreases s.len(),
{
    if s.len() > 0 && is_ws(s.last()) {
        trim_end(s.drop_last())
    } else {
        s
    }
}

/// `s` without leading or trailing whitespace.
pub open spec fn trim(s: Seq<char>) -> Seq<char> {
    trim_end(trim_start(s))
}

/// The length of the run of non-whitespace characters that starts `s`.
pub open spec fn word_len(s: Seq<char>) -> nat
    decreases s.len(),
{
    if s.len() == 0 || is_ws(s[0]) {
        0
    } else {
        1 + word_len(s.drop_first())
    }
}

/// The maximal runs of non-whitespace characters of `s`, in order.
pub open spec fn words(s: Seq<char>) -> Seq<Seq<char>>
    decreases s.len(),
{
    let t = trim_start(s);
    if t.len() == 0 {
        Seq::empty()
    } else {
        proof {
            lemma_trim_start_len(s);
            lemma_word_len_bounds(t);
        }
        let n = word_len(t);
        seq![t.take(n as int)] + words(t.skip(n as int))
    }
}

/// Trimming never lengthens.
pub proof fn lemma_trim_start_len(s: Seq<char>)
    ensures
        trim_start(s).len() <= s.len(),
        trim_start(s).len() == 0 || !is_ws(trim_start(s)[0]),
    decreases s.len(),
{
    if s.len() > 0 && is_ws(s[0]) {
        lemma_trim_start_len(s.drop_first());
    }
}

/// A word is as long as the non-whitespace run, positive when `s` starts with
/// one, and holds no whitespace.
pub proof fn lemma_word_len_bounds(s: Seq<char>)
    ensures
        word_len(s) <= s.len(),
        s.len() > 0 && !is_ws(s[0]) ==> word_len(s) >= 1,
        forall|i: int| 0 <= i < word_len(s) ==> !is_ws(#[trigger] s[i]),
        word_len(s) < s.len() ==> is_ws(s[word_len(s) as int]),
    decreases s.len(),
{
    if s.len() > 0 && !is_ws(s[0]) {
        lemma_word_len_bounds(s.drop_first());
        assert forall|i: int| 0 <= i < word_len(s) implies !is_ws(#[trigger] s[i]) by {
            if i > 0 {
                assert(s[i] == s.drop_first()[i - 1]);
            }
        }
        if word_len(s) < s.len() {
            assert(s[word_len(s) as int] == s.drop_first()[word_len(s.drop_first()) as int]);
        }
    }
}

// ── Lines ───────────────────────────────────────────────────────────────────

/// The position of the first `'\n'` at or after `i`, or the end of `t`.
pub open spec fn line_end(t: Seq<char>, i: int) -> int
    decreases t.len() - i,
{
    if i < 0 || i >= t.len() || t[i] == '\n' {
        i
    } else {
        line_end(t, i + 1)
    }
}

/// A line as handed out: a `'\r'` just before the line's `'\n'` is dropped.
pub open spec fn strip_cr(raw: Seq<char>, terminated: bool) -> Seq<char> {
    if terminated && raw.len() > 0 && raw.last() == '\r' {
        raw.drop_last()
    } else {
        raw
    }
}

/// The lines of `t` from position `i` on: split at `'\n'`, each `"\r\n"`
/// counting as one line ending, and no empty line after a final line ending
/// (what `str::lines` yields).
pub open spec fn lines_from(t: Seq<char>, i: int) -> Seq<Seq<char>>
    decreases t.len() + 1 - i,
{
    if i < 0 || i >= t.len() {
        Seq::empty()
    } else {
        proof {
            lemma_line_end_bounds(t, i);
        }
        let j = line_end(t, i);
        seq![strip_cr(t.subrange(i, j), j < t.len())] + lines_from(t, j + 1)
    }
}

/// The lines of `t`.
pub open spec fn lines(t: Seq<char>) -> Seq<Seq<char>> {
    lines_from(t, 0)
}

/// The end of a line lies at or after its start and no further than the text,
/// and no `'\n'` comes before it.
pub proof fn lemma_line_end_bounds(t: Seq<char>, i: int)
    requires
        0 <= i <= t.len(),
    ensures
        i <= line_end(t, i) <= t.len(),
        line_end(t, i) < t.len() ==> t[line_end(t, i)] == '\n',
        forall|k: int| i <= k < line_end(t, i) ==> t[k] != '\n',
    decreases t.len() - i,
{
    if i < t.len() && t[i] != '\n' {
        lemma_line_end_bounds(t, i + 1);
    }
}

// ── Decimal numbers ─────────────────────────────────────────────────────────

/// Whether `c` is one of `'0'..='9'`.
pub open spec fn is_digit(c: char) -> bool {
    '0' <= c && c <= '9'
}

/// Whether `s` is made of decimal digits only.
pub open spec fn all_digits(s: Seq<char>) -> bool {
    forall|i: int| 0 <= i < s.len() ==> is_digit(#[trigger] s[i])
}

/// The value of a string of decimal digits.
pub open spec fn digits_value(s: Seq<char>) -> nat
    decreases s.len(),
{
    if s.len() == 0 {
        0
    } else {
        digits_value(s.drop_last()) * 10 + ((s.last() as int - '0' as int) as nat)
    }
}

/// What `str::parse` gives for an unsigned integer no greater than `max`: an
/// optional `'+'`, then at least one digit and nothing else, in range.
pub open spec fn parse_unsigned(s: Seq<char>, max: nat) -> Option<nat> {
    let body = if s.len() > 0 && s[0] == '+' {
        s.drop_first()
    } else {
        s
    };
    if body.len() > 0 && all_digits(body) && digits_value(body) <= max {
        Some(digits_value(body))
    } else {
        None
    }
}

/// What `str::parse::<u64>` gives.
pub open spec fn parse_u64(s: Seq<char>) -> Option<u64> {
    match parse_unsigned(s, u64::MAX as nat) {
        Some(v) => Some(v as u64),
        None => None,
    }
}

/// What `str::parse::<u32>` gives.
pub open spec fn parse_u32(s: Seq<char>) -> Option<u32> {
    match parse_unsigned(s, u32::MAX as nat) {
        Some(v) => Some(v as u32),
        None => None,
    }
}

/// What `str::parse::<i32>` gives: an optional sign, then at least one digit
/// and nothing else, in range.
pub open spec fn parse_i32(s: Seq<char>) -> Option<i32> {
    if s.len() > 0 && s[0] == '-' {
        let body = s.drop_first();
        if body.len() > 0 && all_digits(body) && digits_value(body) <= 0x8000_0000 {
            Some((-digits_value(body)) as i32)
        } else {
            None
        }
    } else {
        match parse_unsigned(s, i32::MAX as nat) {
            Some(v) => Some(v as i32),
            None => None,
        }
    }
}

/// The digit character for `d` in `0..10`.
pub open spec fn digit_char(d: nat) -> char {
    if d == 0 {
        '0'
    } else if d == 1 {
        '1'
    } else if d == 2 {
        '2'
    } else if d == 3 {
        '3'
    } else if d == 4 {
        '4'
    } else if d == 5 {
        '5'
    } else if d == 6 {
        '6'
    } else if d == 7 {
        '7'
    } else if d == 8 {
        '8'
    } else {
        '9'
    }
}

/// A digit character is a digit worth the digit.
pub proof fn lemma_digit_char(d: nat)
    requires
        d < 10,
    ensures
        is_digit(digit_char(d)),
        digit_char(d) as int - '0' as int == d,
{
}

/// The decimal digits of `n`, most significant first, with no leading zero.
pub open spec fn fmt_nat(n: nat) -> Seq<char>
    decreases n,
{
    if n < 10 {
        seq![digit_char(n)]
    } else {
        fmt_nat(n / 10).push(digit_char(n % 10))
    }
}

/// How an `i32` is written in decimal.
pub open spec fn fmt_i32(n: i32) -> Seq<char> {
    if n < 0 {
        seq!['-'] + fmt_nat((-n) as nat)
    } else {
        fmt_nat(n as nat)
    }
}

/// Formatted digits are digits, and they read back as the number.
pub proof fn lemma_fmt_nat(n: nat)
    ensures
        fmt_nat(n).len() > 0,
        all_digits(fmt_nat(n)),
        digits_value(fmt_nat(n)) == n,
        fmt_nat(n)[0] != '+' && fmt_nat(n)[0] != '-',
    decreases n,
{
    if n < 10 {
        lemma_digit_char(n);
        let one = seq![digit_char(n)];
        assert(one.drop_last() =~= Seq::<char>::empty());
        assert(digits_value(one) == digits_value(one.drop_last()) * 10 + ((one.last() as int
            - '0' as int) as nat));
    } else {
        lemma_fmt_nat(n / 10);
        vstd::arithmetic::div_mod::lemma_fundamental_div_mod(n as int, 10);
        lemma_digit_char(n % 10);
        let p = fmt_nat(n / 10);
        let s = p.push(digit_char(n % 10));
        assert(s.drop_last() =~= p);
        assert(digits_value(s) == digits_value(s.drop_last()) * 10 + ((s.last() as int
            - '0' as int) as nat));
        assert(digits_value(s) == (n / 10) * 10 + n % 10);
        assert forall|i: int| 0 <= i < s.len() implies is_digit(#[trigger] s[i]) by {
            if i < p.len() {
                assert(s[i] == p[i]);
            }
        }
        assert(s[0] == p[0]);
    }
}

/// Parsing a formatted unsigned number gives it back.
pub proof fn lemma_parse_fmt_unsigned(n: nat, max: nat)
    requires
        n <= max,
    ensures
        parse_unsigned(fmt_nat(n), max) == Some(n),
{
    lemma_fmt_nat(n);
}

/// Parsing a formatted `i32` gives it back.
pub proof fn lemma_parse_fmt_i32(n: i32)
    ensures
        parse_i32(fmt_i32(n)) == Some(n),
{
    if n < 0 {
        lemma_fmt_nat((-n) as nat);
        assert((seq!['-'] + fmt_nat((-n) as nat)).drop_first() =~= fmt_nat((-n) as nat));
    } else {
        lemma_fmt_nat(n as nat);
    }
}

/// Digits hold no whitespace.
pub proof fn lemma_digits_not_ws(s: Seq<char>)
    requires
        all_digits(s),
    ensures
        forall|i: int| 0 <= i < s.len() ==> !is_ws(#[trigger] s[i]),
{
    assert forall|i: int| 0 <= i < s.len() implies !is_ws(#[trigger] s[i]) by {
        assert(is_digit(s[i]));
    }
}

/// A prefix of digits is worth no more than the whole.
pub proof fn lemma_digits_value_prefix(s: Seq<char>, k: int)
    requires
        0 <= k <= s.len(),
    ensures
        digits_value(s.take(k)) <= digits_value(s),
    decreases s.len() - k,
{
    if k == s.len() {
        assert(s.take(k) =~= s);
    } else {
        lemma_digits_value_prefix(s, k + 1);
        let a = s.take(k + 1);
        assert(a.drop_last() =~= s.take(k));
        assert(digits_value(a) == digits_value(a.drop_last()) * 10 + ((a.last() as int - '0' as int) as nat));
        assert(digits_value(s.take(k)) <= digits_value(s.take(k)) * 10);
    }
}

// ── Computing over a `Vec<char>` by position ────────────────────────────────

/// Whether `c` is whitespace.
pub fn char_is_ws(c: char) -> (r: bool)
    ensures
        r == is_ws(c),
{
    let u = c as u32;
    c == '\t' || c == '\n' || c == '\u{0B}' || c == '\u{0C}' || c == '\r' || c == ' ' || c
        == '\u{85}' || c == '\u{A0}' || c == '\u{1680}' || (0x2000u32 <= u && u <= 0x200Au32) || c
        == '\u{2028}' || c == '\u{2029}' || c == '\u{202F}' || c == '\u{205F}' || c == '\u{3000}'
}

/// The bounds of `s[start..end]` with leading and trailing whitespace dropped.
pub fn trim_bounds(s: &Vec<char>, start: usize, end: usize) -> (r: (usize, usize))
    requires
        start <= end <= s@.len(),
    ensures
        start <= r.0 <= r.1 <= end,
        s@.subrange(r.0 as int, r.1 as int) == trim(s@.subrange(start as int, end as int)),
{
    let mut a = start;
    while a < end && char_is_ws(s[a])
        invariant
            start <= a <= end <= s@.len(),
            trim_start(s@.subrange(a as int, end as int)) == trim_start(
                s@.subrange(start as int, end as int),
            ),
        decreases end - a,
    {
        proof {
            assert(s@.subrange(a as int, end as int).drop_first() =~= s@.subrange(
                a + 1,
                end as int,
            ));
        }
        a = a + 1;
    }
    let mut b = end;
    proof {
        assert(trim_start(s@.subrange(a as int, end as int)) == s@.subrange(a as int, end as int));
    }
    while b > a && char_is_ws(s[b - 1])
        invariant
            start <= a <= b <= end <= s@.len(),
            trim_end(s@.subrange(a as int, b as int)) == trim(s@.subrange(start as int, end as int)),
        decreases b - a,
    {
        proof {
            assert(s@.subrange(a as int, b as int).drop_last() =~= s@.subrange(a as int, b - 1));
        }
        b = b - 1;
    }
    (a, b)
}

/// The spans of the words of `s[start..end]`.
pub fn word_spans(s: &Vec<char>, start: usize, end: usize) -> (r: Vec<(usize, usize)>)
    requires
        start <= end <= s@.len(),
    ensures
        spans_match(s@, r@, words(s@.subrange(start as int, end as int))),
{
    let mut out: Vec<(usize, usize)> = Vec::new();
    let mut i = start;
    proof {
        let done = words(s@.subrange(start as int, end as int));
        assert(done.take(0) =~= Seq::<Seq<char>>::empty());
        assert(done.skip(0) =~= done);
        assert(spans_match(s@, out@, done.take(0)));
    }
    while i < end
        invariant
            start <= i <= end <= s@.len(),
            ({
                let done = words(s@.subrange(start as int, end as int));
                exists|k: int|
                    0 <= k <= done.len() && spans_match(s@, out@, done.take(k)) && done.skip(k)
                        == words(s@.subrange(i as int, end as int))
            }),
        decreases end - i,
    {
        let ghost done = words(s@.subrange(start as int, end as int));
        let ghost k = choose|k: int|
            0 <= k <= done.len() && spans_match(s@, out@, done.take(k)) && done.skip(k) == words(
                s@.subrange(i as int, end as int),
            );
        if char_is_ws(s[i]) {
            proof {
                let t = s@.subrange(i as int, end as int);
                assert(t.drop_first() =~= s@.subrange(i + 1, end as int));
                assert(trim_start(t) == trim_start(t.drop_first()));
                assert(words(t) == words(t.drop_first()));
            }
            i = i + 1;
        } else {
            let ws = i;
            while i < end && !char_is_ws(s[i])
                invariant
                    ws <= i <= end <= s@.len(),
                    forall|m: int| ws <= m < i ==> !is_ws(#[trigger] s@[m]),
                decreases end - i,
            {
                i = i + 1;
            }
            proof {
                let t = s@.subrange(ws as int, end as int);
                lemma_word_len_exact(t, i - ws);
                lemma_trim_start_len(t);
                assert(trim_start(t) == t);
                assert(t.take(i - ws) =~= s@.subrange(ws as int, i as int));
                assert(t.skip(i - ws) =~= s@.subrange(i as int, end as int));
                assert(words(t) == seq![s@.subrange(ws as int, i as int)] + words(
                    s@.subrange(i as int, end as int),
                ));
                assert(done.skip(k)[0] == s@.subrange(ws as int, i as int));
                assert(done.take(k + 1) =~= done.take(k).push(s@.subrange(ws as int, i as int)));
                assert(done.skip(k + 1) =~= done.skip(k).drop_first());
            }
            proof {
                lemma_spans_push(s@, out@, done.take(k), (ws, i), s@.subrange(ws as int, i as int));
            }
            out.push((ws, i));
        }
    }
    proof {
        let done = words(s@.subrange(start as int, end as int));
        let k = choose|k: int|
            0 <= k <= done.len() && spans_match(s@, out@, done.take(k)) && done.skip(k) == words(
                s@.subrange(i as int, end as int),
            );
        assert(words(s@.subrange(i as int, end as int)) =~= Seq::<Seq<char>>::empty());
        assert(done.take(k) =~= done);
    }
    out
}

/// `spans` picks out exactly the pieces `pieces` of `s`.
pub open spec fn spans_match(s: Seq<char>, spans: Seq<(usize, usize)>, pieces: Seq<Seq<char>>) -> bool {
    &&& spans.len() == pieces.len()
    &&& forall|k: int| 0 <= k < spans.len() ==> span_ok(s, spans[k], #[trigger] pieces[k])
}

/// `span` lies within `s` and picks out `piece`.
pub open spec fn span_ok(s: Seq<char>, span: (usize, usize), piece: Seq<char>) -> bool {
    &&& span.0 <= span.1
    &&& span.1 <= s.len()
    &&& s.subrange(span.0 as int, span.1 as int) == piece
}

/// Adding one more span for one more piece keeps spans and pieces matched.
pub proof fn lemma_spans_push(
    s: Seq<char>,
    spans: Seq<(usize, usize)>,
    pieces: Seq<Seq<char>>,
    span: (usize, usize),
    piece: Seq<char>,
)
    requires
        spans_match(s, spans, pieces),
        span.0 <= span.1 <= s.len(),
        s.subrange(span.0 as int, span.1 as int) == piece,
    ensures
        spans_match(s, spans.push(span), pieces.push(piece)),
{
    let a = spans.push(span);
    let b = pieces.push(piece);
    assert forall|k: int| 0 <= k < a.len() implies span_ok(s, a[k], #[trigger] b[k]) by {
        if k < spans.len() {
            assert(a[k] == spans[k]);
            assert(b[k] == pieces[k]);
        } else {
            assert(a[k] == span);
            assert(b[k] == piece);
        }
    }
    assert(a.len() == b.len());
}

/// A run of exactly `n` non-whitespace characters, followed by whitespace or
/// the end, is the first word's length.
pub proof fn lemma_word_len_exact(t: Seq<char>, n: int)
    requires
        0 <= n <= t.len(),
        forall|m: int| 0 <= m < n ==> !is_ws(#[trigger] t[m]),
        n == t.len() || is_ws(t[n]),
    ensures
        word_len(t) == n,
    decreases n,
{
    if n > 0 {
        lemma_word_len_exact(t.drop_first(), n - 1);
    }
}

/// The spans of the lines of `s`.
pub fn line_spans(s: &Vec<char>) -> (r: Vec<(usize, usize)>)
    ensures
        spans_match(s@, r@, lines(s@)),
{
    let n = s.len();
    let mut out: Vec<(usize, usize)> = Vec::new();
    let mut i: usize = 0;
    while i < n
        invariant
            n == s@.len(),
            i <= n,
            spans_match(s@, out@, lines(s@).take(out@.len() as int)),
            out@.len() <= lines(s@).len(),
            lines(s@).skip(out@.len() as int) == lines_from(s@, i as int),
        decreases n - i,
    {
        let start = i;
        while i < n && s[i] != '\n'
            invariant
                start <= i <= n == s@.len(),
                line_end(s@, start as int) == line_end(s@, i as int),
            decreases n - i,
        {
            i = i + 1;
        }
        let mut e = i;
        if i < n && e > start && s[e - 1] == '\r' {
            e = e - 1;
        }
        proof {
            let all = lines(s@);
            let k = out@.len() as int;
            lemma_line_end_bounds(s@, start as int);
            assert(line_end(s@, start as int) == i);
            assert(s@.subrange(start as int, e as int) == strip_cr(
                s@.subrange(start as int, i as int),
                i < n,
            )) by {
                if i < n && i > start && s@[i - 1] == '\r' {
                    assert(s@.subrange(start as int, i as int).drop_last() =~= s@.subrange(
                        start as int,
                        e as int,
                    ));
                }
            }
            let piece = s@.subrange(start as int, e as int);
            assert(lines_from(s@, start as int) == seq![piece] + lines_from(s@, i + 1));
            assert(all.skip(k).len() > 0);
            assert(all.skip(k)[0] == piece);
            assert(all[k] == piece);
            assert(all.take(k + 1) =~= all.take(k).push(piece));
            assert(all.skip(k + 1) =~= all.skip(k).drop_first());
            assert(all.skip(k).drop_first() =~= lines_from(s@, i + 1));
            if i == n {
                assert(lines_from(s@, i + 1) =~= lines_from(s@, i as int));
            }
            lemma_spans_push(s@, out@, all.take(k), (start, e), piece);
        }
        out.push((start, e));
        if i < n {
            i = i + 1;
        }
    }
    proof {
        let all = lines(s@);
        assert(lines_from(s@, i as int) =~= Seq::<Seq<char>>::empty());
        assert(all.take(out@.len() as int) =~= all);
    }
    out
}

/// Whether `s[start..end]` is exactly `lit`.
pub fn span_is(s: &Vec<char>, start: usize, end: usize, lit: &[char]) -> (r: bool)
    requires
        start <= end <= s@.len(),
    ensures
        r == (s@.subrange(start as int, end as int) == lit@),
{
    if end - start != lit.len() {
        return false;
    }
    let mut i: usize = 0;
    while i < lit.len()
        invariant
            start <= end <= s@.len(),
            end - start == lit@.len(),
            i <= lit@.len(),
            forall|m: int| 0 <= m < i ==> s@[start + m] == lit@[m],
        decreases lit@.len() - i,
    {
        if s[start + i] != lit[i] {
            proof {
                assert(s@.subrange(start as int, end as int)[i as int] != lit@[i as int]);
            }
            return false;
        }
        i = i + 1;
    }
    proof {
        assert(s@.subrange(start as int, end as int) =~= lit@);
    }
    true
}

/// The digits part of an unsigned number: what follows an optional `'+'`.
pub open spec fn unsigned_body(s: Seq<char>) -> Seq<char> {
    if s.len() > 0 && s[0] == '+' {
        s.drop_first()
    } else {
        s
    }
}

/// An empty digits part, a non-digit in it, or a value over `max` is
/// refused.
proof fn lemma_parse_unsigned_none(s: Seq<char>, max: nat)
    requires
        unsigned_body(s).len() == 0 || !all_digits(unsigned_body(s)) || digits_value(
            unsigned_body(s),
        ) > max,
    ensures
        parse_unsigned(s, max) is None,
{
}

/// Parses `s[start..end]` as an unsigned number no greater than `max`, as
/// `str::parse` does.
pub fn parse_unsigned_span(s: &Vec<char>, start: usize, end: usize, max: u64) -> (r: Option<u64>)
    requires
        start <= end <= s@.len(),
    ensures
        match parse_unsigned(s@.subrange(start as int, end as int), max as nat) {
            Some(v) => r == Some(v as u64),
            None => r is None,
        },
{
    let ghost whole = s@.subrange(start as int, end as int);
    let mut i = start;
    if i < end && s[i] == '+' {
        i = i + 1;
    }
    let ghost body = s@.subrange(i as int, end as int);
    proof {
        if start < end && s@[start as int] == '+' {
            assert(whole[0] == '+');
            assert(whole.drop_first() =~= body);
        } else {
            assert(whole =~= body);
        }
        assert(unsigned_body(whole) == body);
    }
    if i == end {
        proof {
            lemma_parse_unsigned_none(whole, max as nat);
        }
        return None;
    }
    let first = i;
    let mut value: u64 = 0;
    while i < end
        invariant
            start <= first <= i <= end <= s@.len(),
            body == s@.subrange(first as int, end as int),
            whole == s@.subrange(start as int, end as int),
            unsigned_body(whole) == body,
            all_digits(s@.subrange(first as int, i as int)),
            value == digits_value(s@.subrange(first as int, i as int)),
            value <= max,
        decreases end - i,
    {
        let c = s[i];
        if !('0' <= c && c <= '9') {
            proof {
                assert(body[i - first] == c);
                assert(!is_digit(body[i - first]));
                assert(!all_digits(body));
                lemma_parse_unsigned_none(whole, max as nat);
            }
            return None;
        }
        let d = (c as u32 - '0' as u32) as u64;
        let ghost prefix = s@.subrange(first as int, i + 1);
        proof {
            assert(prefix.drop_last() =~= s@.subrange(first as int, i as int));
            assert(all_digits(prefix));
            assert(body.take(i + 1 - first) =~= prefix);
            lemma_digits_value_prefix(body, i + 1 - first);
        }
        proof {
            assert(digits_value(prefix) == digits_value(prefix.drop_last()) * 10 + ((prefix.last() as int - '0' as int) as nat));
            assert(digits_value(prefix) == value * 10 + d);
        }
        if d > max {
            proof {
                lemma_parse_unsigned_none(whole, max as nat);
            }
            return None;
        }
        if value > (max - d) / 10 {
            proof {
                assert(value * 10 + d > max) by (nonlinear_arith)
                    requires
                        value > (max - d) / 10,
                        d <= max,
                ;
                lemma_parse_unsigned_none(whole, max as nat);
            }
            return None;
        }
        proof {
            assert(value * 10 + d <= max) by (nonlinear_arith)
                requires
                    value <= (max - d) / 10,
                    d <= max,
            ;
        }
        value = value * 10 + d;
        i = i + 1;
    }
    proof {
        assert(s@.subrange(first as int, i as int) =~= body);
    }
    Some(value)
}

/// Parses `s[start..end]` as an `i32`, as `str::parse::<i32>` does.
pub fn parse_i32_span(s: &Vec<char>, start: usize, end: usize) -> (r: Option<i32>)
    requires
        start <= end <= s@.len(),
    ensures
        r == parse_i32(s@.subrange(start as int, end as int)),
{
    let ghost whole = s@.subrange(start as int, end as int);
    if start < end && s[start] == '-' {
        proof {
            assert(whole.drop_first() =~= s@.subrange(start + 1, end as int));
        }
        if start + 1 < end && s[start + 1] == '+' {
            // A second sign is not a digit.
            proof {
                assert(!is_digit(whole.drop_first()[0]));
            }
            return None;
        }
        match parse_unsigned_span(s, start + 1, end, 0x8000_0000u64) {
            Some(v) => {
                proof {
                    assert(whole.drop_first().len() > 0);
                }
                Some((0i64 - v as i64) as i32)
            },
            None => {
                proof {
                    let body = whole.drop_first();
                    if body.len() > 0 && all_digits(body) && digits_value(body) <= 0x8000_0000 {
                        assert(!(body[0] == '+'));
                    }
                }
                None
            },
        }
    } else {
        match parse_unsigned_span(s, start, end, 0x7fff_ffffu64) {
            Some(v) => Some(v as i32),
            None => None,
        }
    }
}

/// The one-character string for the digit `d`.
pub fn digit_str(d: u64) -> (r: &'static str)
    requires
        d < 10,
    ensures
        r@ == seq![digit_char(d as nat)],
{
    proof {
        reveal_strlit("0");
        reveal_strlit("1");
        reveal_strlit("2");
        reveal_strlit("3");
        reveal_strlit("4");
        reveal_strlit("5");
        reveal_strlit("6");
        reveal_strlit("7");
        reveal_strlit("8");
        reveal_strlit("9");
    }
    let r = if d == 0 {
        "0"
    } else if d == 1 {
        "1"
    } else if d == 2 {
        "2"
    } else if d == 3 {
        "3"
    } else if d == 4 {
        "4"
    } else if d == 5 {
        "5"
    } else if d == 6 {
        "6"
    } else if d == 7 {
        "7"
    } else if d == 8 {
        "8"
    } else {
        "9"
    };
    proof {
        assert(r@ =~= seq![digit_char(d as nat)]);
    }
    r
}

/// Appends the decimal digits of `n`.
pub fn append_u64(out: &mut String, n: u64)
    ensures
        final(out)@ == old(out)@ + fmt_nat(n as nat),
{
    // Digits least significant first.
    let mut digits: Vec<u64> = Vec::new();
    let mut m = n;
    while m >= 10
        invariant
            m <= n,
            fmt_nat(n as nat) == fmt_nat(m as nat) + digits@.reverse().map_values(
                |d: u64| digit_char(d as nat),
            ),
            forall|k: int| 0 <= k < digits@.len() ==> digits@[k] < 10,
        decreases m,
    {
        let d = m % 10;
        proof {
            assert(digits@.push(d).reverse() =~= seq![d].add(digits@.reverse()));
            assert(fmt_nat(m as nat) == fmt_nat((m / 10) as nat).push(digit_char(d as nat)));
            assert(fmt_nat(m as nat) + digits@.reverse().map_values(|x: u64| digit_char(x as nat))
                =~= fmt_nat((m / 10) as nat) + digits@.push(d).reverse().map_values(
                |x: u64| digit_char(x as nat),
            ));
        }
        digits.push(d);
        m = m / 10;
    }
    proof {
        assert(digits@.push(m).reverse() =~= seq![m].add(digits@.reverse()));
        assert(fmt_nat(n as nat) =~= digits@.push(m).reverse().map_values(
            |d: u64| digit_char(d as nat),
        ));
    }
    digits.push(m);
    let ghost start = out@;
    let ghost all = digits@.reverse().map_values(|d: u64| digit_char(d as nat));
    let mut k = digits.len();
    while k > 0
        invariant
            k <= digits@.len(),
            all == digits@.reverse().map_values(|d: u64| digit_char(d as nat)),
            fmt_nat(n as nat) == all,
            forall|j: int| 0 <= j < digits@.len() ==> digits@[j] < 10,
            out@ == start + all.take(digits@.len() - k),
        decreases k,
    {
        k = k - 1;
        out.append(digit_str(digits[k]));
        proof {
            assert(all[digits@.len() - 1 - k] == digit_char(digits@[k as int] as nat));
            assert(all.take(digits@.len() - k) =~= all.take(digits@.len() - 1 - k).push(
                digit_char(digits@[k as int] as nat),
            ));
        }
    }
    proof {
        assert(all.take(digits@.len() as int) =~= all);
    }
}

/// Appends the decimal form of `n`, with a `'-'` when negative.
pub fn append_i32(out: &mut String, n: i32)
    ensures
        final(out)@ == old(out)@ + fmt_i32(n),
{
    if n < 0 {
        proof {
            reveal_strlit("-");
        }
        out.append("-");
        let ghost mid = out@;
        append_u64(out, (0i64 - n as i64) as u64);
        proof {
            assert(out@ =~= old(out)@ + (seq!['-'] + fmt_nat((-n) as nat)));
        }
    } else {
        append_u64(out, n as u64);
    }
}

/// The characters of `t`, in order.
pub fn chars_of(t: &str) -> (r: Vec<char>)
    ensures
        r@ == t@,
{
    let mut out: Vec<char> = Vec::new();
    for c in it: t.chars()
        invariant
            out@ == it.seq().take(it.index() as int),
    {
        out.push(c);
    }
    out
}

} // verus!
