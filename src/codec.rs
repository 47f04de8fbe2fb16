//! Decoding of request frames from raw connection bytes.
//!
//! A frame is a line `*<count>` followed by `count` words. A word is either a
//! line `$<len>` followed by the line holding the word (the length is advisory
//! and not checked), or a bare line holding the word itself. Lines end with
//! CR LF. Frames may follow each other back to back.
use vstd::prelude::*;

verus! {

pub const CR: u8 = 13;

pub const LF: u8 = 10;

/// True when a line break (CR LF) starts at index `j` of `b`.
pub open spec fn crlf_at(b: Seq<u8>, j: int) -> bool {
    0 <= j && j + 1 < b.len() && b[j] == CR && b[j + 1] == LF
}

/// Index of the first line break at or after `p`, if there is one.
pub open spec fn line_end(b: Seq<u8>, p: nat) -> Option<nat>
    decreases b.len() - p,
{
    if p + 1 >= b.len() {
        None
    } else if crlf_at(b, p as int) {
        Some(p)
    } else {
        line_end(b, p + 1)
    }
}

pub proof fn lemma_line_end_bounds(b: Seq<u8>, p: nat)
    ensures
        line_end(b, p) matches Some(e) ==> p <= e && e + 1 < b.len() && crlf_at(b, e as int),
    decreases b.len() - p,
{
    if p + 1 < b.len() && !crlf_at(b, p as int) {
        lemma_line_end_bounds(b, p + 1);
    }
}

/// Finds the end of the line that starts at `p`.
pub fn find_line_end(b: &Vec<u8>, p: usize) -> (r: Option<usize>)
    ensures
        r matches Some(e) ==> line_end(b@, p as nat) == Some(e as nat),
        r is None ==> line_end(b@, p as nat) is None,
{
    let mut i: usize = p;
    while i < b.len() && i + 1 < b.len()
        invariant
            p <= i,
            line_end(b@, p as nat) == line_end(b@, i as nat),
        decreases b.len() - i,
    {
        if b[i] == CR && b[i + 1] == LF {
            return Some(i);
        }
        i = i + 1;
    }
    None
}

pub const STAR: u8 = 42;

pub const DOLLAR: u8 = 36;

pub open spec fn is_digit(c: u8) -> bool {
    48 <= c <= 57
}

pub open spec fn all_digits(s: Seq<u8>) -> bool {
    forall|i: int| 0 <= i < s.len() ==> is_digit(#[trigger] s[i])
}

/// The number written in decimal by the digits `s` (most significant first).
pub open spec fn decimal_value(s: Seq<u8>) -> nat
    decreases s.len(),
{
    if s.len() == 0 {
        0
    } else {
        decimal_value(s.drop_last()) * 10 + (s.last() - 48) as nat
    }
}

/// `s` is a non-empty run of decimal digits whose value fits in a `u64`.
pub open spec fn is_u64_decimal(s: Seq<u8>) -> bool {
    s.len() > 0 && all_digits(s) && decimal_value(s) <= u64::MAX
}

proof fn lemma_decimal_monotone(s: Seq<u8>, i: int, j: int)
    requires
        0 <= i <= j <= s.len(),
        all_digits(s),
    ensures
        decimal_value(s.subrange(0, i)) <= decimal_value(s.subrange(0, j)),
    decreases j - i,
{
    if i < j {
        lemma_decimal_monotone(s, i, j - 1);
        assert(s.subrange(0, j).drop_last() =~= s.subrange(0, j - 1));
        assert(is_digit(s[j - 1]));
    }
}

/// Reads the decimal number held by `s[lo..hi]`.
pub fn parse_number(s: &Vec<u8>, lo: usize, hi: usize) -> (r: Option<u64>)
    requires
        lo <= hi <= s@.len(),
    ensures
        r is Some <==> is_u64_decimal(s@.subrange(lo as int, hi as int)),
        r matches Some(v) ==> v == decimal_value(s@.subrange(lo as int, hi as int)),
{
    let ghost t = s@.subrange(lo as int, hi as int);
    if lo == hi {
        return None;
    }
    let mut v: u64 = 0;
    let mut i: usize = lo;
    while i < hi
        invariant
            lo <= i <= hi <= s@.len(),
            t == s@.subrange(lo as int, hi as int),
            all_digits(t.subrange(0, i - lo)),
            v == decimal_value(t.subrange(0, i - lo)),
        decreases hi - i,
    {
        let c = s[i];
        if c < 48 || c > 57 {
            assert(t[i - lo] == c);
            return None;
        }
        let d = (c - 48) as u64;
        let ghost k = i - lo + 1;
        assert(t.subrange(0, k).drop_last() =~= t.subrange(0, i - lo));
        assert(t.subrange(0, k)[k - 1] == c);
        let next = match v.checked_mul(10) {
            Some(m) => m.checked_add(d),
            None => None,
        };
        match next {
            Some(n) => {
                assert(all_digits(t.subrange(0, k)));
                v = n;
            }
            None => {
                proof {
                    if all_digits(t) {
                        lemma_decimal_monotone(t, k, t.len() as int);
                        assert(t.subrange(0, t.len() as int) =~= t);
                    }
                }
                return None;
            }
        }
        i = i + 1;
    }
    assert(t.subrange(0, hi - lo) =~= t);
    Some(v)
}

/// The word that starts at `p` inside a frame, and where the next one starts.
pub open spec fn word_at(b: Seq<u8>, p: nat) -> Option<(Seq<u8>, nat)> {
    match line_end(b, p) {
        None => None,
        Some(e) => if p < e && b[p as int] == DOLLAR {
            match line_end(b, e + 2) {
                None => None,
                Some(e2) => Some((b.subrange(e + 2 as int, e2 as int), e2 + 2)),
            }
        } else {
            Some((b.subrange(p as int, e as int), e + 2))
        },
    }
}

/// The `n` words that start at `p`, and where the bytes after them start.
pub open spec fn words_at(b: Seq<u8>, p: nat, n: nat) -> Option<(Seq<Seq<u8>>, nat)>
    decreases n,
{
    if n == 0 {
        Some((Seq::empty(), p))
    } else {
        match words_at(b, p, (n - 1) as nat) {
            None => None,
            Some((ws, q)) => match word_at(b, q) {
                None => None,
                Some((w, r)) => Some((ws.push(w), r)),
            },
        }
    }
}

pub proof fn lemma_word_at_progress(b: Seq<u8>, p: nat)
    ensures
        word_at(b, p) matches Some((w, q)) ==> p + 2 <= q <= b.len(),
{
    lemma_line_end_bounds(b, p);
    if let Some(e) = line_end(b, p) {
        lemma_line_end_bounds(b, e + 2);
    }
}

pub proof fn lemma_words_at_progress(b: Seq<u8>, p: nat, n: nat)
    ensures
        words_at(b, p, n) matches Some((ws, q)) ==> ws.len() == n && p + 2 * n <= q && (n > 0
            ==> q <= b.len()),
    decreases n,
{
    if n > 0 {
        lemma_words_at_progress(b, p, (n - 1) as nat);
        if let Some((ws, q)) = words_at(b, p, (n - 1) as nat) {
            lemma_word_at_progress(b, q);
        }
    }
}

proof fn lemma_words_at_stuck(b: Seq<u8>, p: nat, m: nat, n: nat)
    requires
        m <= n,
        words_at(b, p, m) is None,
    ensures
        words_at(b, p, n) is None,
    decreases n - m,
{
    if m < n {
        lemma_words_at_stuck(b, p, m, (n - 1) as nat);
    }
}

/// A count line `*<digits>` spans `b[p..e]`; its count fits in a `u64`.
pub open spec fn is_count_line(b: Seq<u8>, p: nat, e: nat) -> bool {
    p < e <= b.len() && b[p as int] == STAR && is_u64_decimal(b.subrange(p + 1 as int, e as int))
}

/// What the bytes at `p` hold: not yet a whole frame, a line that opens no
/// frame (skipped up to `next`), or a whole frame with its words.
pub enum FrameScan {
    Incomplete,
    Skipped { next: nat },
    Complete { words: Seq<Seq<u8>>, next: nat },
}

pub open spec fn frame_at(b: Seq<u8>, p: nat) -> FrameScan {
    match line_end(b, p) {
        None => FrameScan::Incomplete,
        Some(e) => if is_count_line(b, p, e) {
            match words_at(b, e + 2, decimal_value(b.subrange(p + 1 as int, e as int))) {
                None => FrameScan::Incomplete,
                Some((ws, q)) => FrameScan::Complete { words: ws, next: q },
            }
        } else {
            FrameScan::Skipped { next: e + 2 }
        },
    }
}

/// Copies `b[lo..hi]` into a new vector.
pub fn copy_range(b: &Vec<u8>, lo: usize, hi: usize) -> (r: Vec<u8>)
    requires
        lo <= hi <= b@.len(),
    ensures
        r@ == b@.subrange(lo as int, hi as int),
{
    let mut r: Vec<u8> = Vec::new();
    let mut i: usize = lo;
    while i < hi
        invariant
            lo <= i <= hi <= b@.len(),
            r@ == b@.subrange(lo as int, i as int),
        decreases hi - i,
    {
        r.push(b[i]);
        i = i + 1;
        assert(r@ =~= b@.subrange(lo as int, i as int));
    }
    r
}

/// Reads the word that starts at `p`.
fn read_word(b: &Vec<u8>, p: usize) -> (r: Option<(Vec<u8>, usize)>)
    ensures
        r matches Some((w, q)) ==> word_at(b@, p as nat) == Some((w@, q as nat)),
        r is None ==> word_at(b@, p as nat) is None,
{
    match find_line_end(b, p) {
        None => None,
        Some(e) => {
            proof {
                lemma_line_end_bounds(b@, p as nat);
            }
            assert(e + 1 < b.len());
            if p < e && b[p] == DOLLAR {
                match find_line_end(b, e + 2) {
                    None => None,
                    Some(e2) => {
                        proof {
                            lemma_line_end_bounds(b@, (e + 2) as nat);
                        }
                        assert(e2 + 1 < b.len());
                        Some((copy_range(b, e + 2, e2), e2 + 2))
                    },
                }
            } else {
                Some((copy_range(b, p, e), e + 2))
            }
        },
    }
}

pub open spec fn views_of(ws: Seq<Vec<u8>>) -> Seq<Seq<u8>> {
    ws.map_values(|w: Vec<u8>| w@)
}

/// Reads the `n` words that start at `p`.
fn read_words(b: &Vec<u8>, p: usize, n: usize) -> (r: Option<(Vec<Vec<u8>>, usize)>)
    ensures
        r matches Some((ws, q)) ==> words_at(b@, p as nat, n as nat) == Some(
            (views_of(ws@), q as nat),
        ),
        r is None ==> words_at(b@, p as nat, n as nat) is None,
{
    let mut ws: Vec<Vec<u8>> = Vec::new();
    let mut q: usize = p;
    let mut i: usize = 0;
    while i < n
        invariant
            i <= n,
            words_at(b@, p as nat, i as nat) == Some((views_of(ws@), q as nat)),
        decreases n - i,
    {
        match read_word(b, q) {
            None => {
                proof {
                    lemma_words_at_stuck(b@, p as nat, (i + 1) as nat, n as nat);
                }
                return None;
            },
            Some((w, next)) => {
                let ghost old_ws = ws@;
                ws.push(w);
                assert(views_of(ws@) =~= views_of(old_ws).push(w@));
                q = next;
            },
        }
        i = i + 1;
    }
    Some((ws, q))
}

/// The kind of a command, taken from its first word without regard to case.
#[derive(Clone, Copy, Debug, PartialEq, Eq, Structural)]
pub enum ReservedKeys {
    ECHO,
    PING,
    SET,
    GET,
    UNKNOWN,
}

/// ASCII upper case of one byte.
pub open spec fn upper(c: u8) -> u8 {
    if 97 <= c <= 122 {
        (c - 32) as u8
    } else {
        c
    }
}

/// `w` equals the upper-case word `kw` when ASCII case is ignored.
pub open spec fn eq_ignore_case(w: Seq<u8>, kw: Seq<u8>) -> bool {
    w.len() == kw.len() && forall|i: int| 0 <= i < w.len() ==> upper(#[trigger] w[i]) == kw[i]
}

pub open spec fn ping_word() -> Seq<u8> {
    seq![80u8, 73, 78, 71]
}

pub open spec fn echo_word() -> Seq<u8> {
    seq![69u8, 67, 72, 79]
}

pub open spec fn set_word() -> Seq<u8> {
    seq![83u8, 69, 84]
}

pub open spec fn get_word() -> Seq<u8> {
    seq![71u8, 69, 84]
}

pub open spec fn keyword_of(w: Seq<u8>) -> ReservedKeys {
    if eq_ignore_case(w, ping_word()) {
        ReservedKeys::PING
    } else if eq_ignore_case(w, echo_word()) {
        ReservedKeys::ECHO
    } else if eq_ignore_case(w, set_word()) {
        ReservedKeys::SET
    } else if eq_ignore_case(w, get_word()) {
        ReservedKeys::GET
    } else {
        ReservedKeys::UNKNOWN
    }
}

/// Compares `w` with the upper-case word `kw`, ignoring ASCII case.
pub fn matches_ignore_case(w: &Vec<u8>, kw: &Vec<u8>) -> (r: bool)
    ensures
        r == eq_ignore_case(w@, kw@),
{
    if w.len() != kw.len() {
        return false;
    }
    let mut i: usize = 0;
    while i < w.len()
        invariant
            w@.len() == kw@.len(),
            i <= w@.len(),
            forall|j: int| 0 <= j < i ==> upper(#[trigger] w@[j]) == kw@[j],
        decreases w.len() - i,
    {
        let c = w[i];
        let u = if 97 <= c && c <= 122 {
            c - 32
        } else {
            c
        };
        if u != kw[i] {
            return false;
        }
        i = i + 1;
    }
    true
}

/// Finds the keyword named by the word `w`.
pub fn keyword_for(w: &Vec<u8>) -> (r: ReservedKeys)
    ensures
        r == keyword_of(w@),
{
    let ping: Vec<u8> = vec![80u8, 73, 78, 71];
    let echo: Vec<u8> = vec![69u8, 67, 72, 79];
    let set: Vec<u8> = vec![83u8, 69, 84];
    let get: Vec<u8> = vec![71u8, 69, 84];
    assert(ping@ =~= ping_word());
    assert(echo@ =~= echo_word());
    assert(set@ =~= set_word());
    assert(get@ =~= get_word());
    if matches_ignore_case(w, &ping) {
        ReservedKeys::PING
    } else if matches_ignore_case(w, &echo) {
        ReservedKeys::ECHO
    } else if matches_ignore_case(w, &set) {
        ReservedKeys::SET
    } else if matches_ignore_case(w, &get) {
        ReservedKeys::GET
    } else {
        ReservedKeys::UNKNOWN
    }
}

/// A decoded command: its keyword and the words after it.
pub struct CommandModel {
    pub keyword: ReservedKeys,
    pub args: Seq<Seq<u8>>,
}

pub open spec fn command_of(ws: Seq<Seq<u8>>) -> CommandModel {
    if ws.len() == 0 {
        CommandModel { keyword: ReservedKeys::UNKNOWN, args: Seq::empty() }
    } else {
        CommandModel { keyword: keyword_of(ws[0]), args: ws.drop_first() }
    }
}

/// A decoded command: the keyword named by its first word, and the
/// remaining words as arguments, in order.
#[derive(Debug)]
pub struct Command {
    pub keyword: ReservedKeys,
    pub args: Vec<Vec<u8>>,
}

impl View for Command {
    type V = CommandModel;

    open spec fn view(&self) -> CommandModel {
        CommandModel { keyword: self.keyword, args: views_of(self.args@) }
    }
}

pub open spec fn commands_view(cs: Seq<Command>) -> Seq<CommandModel> {
    cs.map_values(|c: Command| c@)
}

/// Turns the words of a frame into a command.
fn command_from_words(ws: Vec<Vec<u8>>) -> (r: Command)
    ensures
        r@ == command_of(views_of(ws@)),
{
    let mut ws = ws;
    if ws.len() == 0 {
        let r = Command { keyword: ReservedKeys::UNKNOWN, args: ws };
        assert(r@.args =~= Seq::<Seq<u8>>::empty());
        r
    } else {
        let ghost all = ws@;
        let first = ws.remove(0);
        let keyword = keyword_for(&first);
        assert(views_of(ws@) =~= views_of(all).drop_first());
        Command { keyword, args: ws }
    }
}

/// Commands decoded from the bytes at `p` on, and where decoding stopped:
/// at the first frame that is not yet whole, or at the end.
pub open spec fn decode_from(b: Seq<u8>, p: nat) -> (Seq<CommandModel>, nat)
    decreases b.len() - p,
{
    match frame_at(b, p) {
        FrameScan::Incomplete => (Seq::empty(), p),
        FrameScan::Skipped { next } => {
            // every scan moves forward (lemma_frame_progress); this guard
            // only makes that visible to the termination proof
            if p < next <= b.len() {
                decode_from(b, next)
            } else {
                (Seq::empty(), p)
            }
        },
        FrameScan::Complete { words, next } => {
            if p < next <= b.len() {
                let (cs, r) = decode_from(b, next);
                (seq![command_of(words)] + cs, r)
            } else {
                (Seq::empty(), p)
            }
        },
    }
}

pub proof fn lemma_frame_progress(b: Seq<u8>, p: nat)
    ensures
        frame_at(b, p) matches FrameScan::Skipped { next } ==> p < next <= b.len(),
        frame_at(b, p) matches FrameScan::Complete { next, .. } ==> p < next <= b.len(),
{
    lemma_line_end_bounds(b, p);
    if let Some(e) = line_end(b, p) {
        if is_count_line(b, p, e) {
            let n = decimal_value(b.subrange(p + 1 as int, e as int));
            lemma_words_at_progress(b, e + 2, n);
        }
    }
}

enum Scanned {
    Incomplete,
    Skipped(usize),
    Complete(Vec<Vec<u8>>, usize),
}

/// Scans the bytes at `p` for one frame.
fn scan_frame(b: &Vec<u8>, p: usize) -> (r: Scanned)
    ensures
        r matches Scanned::Incomplete ==> frame_at(b@, p as nat) == FrameScan::Incomplete,
        r matches Scanned::Skipped(q) ==> frame_at(b@, p as nat) == (FrameScan::Skipped {
            next: q as nat,
        }),
        r matches Scanned::Complete(ws, q) ==> frame_at(b@, p as nat) == (FrameScan::Complete {
            words: views_of(ws@),
            next: q as nat,
        }),
{
    match find_line_end(b, p) {
        None => Scanned::Incomplete,
        Some(e) => {
            proof {
                lemma_line_end_bounds(b@, p as nat);
            }
            assert(e + 1 < b.len());
            if p < e && b[p] == STAR {
                match parse_number(b, p + 1, e) {
                    None => Scanned::Skipped(e + 2),
                    Some(n) => {
                        if n > b.len() as u64 {
                            proof {
                                lemma_words_at_progress(b@, (e + 2) as nat, n as nat);
                            }
                            Scanned::Incomplete
                        } else {
                            match read_words(b, e + 2, n as usize) {
                                None => Scanned::Incomplete,
                                Some((ws, q)) => Scanned::Complete(ws, q),
                            }
                        }
                    },
                }
            } else {
                Scanned::Skipped(e + 2)
            }
        },
    }
}

/// Decodes every whole frame at the front of `buf`, in order. Returns the
/// commands and how many bytes they used; the bytes after that are the
/// start of a frame that has not fully arrived yet (or nothing).
pub fn parse_message(buf: &Vec<u8>) -> (r: (Vec<Command>, usize))
    ensures
        commands_view(r.0@) == decode_from(buf@, 0).0,
        r.1 == decode_from(buf@, 0).1,
        r.1 <= buf@.len(),
{
    let mut cmds: Vec<Command> = Vec::new();
    let mut p: usize = 0;
    loop
        invariant
            p <= buf@.len(),
            decode_from(buf@, 0).0 == commands_view(cmds@) + decode_from(buf@, p as nat).0,
            decode_from(buf@, 0).1 == decode_from(buf@, p as nat).1,
        decreases buf@.len() - p,
    {
        proof {
            lemma_frame_progress(buf@, p as nat);
        }
        match scan_frame(buf, p) {
            Scanned::Incomplete => {
                assert(commands_view(cmds@) + Seq::empty() =~= commands_view(cmds@));
                return (cmds, p);
            },
            Scanned::Skipped(q) => {
                p = q;
            },
            Scanned::Complete(ws, q) => {
                let ghost before = commands_view(cmds@);
                let ghost rest = decode_from(buf@, q as nat).0;
                let c = command_from_words(ws);
                cmds.push(c);
                assert(commands_view(cmds@) =~= before.push(c@));
                assert(before + (seq![c@] + rest) =~= before.push(c@) + rest);
                p = q;
            },
        }
    }
}

proof fn lemma_line_end_prefix(a: Seq<u8>, b: Seq<u8>, p: nat)
    ensures
        line_end(a, p) matches Some(e) ==> line_end(a + b, p) == Some(e),
    decreases a.len() - p,
{
    if p + 1 < a.len() {
        assert(crlf_at(a + b, p as int) == crlf_at(a, p as int));
        if !crlf_at(a, p as int) {
            lemma_line_end_prefix(a, b, p + 1);
        }
    }
}

proof fn lemma_word_at_prefix(a: Seq<u8>, b: Seq<u8>, p: nat)
    ensures
        word_at(a, p) is Some ==> word_at(a + b, p) == word_at(a, p),
{
    let c = a + b;
    lemma_line_end_prefix(a, b, p);
    lemma_line_end_bounds(a, p);
    if let Some(e) = line_end(a, p) {
        assert(c[p as int] == a[p as int]);
        assert(c.subrange(p as int, e as int) =~= a.subrange(p as int, e as int));
        lemma_line_end_prefix(a, b, e + 2);
        lemma_line_end_bounds(a, e + 2);
        if let Some(e2) = line_end(a, e + 2) {
            assert(c.subrange(e + 2 as int, e2 as int) =~= a.subrange(e + 2 as int, e2 as int));
        }
    }
}

proof fn lemma_words_at_prefix(a: Seq<u8>, b: Seq<u8>, p: nat, n: nat)
    ensures
        words_at(a, p, n) is Some ==> words_at(a + b, p, n) == words_at(a, p, n),
    decreases n,
{
    if n > 0 {
        lemma_words_at_prefix(a, b, p, (n - 1) as nat);
        if let Some((ws, q)) = words_at(a, p, (n - 1) as nat) {
            lemma_word_at_prefix(a, b, q);
        }
    }
}

proof fn lemma_frame_at_prefix(a: Seq<u8>, b: Seq<u8>, p: nat)
    ensures
        !(frame_at(a, p) is Incomplete) ==> frame_at(a + b, p) == frame_at(a, p),
{
    let c = a + b;
    lemma_line_end_prefix(a, b, p);
    lemma_line_end_bounds(a, p);
    if let Some(e) = line_end(a, p) {
        assert(c[p as int] == a[p as int]);
        if p < e {
            assert(c.subrange(p + 1 as int, e as int) =~= a.subrange(p + 1 as int, e as int));
            let n = decimal_value(a.subrange(p + 1 as int, e as int));
            lemma_words_at_prefix(a, b, e + 2, n);
        }
    }
}

proof fn lemma_line_end_shift(a: Seq<u8>, b: Seq<u8>, p: nat)
    ensures
        line_end(a + b, a.len() + p) == match line_end(b, p) {
            Some(e) => Some(a.len() + e),
            None => None,
        },
    decreases b.len() - p,
{
    let c = a + b;
    if p + 1 < b.len() {
        assert(crlf_at(c, (a.len() + p) as int) == crlf_at(b, p as int));
        if !crlf_at(b, p as int) {
            lemma_line_end_shift(a, b, p + 1);
            assert(a.len() + p + 1 == a.len() + (p + 1));
        }
    }
}

proof fn lemma_word_at_shift(a: Seq<u8>, b: Seq<u8>, p: nat)
    ensures
        word_at(a + b, a.len() + p) == match word_at(b, p) {
            Some((w, q)) => Some((w, a.len() + q)),
            None => None,
        },
{
    let c = a + b;
    let k = a.len() as int;
    lemma_line_end_shift(a, b, p);
    lemma_line_end_bounds(b, p);
    if let Some(e) = line_end(b, p) {
        assert(c[k + p] == b[p as int]);
        assert(c.subrange(k + p, k + e as int) =~= b.subrange(p as int, e as int));
        lemma_line_end_shift(a, b, e + 2);
        lemma_line_end_bounds(b, e + 2);
        assert(k + e + 2 == k + (e + 2));
        if let Some(e2) = line_end(b, e + 2) {
            assert(c.subrange(k + e + 2, k + e2 as int) =~= b.subrange(e + 2 as int, e2 as int));
        }
    }
}

proof fn lemma_words_at_shift(a: Seq<u8>, b: Seq<u8>, p: nat, n: nat)
    ensures
        words_at(a + b, a.len() + p, n) == match words_at(b, p, n) {
            Some((ws, q)) => Some((ws, a.len() + q)),
            None => None,
        },
    decreases n,
{
    if n > 0 {
        lemma_words_at_shift(a, b, p, (n - 1) as nat);
        if let Some((ws, q)) = words_at(b, p, (n - 1) as nat) {
            lemma_word_at_shift(a, b, q);
        }
    }
}

proof fn lemma_frame_at_shift(a: Seq<u8>, b: Seq<u8>, p: nat)
    ensures
        frame_at(a + b, a.len() + p) == match frame_at(b, p) {
            FrameScan::Incomplete => FrameScan::Incomplete,
            FrameScan::Skipped { next } => FrameScan::Skipped { next: a.len() + next },
            FrameScan::Complete { words, next } => FrameScan::Complete {
                words,
                next: a.len() + next,
            },
        },
{
    let c = a + b;
    let k = a.len() as int;
    lemma_line_end_shift(a, b, p);
    lemma_line_end_bounds(b, p);
    if let Some(e) = line_end(b, p) {
        assert(c[k + p] == b[p as int]);
        if p < e {
            assert(c.subrange(k + p + 1, k + e as int) =~= b.subrange(p + 1 as int, e as int));
            let n = decimal_value(b.subrange(p + 1 as int, e as int));
            lemma_words_at_shift(a, b, e + 2, n);
            assert(k + e + 2 == k + (e + 2));
        }
    }
}

proof fn lemma_decode_shift(a: Seq<u8>, b: Seq<u8>, p: nat)
    ensures
        decode_from(a + b, a.len() + p) == (decode_from(b, p).0, a.len() + decode_from(b, p).1),
    decreases b.len() - p,
{
    lemma_frame_at_shift(a, b, p);
    lemma_frame_progress(b, p);
    match frame_at(b, p) {
        FrameScan::Incomplete => {},
        FrameScan::Skipped { next } => {
            lemma_decode_shift(a, b, next);
        },
        FrameScan::Complete { words, next } => {
            lemma_decode_shift(a, b, next);
        },
    }
}

/// `f` is exactly one whole frame.
pub open spec fn is_whole_frame(f: Seq<u8>) -> bool {
    frame_at(f, 0) matches FrameScan::Complete { next, .. } && next == f.len()
}

/// The command carried by the whole frame `f`.
pub open spec fn frame_command(f: Seq<u8>) -> CommandModel {
    match frame_at(f, 0) {
        FrameScan::Complete { words, .. } => command_of(words),
        _ => command_of(Seq::empty()),
    }
}

/// The frames `fs` sent back to back.
pub open spec fn concat_frames(fs: Seq<Seq<u8>>) -> Seq<u8>
    decreases fs.len(),
{
    if fs.len() == 0 {
        Seq::empty()
    } else {
        fs[0] + concat_frames(fs.drop_first())
    }
}

/// Pipelining: a chunk made of whole frames sent back to back decodes to
/// their commands, one for each frame and in the same order, and uses the
/// whole chunk.
pub proof fn lemma_pipelined_frames(fs: Seq<Seq<u8>>)
    requires
        forall|i: int| 0 <= i < fs.len() ==> is_whole_frame(#[trigger] fs[i]),
    ensures
        decode_from(concat_frames(fs), 0) == (
            fs.map_values(|f: Seq<u8>| frame_command(f)),
            concat_frames(fs).len(),
        ),
    decreases fs.len(),
{
    let cs = fs.map_values(|f: Seq<u8>| frame_command(f));
    if fs.len() == 0 {
        assert(cs =~= Seq::<CommandModel>::empty());
        assert(frame_at(Seq::<u8>::empty(), 0) is Incomplete);
    } else {
        let a = fs[0];
        let rest = fs.drop_first();
        assert forall|i: int| 0 <= i < rest.len() implies is_whole_frame(#[trigger] rest[i]) by {
            assert(rest[i] == fs[i + 1]);
        }
        lemma_pipelined_frames(rest);
        let b = concat_frames(rest);
        assert(is_whole_frame(a));
        lemma_frame_at_prefix(a, b, 0);
        lemma_decode_shift(a, b, 0);
        assert(a.len() + 0 == a.len());
        lemma_frame_progress(a, 0);
        assert(cs =~= seq![frame_command(a)] + rest.map_values(|f: Seq<u8>| frame_command(f)));
    }
}

} // verus!
