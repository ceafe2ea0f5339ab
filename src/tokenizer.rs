//! Turning raw log lines into events.
//!
//! Two patterns are tried on each line, in order:
//! - a test start: `TEST-START`, then `|` between optional whitespace, then
//!   the test's path, which runs to the end of the line;
//! - a stack frame: `#<index>`, an address of hex digits (optionally after
//!   `0x`), a kind tag `i` or `b`, then `<path>:<line>` up to the first ` (`,
//!   then a parenthesised segment that ends the line.
//!
//! Whitespace (space, tab, CR, LF) may stand between the tokens of either
//! pattern. A line that matches neither, or whose numbers do not parse as
//! `u32`, yields no event.

use vstd::prelude::*;
use vstd::slice::{slice_subrange, slice_to_vec};
use crate::path::{bare_name, file_name_of};

verus! {

pub const SPACE: u8 = 32;
pub const TAB: u8 = 9;
pub const CR: u8 = 13;
pub const LF: u8 = 10;
pub const HASH: u8 = 35;
pub const PIPE: u8 = 124;
pub const COLON: u8 = 58;
pub const OPEN_PAREN: u8 = 40;
pub const CLOSE_PAREN: u8 = 41;
pub const DIGIT_ZERO: u8 = 48;
pub const DIGIT_NINE: u8 = 57;
pub const UPPER_A: u8 = 65;
pub const UPPER_F: u8 = 70;
pub const LOWER_A: u8 = 97;
pub const LOWER_F: u8 = 102;
pub const LOWER_B: u8 = 98;
pub const LOWER_I: u8 = 105;
pub const LOWER_X: u8 = 120;

/// The bytes of `TEST-START`.
pub open spec fn test_start_marker() -> Seq<u8> {
    seq![84u8, 69, 83, 84, 45, 83, 84, 65, 82, 84]
}

fn test_start_marker_bytes() -> (r: Vec<u8>)
    ensures
        r@ == test_start_marker(),
{
    let r: Vec<u8> = vec![84u8, 69, 83, 84, 45, 83, 84, 65, 82, 84];
    assert(r@ =~= test_start_marker());
    r
}

/// A parsed log line.
pub ghost enum Event {
    TestStart(Seq<u8>),
    /// Frame index, full path, bare file name, line number.
    Frame(u32, Seq<u8>, Seq<u8>, u32),
}

/// One event of the log: the start of a test, named by its bare file name,
/// or one frame of a captured stack.
pub enum LogLine {
    TestStart(Vec<u8>),
    /// Frame index, full path, bare file name, line number.
    StackComponent(u32, Vec<u8>, Vec<u8>, u32),
}

impl View for LogLine {
    type V = Event;

    open spec fn view(&self) -> Event {
        match self {
            LogLine::TestStart(n) => Event::TestStart(n@),
            LogLine::StackComponent(i, p, f, l) => Event::Frame(*i, p@, f@, *l),
        }
    }
}

pub open spec fn opt_event(o: Option<LogLine>) -> Option<Event> {
    match o {
        Some(l) => Some(l@),
        None => None,
    }
}

/// Classes of bytes that the patterns skip over.
pub enum ByteClass {
    Space,
    Digit,
    HexDigit,
    NotCloseParen,
}

pub open spec fn is_digit(b: u8) -> bool {
    DIGIT_ZERO <= b <= DIGIT_NINE
}

pub open spec fn in_class(c: ByteClass, b: u8) -> bool {
    match c {
        ByteClass::Space => b == SPACE || b == TAB || b == CR || b == LF,
        ByteClass::Digit => is_digit(b),
        ByteClass::HexDigit => is_digit(b) || (LOWER_A <= b <= LOWER_F) || (UPPER_A <= b
            <= UPPER_F),
        ByteClass::NotCloseParen => b != CLOSE_PAREN,
    }
}

fn byte_in_class(c: &ByteClass, b: u8) -> (r: bool)
    ensures
        r == in_class(*c, b),
{
    match c {
        ByteClass::Space => b == SPACE || b == TAB || b == CR || b == LF,
        ByteClass::Digit => DIGIT_ZERO <= b && b <= DIGIT_NINE,
        ByteClass::HexDigit => (DIGIT_ZERO <= b && b <= DIGIT_NINE) || (LOWER_A <= b && b
            <= LOWER_F) || (UPPER_A <= b && b <= UPPER_F),
        ByteClass::NotCloseParen => b != CLOSE_PAREN,
    }
}

/// The first index at or after `i` whose byte is not in class `c` (or the end).
pub open spec fn span_end(s: Seq<u8>, i: int, c: ByteClass) -> int
    decreases s.len() - i,
{
    if 0 <= i < s.len() && in_class(c, s[i]) {
        span_end(s, i + 1, c)
    } else {
        i
    }
}

fn span(s: &[u8], i: usize, c: ByteClass) -> (r: usize)
    requires
        i <= s@.len(),
    ensures
        r == span_end(s@, i as int, c),
        i <= r <= s@.len(),
{
    let mut j: usize = i;
    while j < s.len() && byte_in_class(&c, s[j])
        invariant
            i <= j <= s@.len(),
            span_end(s@, i as int, c) == span_end(s@, j as int, c),
        decreases s@.len() - j,
    {
        j = j + 1;
    }
    j
}

/// `pat` stands in `s` at index `j`.
pub open spec fn matches_at(s: Seq<u8>, j: int, pat: Seq<u8>) -> bool {
    0 <= j && j + pat.len() <= s.len() && s.subrange(j, j + pat.len()) == pat
}

/// The first index at or after `i` at which `pat` stands in `s`.
pub open spec fn find_from(s: Seq<u8>, pat: Seq<u8>, i: int) -> Option<int>
    decreases s.len() - i,
{
    if i < 0 || i >= s.len() || i + pat.len() > s.len() {
        None
    } else if matches_at(s, i, pat) {
        Some(i)
    } else {
        find_from(s, pat, i + 1)
    }
}

pub proof fn lemma_find_from_bounds(s: Seq<u8>, pat: Seq<u8>, i: int)
    requires
        0 <= i,
        pat.len() > 0,
    ensures
        find_from(s, pat, i) matches Some(j) ==> i <= j && j + pat.len() <= s.len(),
    decreases s.len() - i,
{
    if i + pat.len() <= s.len() && !matches_at(s, i, pat) {
        lemma_find_from_bounds(s, pat, i + 1);
    }
}

pub(crate) fn is_match_at(s: &[u8], j: usize, pat: &[u8]) -> (r: bool)
    ensures
        r == matches_at(s@, j as int, pat@),
{
    let n = s.len();
    if pat.len() > n || j > n - pat.len() {
        return false;
    }
    let mut k: usize = 0;
    while k < pat.len()
        invariant
            k <= pat@.len(),
            n == s@.len(),
            j + pat@.len() <= s@.len(),
            forall|m: int| 0 <= m < k ==> s@[j + m] == pat@[m],
        decreases pat@.len() - k,
    {
        if s[j + k] != pat[k] {
            assert(s@.subrange(j as int, j + pat@.len())[k as int] != pat@[k as int]);
            return false;
        }
        k = k + 1;
    }
    assert(s@.subrange(j as int, j + pat@.len()) =~= pat@);
    true
}

fn find(s: &[u8], pat: &[u8], i: usize) -> (r: Option<usize>)
    requires
        pat@.len() > 0,
    ensures
        r matches Some(j) ==> find_from(s@, pat@, i as int) == Some(j as int),
        r is None ==> find_from(s@, pat@, i as int) is None,
{
    let n = s.len();
    let mut j: usize = i;
    while j <= n && pat.len() <= n - j
        invariant
            i <= j,
            n == s@.len(),
            pat@.len() > 0,
            find_from(s@, pat@, i as int) == find_from(s@, pat@, j as int),
        decreases s@.len() + 1 - j,
    {
        if is_match_at(s, j, pat) {
            return Some(j);
        }
        j = j + 1;
    }
    None
}

/// Every byte of `s` is a decimal digit.
pub open spec fn all_digits(s: Seq<u8>) -> bool {
    forall|k: int| 0 <= k < s.len() ==> is_digit(#[trigger] s[k])
}

/// The number that the decimal digits `s` spell.
pub open spec fn decimal_value(s: Seq<u8>) -> nat
    decreases s.len(),
{
    if s.len() == 0 {
        0
    } else {
        decimal_value(s.drop_last()) * 10 + (s.last() - DIGIT_ZERO) as nat
    }
}

/// `s` read as a decimal `u32`: one or more digits whose value fits.
pub open spec fn spec_parse_u32(s: Seq<u8>) -> Option<u32> {
    if s.len() > 0 && all_digits(s) && decimal_value(s) <= u32::MAX {
        Some(decimal_value(s) as u32)
    } else {
        None
    }
}

proof fn lemma_decimal_prefix(s: Seq<u8>, n: int)
    requires
        0 <= n <= s.len(),
        all_digits(s),
    ensures
        decimal_value(s.subrange(0, n)) <= decimal_value(s),
    decreases s.len(),
{
    if n < s.len() {
        let t = s.drop_last();
        assert(t.subrange(0, n) =~= s.subrange(0, n));
        assert(all_digits(t)) by {
            assert forall|k: int| 0 <= k < t.len() implies is_digit(#[trigger] t[k]) by {
                assert(t[k] == s[k]);
            }
        }
        lemma_decimal_prefix(t, n);
    } else {
        assert(s.subrange(0, n) =~= s);
    }
}

fn parse_u32(s: &[u8], lo: usize, hi: usize) -> (r: Option<u32>)
    requires
        lo <= hi <= s@.len(),
    ensures
        r == spec_parse_u32(s@.subrange(lo as int, hi as int)),
{
    let ghost t = s@.subrange(lo as int, hi as int);
    if lo == hi {
        return None;
    }
    let mut v: u32 = 0;
    let mut i: usize = lo;
    while i < hi
        invariant
            lo <= i <= hi <= s@.len(),
            t == s@.subrange(lo as int, hi as int),
            all_digits(t.subrange(0, i - lo)),
            v as nat == decimal_value(t.subrange(0, i - lo)),
        decreases hi - i,
    {
        let b = s[i];
        if !(DIGIT_ZERO <= b && b <= DIGIT_NINE) {
            assert(t[i - lo] == b);
            return None;
        }
        let d: u32 = (b - DIGIT_ZERO) as u32;
        let ghost p = t.subrange(0, i + 1 - lo);
        assert(p.drop_last() =~= t.subrange(0, i - lo));
        assert(p.last() == b);
        assert(all_digits(p)) by {
            assert forall|k: int| 0 <= k < p.len() implies is_digit(#[trigger] p[k]) by {
                if k < p.len() - 1 {
                    assert(p[k] == t.subrange(0, i - lo)[k]);
                }
            }
        }
        if v > 429496729 || (v == 429496729 && d > 5) {
            assert(decimal_value(p) > u32::MAX);
            proof {
                if all_digits(t) {
                    lemma_decimal_prefix(t, i + 1 - lo);
                }
            }
            return None;
        }
        v = v * 10 + d;
        i = i + 1;
    }
    assert(t.subrange(0, hi - lo) =~= t);
    Some(v)
}

/// The index of the last colon in `s`.
pub open spec fn last_colon(s: Seq<u8>) -> Option<int>
    decreases s.len(),
{
    if s.len() == 0 {
        None
    } else if s.last() == COLON {
        Some(s.len() - 1)
    } else {
        last_colon(s.drop_last())
    }
}

fn find_last_colon(s: &[u8], lo: usize, hi: usize) -> (r: Option<usize>)
    requires
        lo <= hi <= s@.len(),
    ensures
        r matches Some(k) ==> lo <= k < hi && last_colon(s@.subrange(lo as int, hi as int))
            == Some(k - lo),
        r is None ==> last_colon(s@.subrange(lo as int, hi as int)) is None,
{
    let ghost t = s@.subrange(lo as int, hi as int);
    assert(t.subrange(0, hi - lo) =~= t);
    let mut i: usize = hi;
    while i > lo && s[i - 1] != COLON
        invariant
            lo <= i <= hi <= s@.len(),
            t == s@.subrange(lo as int, hi as int),
            last_colon(t) == last_colon(t.subrange(0, i - lo)),
        decreases i,
    {
        assert(t.subrange(0, i - lo).drop_last() =~= t.subrange(0, i - 1 - lo));
        i = i - 1;
    }
    if i > lo {
        assert(t.subrange(0, i - lo).last() == s@[i - 1]);
        Some(i - 1)
    } else {
        assert(t.subrange(0, 0) =~= Seq::<u8>::empty());
        None
    }
}

/// The path that a test-start line names, if the line is one.
pub open spec fn spec_test_start_path(s: Seq<u8>) -> Option<Seq<u8>> {
    match find_from(s, test_start_marker(), 0) {
        None => None,
        Some(j) => {
            let k = span_end(s, j + test_start_marker().len(), ByteClass::Space);
            if 0 <= k < s.len() && s[k] == PIPE {
                let p = span_end(s, k + 1, ByteClass::Space);
                Some(s.subrange(p, s.len() as int))
            } else {
                None
            }
        },
    }
}

/// The event that `<path>:<line>` gives for a frame of index `idx`.
pub open spec fn spec_location(loc: Seq<u8>, idx: u32) -> Option<Event> {
    match last_colon(loc) {
        None => None,
        Some(k) => match spec_parse_u32(loc.subrange(k + 1, loc.len() as int)) {
            None => None,
            Some(line) => Some(
                Event::Frame(idx, loc.subrange(0, k), bare_name(loc.subrange(0, k)), line),
            ),
        },
    }
}

/// The event of a stack-frame line, if the line is one.
pub open spec fn spec_stack_frame(s: Seq<u8>) -> Option<Event> {
    match find_from(s, seq![HASH], 0) {
        None => None,
        Some(h) => {
            let a = span_end(s, h + 1, ByteClass::Space);
            let b = span_end(s, a, ByteClass::Digit);
            match spec_parse_u32(s.subrange(a, b)) {
                None => None,
                Some(idx) => {
                    let c = span_end(s, b, ByteClass::Space);
                    let d0 = if matches_at(s, c, seq![DIGIT_ZERO, LOWER_X]) {
                        c + 2
                    } else {
                        c
                    };
                    let d = span_end(s, d0, ByteClass::Space);
                    let e = span_end(s, d, ByteClass::HexDigit);
                    let f = span_end(s, e, ByteClass::Space);
                    if e == d || f >= s.len() || !(s[f] == LOWER_I || s[f] == LOWER_B) {
                        None
                    } else {
                        let g = span_end(s, f + 1, ByteClass::Space);
                        match find_from(s, seq![SPACE, OPEN_PAREN], g) {
                            None => None,
                            Some(q) => {
                                let t = span_end(s, q + 2, ByteClass::NotCloseParen);
                                if t == q + 2 || t >= s.len() || span_end(
                                    s,
                                    t + 1,
                                    ByteClass::Space,
                                ) != s.len() {
                                    None
                                } else {
                                    spec_location(s.subrange(g, q), idx)
                                }
                            },
                        }
                    }
                },
            }
        },
    }
}

/// The event of one log line: a test start (named by its bare file name) if
/// the line is one, else a stack frame if it is one, else none.
pub open spec fn spec_tokenize(s: Seq<u8>) -> Option<Event> {
    match spec_test_start_path(s) {
        Some(p) => Some(Event::TestStart(bare_name(p))),
        None => spec_stack_frame(s),
    }
}

fn parse_test_start(s: &[u8]) -> (r: Option<Vec<u8>>)
    ensures
        r matches Some(p) ==> spec_test_start_path(s@) == Some(p@),
        r is None ==> spec_test_start_path(s@) is None,
{
    let n = s.len();
    let marker = test_start_marker_bytes();
    match find(s, marker.as_slice(), 0) {
        None => None,
        Some(j) => {
            proof {
                lemma_find_from_bounds(s@, test_start_marker(), 0);
            }
            let k = span(s, j + marker.len(), ByteClass::Space);
            if k < n && s[k] == PIPE {
                let p = span(s, k + 1, ByteClass::Space);
                Some(slice_to_vec(slice_subrange(s, p, n)))
            } else {
                None
            }
        },
    }
}

fn parse_location(s: &[u8], lo: usize, hi: usize, idx: u32) -> (r: Option<LogLine>)
    requires
        lo <= hi <= s@.len(),
    ensures
        opt_event(r) == spec_location(s@.subrange(lo as int, hi as int), idx),
{
    let ghost loc = s@.subrange(lo as int, hi as int);
    match find_last_colon(s, lo, hi) {
        None => None,
        Some(k) => {
            assert(loc.subrange(k + 1 - lo, loc.len() as int) =~= s@.subrange(
                k + 1,
                hi as int,
            ));
            assert(loc.subrange(0, k - lo) =~= s@.subrange(lo as int, k as int));
            match parse_u32(s, k + 1, hi) {
                None => None,
                Some(line) => {
                    let path = slice_subrange(s, lo, k);
                    let name = file_name_of(path);
                    Some(LogLine::StackComponent(idx, slice_to_vec(path), name, line))
                },
            }
        },
    }
}

fn parse_stack_frame(s: &[u8]) -> (r: Option<LogLine>)
    ensures
        opt_event(r) == spec_stack_frame(s@),
{
    let n = s.len();
    let hash: Vec<u8> = vec![HASH];
    assert(hash@ =~= seq![HASH]);
    let h = match find(s, hash.as_slice(), 0) {
        None => {
            return None;
        },
        Some(h) => h,
    };
    proof {
        lemma_find_from_bounds(s@, seq![HASH], 0);
    }
    let a = span(s, h + 1, ByteClass::Space);
    let b = span(s, a, ByteClass::Digit);
    let idx = match parse_u32(s, a, b) {
        None => {
            return None;
        },
        Some(idx) => idx,
    };
    let c = span(s, b, ByteClass::Space);
    let hex_prefix: Vec<u8> = vec![DIGIT_ZERO, LOWER_X];
    assert(hex_prefix@ =~= seq![DIGIT_ZERO, LOWER_X]);
    let d0 = if is_match_at(s, c, hex_prefix.as_slice()) {
        c + 2
    } else {
        c
    };
    let d = span(s, d0, ByteClass::Space);
    let e = span(s, d, ByteClass::HexDigit);
    let f = span(s, e, ByteClass::Space);
    if e == d || f >= s.len() || !(s[f] == LOWER_I || s[f] == LOWER_B) {
        return None;
    }
    let g = span(s, f + 1, ByteClass::Space);
    let open: Vec<u8> = vec![SPACE, OPEN_PAREN];
    assert(open@ =~= seq![SPACE, OPEN_PAREN]);
    let q = match find(s, open.as_slice(), g) {
        None => {
            return None;
        },
        Some(q) => q,
    };
    proof {
        lemma_find_from_bounds(s@, seq![SPACE, OPEN_PAREN], g as int);
    }
    let t = span(s, q + 2, ByteClass::NotCloseParen);
    if t == q + 2 || t >= s.len() {
        return None;
    }
    if span(s, t + 1, ByteClass::Space) != s.len() {
        return None;
    }
    parse_location(s, g, q, idx)
}

/// The event of one log line, if it holds one.
pub fn tokenize_line(line: &[u8]) -> (r: Option<LogLine>)
    ensures
        opt_event(r) == spec_tokenize(line@),
{
    match parse_test_start(line) {
        Some(path) => {
            let name = file_name_of(path.as_slice());
            Some(LogLine::TestStart(name))
        },
        None => parse_stack_frame(line),
    }
}

/// The contents of a source's lines.
pub open spec fn lines_view(lines: Seq<Vec<u8>>) -> Seq<Seq<u8>> {
    lines.map_values(|l: Vec<u8>| l@)
}

/// The events that `lines` hold, in order; lines without one are skipped.
pub open spec fn events_of(lines: Seq<Seq<u8>>) -> Seq<Event>
    decreases lines.len(),
{
    if lines.len() == 0 {
        Seq::empty()
    } else {
        match spec_tokenize(lines[0]) {
            Some(e) => seq![e] + events_of(lines.drop_first()),
            None => events_of(lines.drop_first()),
        }
    }
}

/// A forward-only cursor over the events of one source's lines. Lines are
/// tokenized only as the events are taken.
pub struct Parser {
    lines: Vec<Vec<u8>>,
    pos: usize,
}

impl View for Parser {
    type V = Seq<Event>;

    /// The events not yet taken.
    closed spec fn view(&self) -> Seq<Event> {
        if self.pos <= self.lines@.len() {
            events_of(lines_view(self.lines@).subrange(self.pos as int, self.lines@.len() as int))
        } else {
            Seq::empty()
        }
    }
}

impl Parser {
    /// A cursor at the first event of `lines`.
    pub fn new(lines: Vec<Vec<u8>>) -> (r: Parser)
        ensures
            r@ == events_of(lines_view(lines@)),
    {
        let r = Parser { lines, pos: 0 };
        assert(lines_view(r.lines@).subrange(0, r.lines@.len() as int) =~= lines_view(r.lines@));
        r
    }

    /// Takes the next event, if any is left.
    pub fn next(&mut self) -> (r: Option<LogLine>)
        ensures
            r is None <==> old(self)@.len() == 0,
            r matches Some(l) ==> l@ == old(self)@[0] && final(self)@ == old(self)@.drop_first(),
            r is None ==> final(self)@.len() == 0,
    {
        let n = self.lines.len();
        if self.pos > n {
            return None;
        }
        while self.pos < n
            invariant
                n == self.lines@.len(),
                self.pos <= n,
                self@ == old(self)@,
            decreases n - self.pos,
        {
            let ghost rest = lines_view(self.lines@).subrange(self.pos as int, n as int);
            assert(rest.drop_first() =~= lines_view(self.lines@).subrange(self.pos + 1, n as int));
            assert(rest[0] == self.lines@[self.pos as int]@);
            let ev = tokenize_line(self.lines[self.pos].as_slice());
            self.pos = self.pos + 1;
            if ev.is_some() {
                return ev;
            }
        }
        assert(lines_view(self.lines@).subrange(self.pos as int, n as int).len() == 0);
        None
    }
}

} // verus!
