//! Grouping events by test and classifying each captured stack.
//!
//! A use-site is a frame of index 0 with the frames of nonzero index that
//! follow it. A use-site counts for a test only where one of its frames has a
//! harness-origin path. It is a direct use where its top frame, or a later
//! harness-origin frame, is the test's own file; else an indirect use at its
//! first harness-origin frame. Passing through the shim module marks it.

use vstd::prelude::*;
use crate::order::{direct_key, indirect_key, indirect_views, sort_by_line, sort_direct, sort_indirect};
use crate::tokenizer::{is_match_at, matches_at, Event, LogLine, Parser, opt_event};

verus! {

/// The bytes of `RemoteAddonsParent.jsm`, the compatibility shim module.
pub open spec fn shim_module() -> Seq<u8> {
    seq![82u8, 101, 109, 111, 116, 101, 65, 100, 100, 111, 110, 115, 80, 97, 114, 101, 110, 116, 46, 106, 115, 109]
}

/// The bytes of `chrome://mochitests/`.
pub open spec fn mochitests_prefix() -> Seq<u8> {
    seq![99u8, 104, 114, 111, 109, 101, 58, 47, 47, 109, 111, 99, 104, 105, 116, 101, 115, 116, 115, 47]
}

/// The bytes of `chrome://mochikit/`.
pub open spec fn mochikit_prefix() -> Seq<u8> {
    seq![99u8, 104, 114, 111, 109, 101, 58, 47, 47, 109, 111, 99, 104, 105, 107, 105, 116, 47]
}

/// A path served by the test harness.
pub open spec fn is_test_path(p: Seq<u8>) -> bool {
    matches_at(p, 0, mochitests_prefix()) || matches_at(p, 0, mochikit_prefix())
}

/// Whether `p` is served by the test harness.
pub fn test_path(p: &[u8]) -> (r: bool)
    ensures
        r == is_test_path(p@),
{
    let a: Vec<u8> = vec![99u8, 104, 114, 111, 109, 101, 58, 47, 47, 109, 111, 99, 104, 105, 116, 101, 115, 116, 115, 47];
    assert(a@ =~= mochitests_prefix());
    let b: Vec<u8> = vec![99u8, 104, 114, 111, 109, 101, 58, 47, 47, 109, 111, 99, 104, 105, 107, 105, 116, 47];
    assert(b@ =~= mochikit_prefix());
    is_match_at(p, 0, a.as_slice()) || is_match_at(p, 0, b.as_slice())
}

pub(crate) fn bytes_eq(a: &[u8], b: &[u8]) -> (r: bool)
    ensures
        r == (a@ == b@),
{
    if a.len() != b.len() {
        return false;
    }
    let mut i: usize = 0;
    while i < a.len()
        invariant
            i <= a@.len(),
            a@.len() == b@.len(),
            forall|k: int| 0 <= k < i ==> a@[k] == b@[k],
        decreases a@.len() - i,
    {
        if a[i] != b[i] {
            return false;
        }
        i = i + 1;
    }
    assert(a@ =~= b@);
    true
}

fn is_shim_module(name: &[u8]) -> (r: bool)
    ensures
        r == (name@ == shim_module()),
{
    let m: Vec<u8> = vec![82u8, 101, 109, 111, 116, 101, 65, 100, 100, 111, 110, 115, 80, 97, 114, 101, 110, 116, 46, 106, 115, 109];
    assert(m@ =~= shim_module());
    bytes_eq(name, m.as_slice())
}

pub(crate) fn copy_bytes(a: &[u8]) -> (r: Vec<u8>)
    ensures
        r@ == a@,
{
    vstd::slice::slice_to_vec(a)
}

/// A use at a line of the test's own file.
#[derive(PartialEq, Eq, Structural, Clone, Copy, Debug)]
pub struct CPOW {
    pub line_no: u32,
    pub shim: bool,
}

/// A use that the test reached through other code: the first harness-origin
/// frame of the stack.
#[derive(Debug)]
pub struct IndirectCPOW {
    pub line_no: u32,
    pub shim: bool,
    pub filename: Vec<u8>,
}

pub ghost struct IndirectView {
    pub line_no: u32,
    pub shim: bool,
    pub filename: Seq<u8>,
}

impl View for IndirectCPOW {
    type V = IndirectView;

    open spec fn view(&self) -> IndirectView {
        IndirectView { line_no: self.line_no, shim: self.shim, filename: self.filename@ }
    }
}

/// The outcome of one use-site.
pub enum SomeCPOW {
    CPOW(CPOW),
    Indirect(IndirectCPOW),
}

pub ghost enum Use {
    Direct(CPOW),
    Indirect(IndirectView),
}

impl View for SomeCPOW {
    type V = Use;

    open spec fn view(&self) -> Use {
        match self {
            SomeCPOW::CPOW(c) => Use::Direct(*c),
            SomeCPOW::Indirect(i) => Use::Indirect(i@),
        }
    }
}

/// The uses found for one test.
pub struct Test {
    pub testname: Vec<u8>,
    pub cpows: Vec<CPOW>,
    pub indirect_cpows: Vec<IndirectCPOW>,
}

impl View for Test {
    type V = TestView;

    open spec fn view(&self) -> TestView {
        TestView {
            testname: self.testname@,
            cpows: self.cpows@,
            indirect_cpows: indirect_views(self.indirect_cpows@),
        }
    }
}

pub open spec fn opt_test(o: Option<Test>) -> Option<TestView> {
    match o {
        Some(t) => Some(t@),
        None => None,
    }
}

pub open spec fn tests_view(v: Seq<Test>) -> Seq<TestView> {
    v.map_values(|t: Test| t@)
}

pub open spec fn opt_use(o: Option<SomeCPOW>) -> Option<Use> {
    match o {
        Some(u) => Some(u@),
        None => None,
    }
}

pub open spec fn ev_index(e: Event) -> u32 {
    match e {
        Event::Frame(i, _, _, _) => i,
        Event::TestStart(_) => 0,
    }
}

pub open spec fn ev_path(e: Event) -> Seq<u8> {
    match e {
        Event::Frame(_, p, _, _) => p,
        Event::TestStart(_) => Seq::empty(),
    }
}

pub open spec fn ev_name(e: Event) -> Seq<u8> {
    match e {
        Event::Frame(_, _, f, _) => f,
        Event::TestStart(n) => n,
    }
}

pub open spec fn ev_line(e: Event) -> u32 {
    match e {
        Event::Frame(_, _, _, l) => l,
        Event::TestStart(_) => 0,
    }
}

/// A frame that continues the use-site opened before it.
pub open spec fn is_continuation(e: Event) -> bool {
    e is Frame && ev_index(e) != 0
}

/// The end of the use-site whose continuation frames start at `i`.
pub open spec fn site_end(s: Seq<Event>, i: int) -> int
    decreases s.len() - i,
{
    if 0 <= i < s.len() && is_continuation(s[i]) {
        site_end(s, i + 1)
    } else {
        i
    }
}

pub proof fn lemma_site_end_bounds(s: Seq<Event>, i: int)
    requires
        0 <= i <= s.len(),
    ensures
        i <= site_end(s, i) <= s.len(),
        site_end(s, i) < s.len() ==> !is_continuation(s[site_end(s, i)]),
    decreases s.len() - i,
{
    if i < s.len() && is_continuation(s[i]) {
        lemma_site_end_bounds(s, i + 1);
    }
}

/// The first frame of `site`, from index `i` on, with a harness-origin path.
pub open spec fn first_harness(site: Seq<Event>, i: int) -> Option<Event>
    decreases site.len() - i,
{
    if 0 <= i < site.len() {
        if is_test_path(ev_path(site[i])) {
            Some(site[i])
        } else {
            first_harness(site, i + 1)
        }
    } else {
        None
    }
}

/// The line of the first frame of `site`, from index `i` on, with a
/// harness-origin path in the file named `t`.
pub open spec fn first_direct_line(site: Seq<Event>, t: Seq<u8>, i: int) -> Option<u32>
    decreases site.len() - i,
{
    if 0 <= i < site.len() {
        if is_test_path(ev_path(site[i])) && ev_name(site[i]) == t {
            Some(ev_line(site[i]))
        } else {
            first_direct_line(site, t, i + 1)
        }
    } else {
        None
    }
}

/// Some frame of `site`, from index `i` on, is in the shim module.
pub open spec fn has_shim_from(site: Seq<Event>, i: int) -> bool
    decreases site.len() - i,
{
    if 0 <= i < site.len() {
        ev_name(site[i]) == shim_module() || has_shim_from(site, i + 1)
    } else {
        false
    }
}

/// The line of the direct use in `site`, for the test named `t`: the top
/// frame's where it is in the test's file, else the first later
/// harness-origin frame in the test's file.
pub open spec fn direct_line(site: Seq<Event>, t: Seq<u8>) -> Option<u32> {
    if ev_name(site[0]) == t {
        Some(ev_line(site[0]))
    } else {
        first_direct_line(site, t, 1)
    }
}

/// What the use-site `site` (top frame first) gives for the test named `t`.
pub open spec fn classify(site: Seq<Event>, t: Seq<u8>) -> Option<Use> {
    match first_harness(site, 0) {
        None => None,
        Some(h) => {
            let shim = has_shim_from(site, 0);
            match direct_line(site, t) {
                Some(l) => Some(Use::Direct(CPOW { line_no: l, shim })),
                None => Some(
                    Use::Indirect(
                        IndirectView { line_no: ev_line(h), shim, filename: ev_path(h) },
                    ),
                ),
            }
        },
    }
}

/// The index of the first test start in `s` at or after `i` (or the end).
pub open spec fn test_end(s: Seq<Event>, i: int) -> int
    decreases s.len() - i,
{
    if 0 <= i < s.len() && s[i] is Frame {
        test_end(s, i + 1)
    } else {
        i
    }
}

pub proof fn lemma_test_end_bounds(s: Seq<Event>, i: int)
    requires
        0 <= i <= s.len(),
    ensures
        i <= test_end(s, i) <= s.len(),
        test_end(s, i) < s.len() ==> s[test_end(s, i)] is TestStart,
    decreases s.len() - i,
{
    if i < s.len() && s[i] is Frame {
        lemma_test_end_bounds(s, i + 1);
    }
}

/// A use is kept unless it passed through the shim and shims are left out.
pub open spec fn kept(u: Use, include_shims: bool) -> bool {
    match u {
        Use::Direct(c) => !c.shim || include_shims,
        Use::Indirect(d) => !d.shim || include_shims,
    }
}

/// The direct and indirect uses that the test named `t` keeps from the
/// use-sites of `s` that start at `i`, up to the next test start, in order.
pub open spec fn test_uses(s: Seq<Event>, i: int, t: Seq<u8>, include_shims: bool) -> (
    Seq<CPOW>,
    Seq<IndirectView>,
)
    decreases s.len() - i,
{
    if 0 <= i < s.len() && s[i] is Frame {
        let e = site_end(s, i + 1);
        proof {
            lemma_site_end_bounds(s, i + 1);
        }
        let rest = test_uses(s, e, t, include_shims);
        match classify(s.subrange(i, e), t) {
            Some(Use::Direct(c)) => if !c.shim || include_shims {
                (seq![c] + rest.0, rest.1)
            } else {
                rest
            },
            Some(Use::Indirect(d)) => if !d.shim || include_shims {
                (rest.0, seq![d] + rest.1)
            } else {
                rest
            },
            None => rest,
        }
    } else {
        (Seq::empty(), Seq::empty())
    }
}

/// The uses found for one test, each list ordered by line number.
pub ghost struct TestView {
    pub testname: Seq<u8>,
    pub cpows: Seq<CPOW>,
    pub indirect_cpows: Seq<IndirectView>,
}

/// The report of the test named `t` whose events start at `i` of `s`, where
/// it keeps any use.
pub open spec fn test_report(s: Seq<Event>, i: int, t: Seq<u8>, include_shims: bool) -> Option<
    TestView,
> {
    let u = test_uses(s, i, t, include_shims);
    if u.0.len() == 0 && u.1.len() == 0 {
        None
    } else {
        Some(
            TestView {
                testname: t,
                cpows: sort_by_line(u.0, direct_key()),
                indirect_cpows: sort_by_line(u.1, indirect_key()),
            },
        )
    }
}

/// A break of the event protocol, which ends the processing of a source.
#[derive(PartialEq, Eq, Structural, Clone, Copy, Debug)]
pub enum Desync {
    /// A stack frame came before any test started.
    FrameOutsideTest,
    /// A test's first frame had a nonzero index.
    ContinuationWithoutTop,
}

/// The reports of the tests of `s` from index `i` on, in order, or the
/// protocol break that stops them.
pub open spec fn compile_from(s: Seq<Event>, i: int, include_shims: bool) -> Result<
    Seq<TestView>,
    Desync,
>
    decreases s.len() - i,
{
    if 0 <= i < s.len() {
        match s[i] {
            Event::Frame(..) => Err(Desync::FrameOutsideTest),
            Event::TestStart(name) => if i + 1 < s.len() && is_continuation(s[i + 1]) {
                Err(Desync::ContinuationWithoutTop)
            } else {
                let e = test_end(s, i + 1);
                proof {
                    lemma_test_end_bounds(s, i + 1);
                }
                match compile_from(s, e, include_shims) {
                    Err(d) => Err(d),
                    Ok(rest) => Ok(
                        match test_report(s, i + 1, name, include_shims) {
                            Some(tr) => seq![tr] + rest,
                            None => rest,
                        },
                    ),
                }
            },
        }
    } else {
        Ok(Seq::empty())
    }
}

/// The reports of all tests of the event stream `s`.
pub open spec fn compile(s: Seq<Event>, include_shims: bool) -> Result<Seq<TestView>, Desync> {
    compile_from(s, 0, include_shims)
}

proof fn lemma_site_end_shift(s: Seq<Event>, j: int, m: int)
    requires
        0 <= j <= s.len(),
        0 <= m <= s.len() - j,
    ensures
        site_end(s.subrange(j, s.len() as int), m) + j == site_end(s, j + m),
    decreases s.len() - j - m,
{
    let t = s.subrange(j, s.len() as int);
    if m < t.len() && is_continuation(t[m]) {
        lemma_site_end_shift(s, j, m + 1);
    }
}

proof fn lemma_test_end_shift(s: Seq<Event>, j: int, m: int)
    requires
        0 <= j <= s.len(),
        0 <= m <= s.len() - j,
    ensures
        test_end(s.subrange(j, s.len() as int), m) + j == test_end(s, j + m),
    decreases s.len() - j - m,
{
    let t = s.subrange(j, s.len() as int);
    if m < t.len() && t[m] is Frame {
        lemma_test_end_shift(s, j, m + 1);
    }
}

proof fn lemma_test_uses_shift(s: Seq<Event>, j: int, m: int, t: Seq<u8>, sh: bool)
    requires
        0 <= j <= s.len(),
        0 <= m <= s.len() - j,
    ensures
        test_uses(s.subrange(j, s.len() as int), m, t, sh) == test_uses(s, j + m, t, sh),
    decreases s.len() - j - m,
{
    let u = s.subrange(j, s.len() as int);
    if m < u.len() && u[m] is Frame {
        lemma_site_end_shift(s, j, m + 1);
        lemma_site_end_bounds(u, m + 1);
        let e = site_end(u, m + 1);
        assert(u.subrange(m, e) =~= s.subrange(j + m, j + e));
        lemma_test_uses_shift(s, j, e, t, sh);
    }
}

/// Skipping a use-site leaves the end of the test where it was.
proof fn lemma_test_end_site(s: Seq<Event>, m: int)
    requires
        0 <= m <= s.len(),
    ensures
        test_end(s, m) == test_end(s, site_end(s, m)),
    decreases s.len() - m,
{
    if m < s.len() && is_continuation(s[m]) {
        lemma_test_end_site(s, m + 1);
    }
}

fn at_frame(l: &Option<LogLine>) -> (r: bool)
    ensures
        r == (opt_event(*l) matches Some(e) && e is Frame),
{
    match l {
        Some(LogLine::StackComponent(..)) => true,
        _ => false,
    }
}

fn continuation_frame(l: &Option<LogLine>) -> (r: bool)
    ensures
        r == (opt_event(*l) matches Some(e) && is_continuation(e)),
{
    match l {
        Some(LogLine::StackComponent(i, _, _, _)) => *i != 0,
        _ => false,
    }
}

/// The classification engine over one source's events.
pub struct CPOWFinder {
    parser: Parser,
    cur_line: Option<LogLine>,
    include_shims: bool,
}

impl CPOWFinder {
    /// The event at the cursor, if one was taken.
    pub closed spec fn current(&self) -> Option<Event> {
        opt_event(self.cur_line)
    }

    /// The events after the cursor.
    pub closed spec fn pending(&self) -> Seq<Event> {
        self.parser@
    }

    /// The events from the cursor on.
    pub open spec fn stream(&self) -> Seq<Event> {
        match self.current() {
            Some(e) => seq![e] + self.pending(),
            None => self.pending(),
        }
    }

    pub closed spec fn shims_included(&self) -> bool {
        self.include_shims
    }

    /// Once the cursor is past the end, no event is pending.
    pub open spec fn wf(&self) -> bool {
        self.current() is None ==> self.pending().len() == 0
    }

    /// Moves the cursor to the next event; false where none is left.
    pub fn next_line(&mut self) -> (r: bool)
        ensures
            r == (old(self).pending().len() > 0),
            final(self).stream() == old(self).pending(),
            final(self).current() is Some == r,
            final(self).wf(),
            final(self).shims_included() == old(self).shims_included(),
    {
        let ghost p = self.parser@;
        let l = self.parser.next();
        let r = l.is_some();
        self.cur_line = l;
        proof {
            if r {
                assert(seq![p[0]] + p.drop_first() =~= p);
            }
        }
        r
    }

    /// Classifies the use-site at the cursor for the test named `testname`,
    /// and moves the cursor past it.
    pub fn parse_cpow(&mut self, testname: &[u8]) -> (r: Option<SomeCPOW>)
        requires
            old(self).wf(),
            old(self).current() matches Some(e) && e is Frame && ev_index(e) == 0,
        ensures
            opt_use(r) == classify(
                old(self).stream().subrange(0, site_end(old(self).stream(), 1)),
                testname@,
            ),
            final(self).stream() == old(self).stream().subrange(
                site_end(old(self).stream(), 1),
                old(self).stream().len() as int,
            ),
            final(self).wf(),
            final(self).shims_included() == old(self).shims_included(),
    {
        let ghost s = self.stream();
        let ghost e = site_end(s, 1);
        proof {
            lemma_site_end_bounds(s, 1);
        }
        let ghost site = s.subrange(0, e);
        let mut report: bool = false;
        let mut cand_line: u32 = 0;
        let mut cand_path: Vec<u8> = Vec::new();
        let mut direct: Option<u32> = None;
        let mut shim: bool = false;
        match &self.cur_line {
            Some(LogLine::StackComponent(_, p, f, l)) => {
                assert(site[0] == Event::Frame(0, p@, f@, *l));
                if test_path(p.as_slice()) {
                    report = true;
                    cand_line = *l;
                    cand_path = copy_bytes(p.as_slice());
                }
                if bytes_eq(f.as_slice(), testname) {
                    direct = Some(*l);
                }
                shim = is_shim_module(f.as_slice());
            },
            _ => {},
        }
        assert(self.stream().drop_first() =~= self.pending());
        assert(self.pending() =~= s.subrange(1, s.len() as int));
        self.next_line();
        let ghost mut k: int = 1;
        while continuation_frame(&self.cur_line)
            invariant
                self.wf(),
                1 <= k <= e <= s.len(),
                site == s.subrange(0, e),
                e == site_end(s, k),
                self.stream() == s.subrange(k, s.len() as int),
                self.shims_included() == old(self).shims_included(),
                report ==> (first_harness(site, 0) matches Some(h) && ev_line(h) == cand_line
                    && ev_path(h) == cand_path@),
                !report ==> first_harness(site, 0) == first_harness(site, k),
                direct_line(site, testname@) == (if direct is Some {
                    direct
                } else {
                    first_direct_line(site, testname@, k)
                }),
                has_shim_from(site, 0) == (shim || has_shim_from(site, k)),
            decreases s.len() - k,
        {
            proof {
                let x = self.current()->0;
                assert(self.stream()[0] == x);
                assert(self.stream().len() > 0);
                assert(k < s.len());
                assert(s.subrange(k, s.len() as int)[0] == s[k]);
                assert(is_continuation(s[k]));
                lemma_site_end_bounds(s, k + 1);
                assert(site[k] == s[k]);
                assert(self.stream().drop_first() =~= self.pending());
                assert(self.pending() =~= s.subrange(k + 1, s.len() as int));
            }
            match &self.cur_line {
                Some(LogLine::StackComponent(_, p, f, l)) => {
                    if test_path(p.as_slice()) {
                        if !report {
                            report = true;
                            cand_line = *l;
                            cand_path = copy_bytes(p.as_slice());
                        }
                        if direct.is_none() && bytes_eq(f.as_slice(), testname) {
                            direct = Some(*l);
                        }
                    }
                    if !shim && is_shim_module(f.as_slice()) {
                        shim = true;
                    }
                },
                _ => {},
            }
            self.next_line();
            proof {
                k = k + 1;
            }
        }
        proof {
            if self.current() is Some {
                let x = self.current()->0;
                assert(self.stream()[0] == x);
                assert(self.stream().len() > 0);
                assert(s.subrange(k, s.len() as int)[0] == s[k]);
            } else {
                assert(self.stream().len() == 0);
            }
            assert(k == e);
            assert(first_harness(site, k) is None);
            assert(first_direct_line(site, testname@, k) is None);
            assert(!has_shim_from(site, k));
        }
        if !report {
            None
        } else {
            match direct {
                Some(l) => Some(SomeCPOW::CPOW(CPOW { line_no: l, shim })),
                None => Some(
                    SomeCPOW::Indirect(IndirectCPOW { line_no: cand_line, shim, filename: cand_path }),
                ),
            }
        }
    }

    /// Gathers the uses of the test named `testname`, whose start is at the
    /// cursor, and moves the cursor to the next test start (or the end).
    pub fn parse_test(&mut self, testname: &[u8]) -> (r: Result<Option<Test>, Desync>)
        requires
            old(self).wf(),
            old(self).current() matches Some(e) && e is TestStart,
        ensures
            ({
                let s = old(self).stream();
                &&& r is Err <==> (1 < s.len() && is_continuation(s[1]))
                &&& r matches Err(d) ==> d == Desync::ContinuationWithoutTop
                &&& r matches Ok(o) ==> opt_test(o) == test_report(s, 1, testname@, old(self).shims_included())
                    && final(self).stream() == s.subrange(test_end(s, 1), s.len() as int)
            }),
            final(self).wf(),
            final(self).shims_included() == old(self).shims_included(),
    {
        let ghost s = self.stream();
        let ghost sh = self.shims_included();
        let ghost t = testname@;
        assert(self.stream().drop_first() =~= self.pending());
        assert(self.pending() =~= s.subrange(1, s.len() as int));
        self.next_line();
        if continuation_frame(&self.cur_line) {
            assert(self.stream()[0] == s[1]);
            return Err(Desync::ContinuationWithoutTop);
        }
        proof {
            if 1 < s.len() {
                assert(self.stream()[0] == s[1]);
                assert(self.current() is Some);
            }
            lemma_test_end_bounds(s, 1);
        }
        let mut cpows: Vec<CPOW> = Vec::new();
        let mut indirect_cpows: Vec<IndirectCPOW> = Vec::new();
        let ghost mut j: int = 1;
        assert(cpows@ + test_uses(s, 1, t, sh).0 =~= test_uses(s, 1, t, sh).0);
        assert(indirect_views(indirect_cpows@) + test_uses(s, 1, t, sh).1 =~= test_uses(s, 1, t, sh).1);
        while at_frame(&self.cur_line)
            invariant
                self.wf(),
                1 <= j <= s.len(),
                test_end(s, j) == test_end(s, 1),
                self.stream() == s.subrange(j, s.len() as int),
                self.shims_included() == sh,
                t == testname@,
                j < s.len() ==> !is_continuation(s[j]),
                test_uses(s, 1, t, sh).0 == cpows@ + test_uses(s, j, t, sh).0,
                test_uses(s, 1, t, sh).1 == indirect_views(indirect_cpows@) + test_uses(s, j, t, sh).1,
            decreases s.len() - j,
        {
            let ghost st = self.stream();
            proof {
                assert(st.len() > 0);
                assert(st[0] == s[j]);
                assert(self.current() is Some);
                assert(s[j] is Frame);
                lemma_site_end_shift(s, j, 1);
                lemma_site_end_bounds(s, j + 1);
                lemma_test_end_site(s, j + 1);
            }
            let ghost e = site_end(s, j + 1);
            assert(st.subrange(0, site_end(st, 1)) =~= s.subrange(j, e));
            let ghost rest = test_uses(s, e, t, sh);
            let found = self.parse_cpow(testname);
            assert(self.stream() =~= s.subrange(e, s.len() as int));
            assert(opt_use(found) == classify(st.subrange(0, site_end(st, 1)), t));
            assert(opt_use(found) == classify(s.subrange(j, e), t));
            match found {
                Some(SomeCPOW::CPOW(c)) => {
                    if !c.shim || self.include_shims {
                        cpows.push(c);
                        assert(test_uses(s, j, t, sh).0 =~= seq![c] + rest.0);
                    }
                },
                Some(SomeCPOW::Indirect(d)) => {
                    if !d.shim || self.include_shims {
                        let ghost before = indirect_cpows@;
                        let ghost dv = d@;
                        indirect_cpows.push(d);
                        assert(indirect_views(indirect_cpows@) =~= indirect_views(before).push(dv));
                        assert(test_uses(s, j, t, sh).1 =~= seq![dv] + rest.1);
                    }
                },
                None => {},
            }
            proof {
                j = e;
            }
        }
        proof {
            if self.current() is Some {
                assert(self.stream()[0] == s[j]);
            } else {
                assert(self.stream().len() == 0);
            }
            assert(test_uses(s, j, t, sh).0 =~= Seq::<CPOW>::empty());
            assert(test_uses(s, j, t, sh).1 =~= Seq::<IndirectView>::empty());
            assert(cpows@ + Seq::<CPOW>::empty() =~= cpows@);
            assert(indirect_views(indirect_cpows@) + Seq::<IndirectView>::empty() =~= indirect_views(indirect_cpows@));
            assert(test_end(s, j) == j);
        }
        if cpows.len() == 0 && indirect_cpows.len() == 0 {
            Ok(None)
        } else {
            let sorted = sort_direct(&cpows);
            let sorted_indirect = sort_indirect(indirect_cpows);
            let name = copy_bytes(testname);
            Ok(Some(Test { testname: name, cpows: sorted, indirect_cpows: sorted_indirect }))
        }
    }

    /// The reports of the tests of `parser`'s events, in order, with uses
    /// through the shim left out unless `include_shims`; or the protocol
    /// break that stops the source.
    pub fn compile_cpows(parser: Parser, include_shims: bool) -> (r: Result<Vec<Test>, Desync>)
        ensures
            compile(parser@, include_shims) == (match r {
                Ok(v) => Ok::<Seq<TestView>, Desync>(tests_view(v@)),
                Err(d) => Err(d),
            }),
    {
        let ghost s = parser@;
        let mut finder = CPOWFinder { parser, cur_line: None, include_shims };
        let mut tests: Vec<Test> = Vec::new();
        finder.next_line();
        let ghost mut j: int = 0;
        assert(tests_view(tests@) =~= Seq::<TestView>::empty());
        assert(s.subrange(0, s.len() as int) =~= s);
        while finder.cur_line.is_some()
            invariant
                finder.wf(),
                s == parser@,
                0 <= j <= s.len(),
                finder.stream() == s.subrange(j, s.len() as int),
                finder.shims_included() == include_shims,
                compile_from(s, 0, include_shims) == (match compile_from(s, j, include_shims) {
                    Ok(rest) => Ok(tests_view(tests@) + rest),
                    Err(d) => Err(d),
                }),
            decreases s.len() - j,
        {
            let ghost st = finder.stream();
            proof {
                assert(st.len() > 0);
                assert(st[0] == s[j]);
            }
            let name = match &finder.cur_line {
                Some(LogLine::TestStart(n)) => copy_bytes(n.as_slice()),
                _ => {
                    assert(s[j] is Frame);
                    assert(compile_from(s, j, include_shims) == Err::<Seq<TestView>, Desync>(
                        Desync::FrameOutsideTest,
                    ));
                    assert(compile(s, include_shims) == Err::<Seq<TestView>, Desync>(
                        Desync::FrameOutsideTest,
                    ));
                    return Err(Desync::FrameOutsideTest);
                },
            };
            assert(s[j] == Event::TestStart(name@));
            proof {
                if j + 1 < s.len() {
                    assert(st[1] == s[j + 1]);
                }
                lemma_test_end_shift(s, j, 1);
                lemma_test_uses_shift(s, j, 1, name@, include_shims);
                lemma_test_end_bounds(s, j + 1);
            }
            let ghost e = test_end(s, j + 1);
            match finder.parse_test(name.as_slice()) {
                Err(d) => {
                    assert(is_continuation(s[j + 1]));
                    assert(compile_from(s, j, include_shims) == Err::<Seq<TestView>, Desync>(d));
                    return Err(d);
                },
                Ok(found) => {
                    assert(finder.stream() =~= s.subrange(e, s.len() as int));
                    let ghost before = tests@;
                    let ghost fv = opt_test(found);
                    match found {
                        Some(tr) => {
                            tests.push(tr);
                            assert(tests_view(tests@) =~= tests_view(before).push(tr@));
                        },
                        None => {},
                    }
                    proof {
                        match (compile_from(s, e, include_shims), fv) {
                            (Ok(rest), Some(tv)) => {
                                assert(tests_view(before) + (seq![tv] + rest) =~= tests_view(
                                    before,
                                ).push(tv) + rest);
                            },
                            _ => {},
                        }
                        j = e;
                    }
                },
            }
        }
        proof {
            assert(finder.stream().len() == 0);
            assert(compile_from(s, j, include_shims) == Ok::<Seq<TestView>, Desync>(Seq::empty()));
            assert(tests_view(tests@) + Seq::<TestView>::empty() =~= tests_view(tests@));
        }
        Ok(tests)
    }
}

} // verus!
