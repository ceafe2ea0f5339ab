//! Assembling the reports of all sources.
//!
//! The reports are kept by test name, ordered by the names' bytes; a later
//! report for a name replaces the earlier one.

use vstd::prelude::*;
use crate::finder::{bytes_eq, tests_view, IndirectCPOW, Test, TestView, CPOW};
use crate::order::indirect_views;

verus! {

/// `a` comes before `b` in byte-wise lexicographic order.
pub open spec fn lex_lt(a: Seq<u8>, b: Seq<u8>) -> bool
    decreases a.len(),
{
    if a.len() == 0 {
        b.len() > 0
    } else if b.len() == 0 {
        false
    } else if a[0] != b[0] {
        a[0] < b[0]
    } else {
        lex_lt(a.drop_first(), b.drop_first())
    }
}

fn lex_less(a: &[u8], b: &[u8]) -> (r: bool)
    ensures
        r == lex_lt(a@, b@),
{
    let mut i: usize = 0;
    assert(a@.subrange(0, a@.len() as int) =~= a@);
    assert(b@.subrange(0, b@.len() as int) =~= b@);
    while i < a.len() && i < b.len() && a[i] == b[i]
        invariant
            i <= a@.len(),
            i <= b@.len(),
            lex_lt(a@, b@) == lex_lt(
                a@.subrange(i as int, a@.len() as int),
                b@.subrange(i as int, b@.len() as int),
            ),
        decreases a@.len() - i,
    {
        assert(a@.subrange(i as int, a@.len() as int).drop_first() =~= a@.subrange(
            i + 1,
            a@.len() as int,
        ));
        assert(b@.subrange(i as int, b@.len() as int).drop_first() =~= b@.subrange(
            i + 1,
            b@.len() as int,
        ));
        i = i + 1;
    }
    if i == a.len() {
        i < b.len()
    } else if i == b.len() {
        false
    } else {
        assert(a@.subrange(i as int, a@.len() as int)[0] == a@[i as int]);
        assert(b@.subrange(i as int, b@.len() as int)[0] == b@[i as int]);
        a[i] < b[i]
    }
}

/// Where a report named `name` goes in `v`, searching from `i`: after every
/// report whose name comes before it.
pub open spec fn place(v: Seq<TestView>, name: Seq<u8>, i: int) -> int
    decreases v.len() - i,
{
    if 0 <= i < v.len() && lex_lt(v[i].testname, name) {
        place(v, name, i + 1)
    } else {
        i
    }
}

pub proof fn lemma_place_bounds(v: Seq<TestView>, name: Seq<u8>, i: int)
    requires
        0 <= i <= v.len(),
    ensures
        i <= place(v, name, i) <= v.len(),
    decreases v.len() - i,
{
    if i < v.len() && lex_lt(v[i].testname, name) {
        lemma_place_bounds(v, name, i + 1);
    }
}

/// `v` with the report `t`: it replaces the report of the same name, or
/// goes in at its place by name.
pub open spec fn merged(v: Seq<TestView>, t: TestView) -> Seq<TestView> {
    let p = place(v, t.testname, 0);
    if p < v.len() && v[p].testname == t.testname {
        v.update(p, t)
    } else {
        v.insert(p, t)
    }
}

/// `v` with the reports `ts`, merged in order.
pub open spec fn merged_all(v: Seq<TestView>, ts: Seq<TestView>) -> Seq<TestView>
    decreases ts.len(),
{
    if ts.len() == 0 {
        v
    } else {
        merged(merged_all(v, ts.drop_last()), ts.last())
    }
}

/// The number of uses, direct and indirect, over all reports of `v`.
pub open spec fn uses_in(v: Seq<TestView>) -> nat
    decreases v.len(),
{
    if v.len() == 0 {
        0
    } else {
        uses_in(v.drop_last()) + v.last().cpows.len() + v.last().indirect_cpows.len()
    }
}

/// The number of direct uses over all reports of `v`.
pub open spec fn direct_uses_in(v: Seq<TestView>) -> nat
    decreases v.len(),
{
    if v.len() == 0 {
        0
    } else {
        direct_uses_in(v.drop_last()) + v.last().cpows.len()
    }
}

/// The number of indirect uses over all reports of `v`.
pub open spec fn indirect_uses_in(v: Seq<TestView>) -> nat
    decreases v.len(),
{
    if v.len() == 0 {
        0
    } else {
        indirect_uses_in(v.drop_last()) + v.last().indirect_cpows.len()
    }
}

pub proof fn lemma_lex_irreflexive(a: Seq<u8>)
    ensures
        !lex_lt(a, a),
    decreases a.len(),
{
    if a.len() > 0 {
        lemma_lex_irreflexive(a.drop_first());
    }
}

pub proof fn lemma_lex_total(a: Seq<u8>, b: Seq<u8>)
    ensures
        a == b || lex_lt(a, b) || lex_lt(b, a),
    decreases a.len(),
{
    if a.len() > 0 && b.len() > 0 && a[0] == b[0] {
        lemma_lex_total(a.drop_first(), b.drop_first());
        if a.drop_first() == b.drop_first() {
            assert(a =~= seq![a[0]] + a.drop_first());
            assert(b =~= seq![b[0]] + b.drop_first());
        }
    } else if a.len() == 0 && b.len() == 0 {
        assert(a =~= b);
    }
}

pub proof fn lemma_lex_trans(a: Seq<u8>, b: Seq<u8>, c: Seq<u8>)
    requires
        lex_lt(a, b),
        lex_lt(b, c),
    ensures
        lex_lt(a, c),
    decreases a.len(),
{
    if a.len() > 0 && b.len() > 0 && c.len() > 0 && a[0] == b[0] && b[0] == c[0] {
        lemma_lex_trans(a.drop_first(), b.drop_first(), c.drop_first());
    }
}

/// The reports of `v` are ordered strictly by test name, so no name occurs
/// twice.
pub open spec fn sorted_by_name(v: Seq<TestView>) -> bool {
    forall|i: int, j: int| 0 <= i < j < v.len() ==> lex_lt(#[trigger] v[i].testname, #[trigger] v[j].testname)
}

pub proof fn lemma_place_facts(v: Seq<TestView>, name: Seq<u8>, i: int)
    requires
        0 <= i <= v.len(),
    ensures
        forall|k: int| i <= k < place(v, name, i) ==> lex_lt(#[trigger] v[k].testname, name),
        place(v, name, i) < v.len() ==> !lex_lt(v[place(v, name, i)].testname, name),
    decreases v.len() - i,
{
    if i < v.len() && lex_lt(v[i].testname, name) {
        lemma_place_facts(v, name, i + 1);
    }
}

/// Merging a report into reports ordered by name keeps them ordered.
pub proof fn lemma_merged_sorted(v: Seq<TestView>, t: TestView)
    requires
        sorted_by_name(v),
    ensures
        sorted_by_name(merged(v, t)),
{
    let p = place(v, t.testname, 0);
    lemma_place_bounds(v, t.testname, 0);
    lemma_place_facts(v, t.testname, 0);
    let w = merged(v, t);
    if p < v.len() && v[p].testname == t.testname {
        assert forall|i: int, j: int| 0 <= i < j < w.len() implies lex_lt(
            #[trigger] w[i].testname,
            #[trigger] w[j].testname,
        ) by {
            assert(w[i].testname == v[i].testname);
            assert(w[j].testname == v[j].testname);
        }
    } else {
        if p < v.len() {
            lemma_lex_total(v[p].testname, t.testname);
        }
        assert forall|i: int, j: int| 0 <= i < j < w.len() implies lex_lt(
            #[trigger] w[i].testname,
            #[trigger] w[j].testname,
        ) by {
            if j < p {
                assert(w[i] == v[i] && w[j] == v[j]);
            } else if j == p {
                assert(w[i] == v[i]);
            } else if i < p {
                assert(w[i] == v[i] && w[j] == v[j - 1]);
                assert(lex_lt(v[i].testname, t.testname));
                if j - 1 > p {
                    assert(lex_lt(v[p].testname, v[j - 1].testname));
                    lemma_lex_trans(t.testname, v[p].testname, v[j - 1].testname);
                }
                lemma_lex_trans(v[i].testname, t.testname, v[j - 1].testname);
            } else if i == p {
                assert(w[j] == v[j - 1]);
                if j - 1 > p {
                    assert(lex_lt(v[p].testname, v[j - 1].testname));
                    lemma_lex_trans(t.testname, v[p].testname, v[j - 1].testname);
                }
            } else {
                assert(w[i] == v[i - 1] && w[j] == v[j - 1]);
            }
        }
    }
}

/// Merging reports into reports ordered by name keeps them ordered.
pub proof fn lemma_merged_all_sorted(v: Seq<TestView>, ts: Seq<TestView>)
    requires
        sorted_by_name(v),
    ensures
        sorted_by_name(merged_all(v, ts)),
    decreases ts.len(),
{
    if ts.len() > 0 {
        lemma_merged_all_sorted(v, ts.drop_last());
        lemma_merged_sorted(merged_all(v, ts.drop_last()), ts.last());
    }
}

/// The reports of all sources processed so far, one per test name.
pub struct Report {
    tests: Vec<Test>,
}

impl View for Report {
    type V = Seq<TestView>;

    closed spec fn view(&self) -> Seq<TestView> {
        tests_view(self.tests@)
    }
}

impl Report {
    /// A report of no tests.
    pub fn new() -> (r: Report)
        ensures
            r@ == Seq::<TestView>::empty(),
            sorted_by_name(r@),
    {
        let r = Report { tests: Vec::new() };
        assert(r@ =~= Seq::<TestView>::empty());
        r
    }

    /// Adds the report of one test, replacing one of the same name.
    pub fn add_test(&mut self, t: Test)
        requires
            sorted_by_name(old(self)@),
        ensures
            final(self)@ == merged(old(self)@, t@),
            sorted_by_name(final(self)@),
    {
        proof {
            lemma_merged_sorted(self@, t@);
        }
        let ghost v = self@;
        let ghost tv = t@;
        let n = self.tests.len();
        let mut p: usize = 0;
        while p < n && lex_less(self.tests[p].testname.as_slice(), t.testname.as_slice())
            invariant
                n == self.tests@.len(),
                v == tests_view(self.tests@),
                tv == t@,
                p <= n,
                place(v, tv.testname, 0) == place(v, tv.testname, p as int),
            decreases n - p,
        {
            assert(v[p as int] == self.tests@[p as int]@);
            p = p + 1;
        }
        proof {
            if p < n {
                assert(v[p as int] == self.tests@[p as int]@);
            }
        }
        if p < n && bytes_eq(self.tests[p].testname.as_slice(), t.testname.as_slice()) {
            self.tests.set(p, t);
            assert(tests_view(self.tests@) =~= v.update(p as int, tv));
        } else {
            self.tests.insert(p, t);
            assert(tests_view(self.tests@) =~= v.insert(p as int, tv));
        }
    }

    /// Adds the reports of one source, in order.
    pub fn add_source(&mut self, tests: Vec<Test>)
        requires
            sorted_by_name(old(self)@),
        ensures
            final(self)@ == merged_all(old(self)@, tests_view(tests@)),
            sorted_by_name(final(self)@),
    {
        let ghost v = self@;
        let ghost all = tests_view(tests@);
        let mut rest = tests;
        let ghost mut i: int = 0;
        let ghost n = all.len();
        assert(all.subrange(0, 0) =~= Seq::<TestView>::empty());
        assert(tests_view(rest@) =~= all.subrange(0, n as int));
        while rest.len() > 0
            invariant
                0 <= i <= n,
                n == all.len(),
                tests_view(rest@) == all.subrange(i, n as int),
                self@ == merged_all(v, all.subrange(0, i)),
                sorted_by_name(v),
            decreases n - i,
        {
            assert(tests_view(rest@).len() == rest@.len());
            assert(tests_view(rest@)[0] == rest@[0]@);
            let ghost old_rest = rest@;
            let t = rest.remove(0);
            assert forall|k: int| 0 <= k < rest@.len() implies tests_view(rest@)[k] == all[i + 1
                + k] by {
                assert(rest@[k] == old_rest[k + 1]);
                assert(tests_view(old_rest)[k + 1] == all.subrange(i, n as int)[k + 1]);
            }
            assert(tests_view(rest@) =~= all.subrange(i + 1, n as int));
            assert(all.subrange(0, i + 1).drop_last() =~= all.subrange(0, i));
            assert(all.subrange(0, i + 1).last() == t@);
            proof {
                lemma_merged_all_sorted(v, all.subrange(0, i));
            }
            self.add_test(t);
            proof {
                i = i + 1;
            }
        }
        assert(all.subrange(0, n as int) =~= all);
        proof {
            lemma_merged_all_sorted(v, all);
        }
    }

    /// The reports, ordered by test name.
    pub fn tests(&self) -> (r: &Vec<Test>)
        ensures
            tests_view(r@) == self@,
    {
        &self.tests
    }

    /// The number of tests reported.
    pub fn test_count(&self) -> (r: usize)
        ensures
            r == self@.len(),
    {
        self.tests.len()
    }

    /// The number of uses, direct and indirect, over all tests (at most
    /// `u64::MAX`).
    pub fn total_uses(&self) -> (r: u64)
        ensures
            r == (if uses_in(self@) <= u64::MAX {
                uses_in(self@)
            } else {
                u64::MAX as nat
            }),
    {
        let ghost v = self@;
        let mut total: u64 = 0;
        let mut i: usize = 0;
        assert(v.subrange(0, 0) =~= Seq::<TestView>::empty());
        while i < self.tests.len()
            invariant
                v == tests_view(self.tests@),
                i <= v.len(),
                total == (if uses_in(v.subrange(0, i as int)) <= u64::MAX {
                    uses_in(v.subrange(0, i as int))
                } else {
                    u64::MAX as nat
                }),
            decreases v.len() - i,
        {
            let t = &self.tests[i];
            assert(v[i as int] == t@);
            assert(v.subrange(0, i + 1).drop_last() =~= v.subrange(0, i as int));
            assert(indirect_views(t.indirect_cpows@).len() == t.indirect_cpows@.len());
            let d = t.cpows.len() as u64;
            let k = t.indirect_cpows.len() as u64;
            total = total.saturating_add(d).saturating_add(k);
            i = i + 1;
        }
        assert(v.subrange(0, v.len() as int) =~= v);
        total
    }
}

/// The values of `v` with each run of equal neighbours collapsed to one.
pub open spec fn dedup(v: Seq<u32>) -> Seq<u32>
    decreases v.len(),
{
    if v.len() <= 1 {
        v
    } else if v[v.len() - 2] == v.last() {
        dedup(v.drop_last())
    } else {
        dedup(v.drop_last()).push(v.last())
    }
}

proof fn lemma_dedup_last(v: Seq<u32>)
    requires
        v.len() > 0,
    ensures
        dedup(v).len() > 0,
        dedup(v).last() == v.last(),
    decreases v.len(),
{
    if v.len() > 1 && v[v.len() - 2] == v.last() {
        lemma_dedup_last(v.drop_last());
    }
}

/// The line numbers of the direct uses in `v` whose shim mark is `shim`.
pub open spec fn lines_marked(v: Seq<CPOW>, shim: bool) -> Seq<u32>
    decreases v.len(),
{
    if v.len() == 0 {
        Seq::empty()
    } else if v.last().shim == shim {
        lines_marked(v.drop_last(), shim).push(v.last().line_no)
    } else {
        lines_marked(v.drop_last(), shim)
    }
}

/// The line numbers of the direct uses in `cpows` marked `shim`, with runs
/// of one line number collapsed.
pub fn direct_lines(cpows: &Vec<CPOW>, shim: bool) -> (r: Vec<u32>)
    ensures
        r@ == dedup(lines_marked(cpows@, shim)),
{
    let mut out: Vec<u32> = Vec::new();
    let mut i: usize = 0;
    assert(cpows@.subrange(0, 0) =~= Seq::<CPOW>::empty());
    while i < cpows.len()
        invariant
            i <= cpows@.len(),
            out@ == dedup(lines_marked(cpows@.subrange(0, i as int), shim)),
        decreases cpows@.len() - i,
    {
        let c = cpows[i];
        let ghost pre = lines_marked(cpows@.subrange(0, i as int), shim);
        assert(cpows@.subrange(0, i + 1).drop_last() =~= cpows@.subrange(0, i as int));
        assert(cpows@.subrange(0, i + 1).last() == c);
        if c.shim == shim {
            let ghost l = pre.push(c.line_no);
            assert(l.drop_last() =~= pre);
            proof {
                if pre.len() > 0 {
                    lemma_dedup_last(pre);
                }
            }
            if out.len() == 0 || out[out.len() - 1] != c.line_no {
                out.push(c.line_no);
            }
        }
        i = i + 1;
    }
    assert(cpows@.subrange(0, cpows@.len() as int) =~= cpows@);
    out
}

/// Which indirect uses of `v` are shown: each whose line number differs
/// from the one before it.
pub fn shown_indirect(v: &Vec<IndirectCPOW>) -> (r: Vec<bool>)
    ensures
        r@.len() == v@.len(),
        forall|i: int|
            0 <= i < v@.len() ==> #[trigger] r@[i] == (i == 0 || v@[i - 1].line_no
                != v@[i].line_no),
{
    let mut out: Vec<bool> = Vec::new();
    let mut i: usize = 0;
    while i < v.len()
        invariant
            i <= v@.len(),
            out@.len() == i,
            forall|k: int|
                0 <= k < i ==> #[trigger] out@[k] == (k == 0 || v@[k - 1].line_no
                    != v@[k].line_no),
        decreases v@.len() - i,
    {
        let shown = i == 0 || v[i - 1].line_no != v[i].line_no;
        out.push(shown);
        i = i + 1;
    }
    out
}

} // verus!
