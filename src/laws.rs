//! Properties that hold of the pipeline on every input.

use vstd::prelude::*;
use crate::finder::{
    classify, compile_from, ev_line, ev_name, first_direct_line, first_harness,
    has_shim_from, is_continuation, lemma_site_end_bounds, lemma_test_end_bounds, shim_module,
    site_end, test_end, test_report, test_uses, TestView, Use,
};
use crate::order::{direct_key, indirect_key, lemma_insert_pos_bounds, sort_by_line};
use crate::report::{
    direct_uses_in, indirect_uses_in, lemma_lex_irreflexive, lemma_lex_total, lemma_lex_trans,
    lemma_merged_all_sorted, lex_lt, merged, merged_all, place, sorted_by_name,
    uses_in,
};
use crate::tokenizer::Event;

verus! {

/// The number of uses over all reports is the number of direct uses plus
/// the number of indirect uses.
pub proof fn lemma_use_count(v: Seq<TestView>)
    ensures
        uses_in(v) == direct_uses_in(v) + indirect_uses_in(v),
    decreases v.len(),
{
    if v.len() > 0 {
        lemma_use_count(v.drop_last());
    }
}

/// Of a use-site that touches harness-origin code, and where no frame below
/// the top is a harness-origin frame of the test's own file (unless the top
/// frame is one of its file too), the outcome is a direct use exactly when
/// the top frame's file is the test's own, and then at the top frame's line.
pub proof fn lemma_direct_iff_top_frame(site: Seq<Event>, t: Seq<u8>)
    requires
        site.len() > 0,
        first_harness(site, 0) is Some,
        ev_name(site[0]) != t ==> first_direct_line(site, t, 1) is None,
    ensures
        (classify(site, t) matches Some(Use::Direct(c))) <==> ev_name(site[0]) == t,
        classify(site, t) matches Some(Use::Direct(c)) ==> c.line_no == ev_line(site[0]),
{
}

proof fn lemma_shim_found(site: Seq<Event>, i: int, k: int)
    requires
        0 <= i <= k < site.len(),
        ev_name(site[k]) == shim_module(),
    ensures
        has_shim_from(site, i),
    decreases k - i,
{
    if i < k {
        lemma_shim_found(site, i + 1, k);
    }
}

/// A use-site with a frame in the shim module gives a use marked as shimmed,
/// whichever outcome it gives.
pub proof fn lemma_shim_marks_use(site: Seq<Event>, t: Seq<u8>, k: int)
    requires
        site.len() > 0,
        0 <= k < site.len(),
        ev_name(site[k]) == shim_module(),
    ensures
        classify(site, t) matches Some(Use::Direct(c)) ==> c.shim,
        classify(site, t) matches Some(Use::Indirect(d)) ==> d.shim,
{
    lemma_shim_found(site, 0, k);
}

proof fn lemma_sort_members<T>(s: Seq<T>, key: spec_fn(T) -> u32, x: T)
    requires
        sort_by_line(s, key).contains(x),
    ensures
        s.contains(x),
    decreases s.len(),
{
    if s.len() > 0 {
        let r = sort_by_line(s.drop_last(), key);
        let p = insert_pos_of(r, key, s.last());
        lemma_insert_pos_bounds(r, key, key(s.last()), 0);
        let j = choose|j: int| 0 <= j < sort_by_line(s, key).len() && sort_by_line(s, key)[j] == x;
        if x != s.last() {
            if j < p {
                assert(r[j] == x);
            } else {
                assert(r[j - 1] == x);
            }
            lemma_sort_members(s.drop_last(), key, x);
            let m = choose|m: int| 0 <= m < s.drop_last().len() && s.drop_last()[m] == x;
            assert(s[m] == x);
        } else {
            assert(s[s.len() - 1] == x);
        }
    }
}

spec fn insert_pos_of<T>(r: Seq<T>, key: spec_fn(T) -> u32, x: T) -> int {
    crate::order::insert_pos(r, key, key(x), 0)
}

proof fn lemma_uses_unshimmed(s: Seq<Event>, i: int, t: Seq<u8>)
    requires
        0 <= i <= s.len(),
    ensures
        forall|k: int|
            0 <= k < test_uses(s, i, t, false).0.len() ==> !(#[trigger] test_uses(
                s,
                i,
                t,
                false,
            ).0[k]).shim,
        forall|k: int|
            0 <= k < test_uses(s, i, t, false).1.len() ==> !(#[trigger] test_uses(
                s,
                i,
                t,
                false,
            ).1[k]).shim,
    decreases s.len() - i,
{
    if i < s.len() && s[i] is Frame {
        lemma_site_end_bounds(s, i + 1);
        let e = site_end(s, i + 1);
        lemma_uses_unshimmed(s, e, t);
        let rest = test_uses(s, e, t, false);
        let u = test_uses(s, i, t, false);
        match classify(s.subrange(i, e), t) {
            Some(Use::Direct(c)) => {
                if !c.shim {
                    assert forall|k: int| 0 <= k < u.0.len() implies !(#[trigger] u.0[k]).shim by {
                        if k > 0 {
                            assert(u.0[k] == rest.0[k - 1]);
                        }
                    }
                }
            },
            Some(Use::Indirect(d)) => {
                if !d.shim {
                    assert forall|k: int| 0 <= k < u.1.len() implies !(#[trigger] u.1[k]).shim by {
                        if k > 0 {
                            assert(u.1[k] == rest.1[k - 1]);
                        }
                    }
                }
            },
            None => {},
        }
    }
}

/// With shims left out, no reported use, direct or indirect, is marked as
/// shimmed.
pub proof fn lemma_shims_left_out(s: Seq<Event>, i: int)
    requires
        0 <= i <= s.len(),
    ensures
        compile_from(s, i, false) matches Ok(v) ==> forall|n: int, k: int|
            0 <= n < v.len() && 0 <= k < v[n].cpows.len() ==> !(#[trigger] v[n].cpows[k]).shim,
        compile_from(s, i, false) matches Ok(v) ==> forall|n: int, k: int|
            0 <= n < v.len() && 0 <= k < v[n].indirect_cpows.len()
                ==> !(#[trigger] v[n].indirect_cpows[k]).shim,
    decreases s.len() - i,
{
    if i < s.len() {
        if let Event::TestStart(name) = s[i] {
            if !(i + 1 < s.len() && is_continuation(s[i + 1])) {
                lemma_test_end_bounds(s, i + 1);
                let e = test_end(s, i + 1);
                lemma_shims_left_out(s, e);
                lemma_uses_unshimmed(s, i + 1, name);
                let u = test_uses(s, i + 1, name, false);
                if let Some(tr) = test_report(s, i + 1, name, false) {
                    assert forall|k: int| 0 <= k < tr.cpows.len() implies !(
                    #[trigger] tr.cpows[k]).shim by {
                        assert(sort_by_line(u.0, direct_key()).contains(tr.cpows[k]));
                        lemma_sort_members(u.0, direct_key(), tr.cpows[k]);
                    }
                    assert forall|k: int| 0 <= k < tr.indirect_cpows.len() implies !(
                    #[trigger] tr.indirect_cpows[k]).shim by {
                        assert(sort_by_line(u.1, indirect_key()).contains(tr.indirect_cpows[k]));
                        lemma_sort_members(u.1, indirect_key(), tr.indirect_cpows[k]);
                    }
                    if let Ok(rest) = compile_from(s, e, false) {
                        let v = seq![tr] + rest;
                        assert forall|n: int| 0 < n < v.len() implies v[n] == rest[n - 1] by {}
                    }
                }
            }
        }
    }
}

/// Merging a report of another name keeps every report held, and the merged
/// report is held after.
proof fn lemma_merge_keeps(v: Seq<TestView>, t: TestView)
    ensures
        merged(v, t).contains(t),
        forall|x: TestView| v.contains(x) && x.testname != t.testname ==> #[trigger] merged(
            v,
            t,
        ).contains(x),
{
    let p = place(v, t.testname, 0);
    crate::report::lemma_place_bounds(v, t.testname, 0);
    let w = merged(v, t);
    assert(w[p] == t);
    assert forall|x: TestView| v.contains(x) && x.testname != t.testname implies #[trigger] w.contains(
        x,
    ) by {
        let i = choose|i: int| 0 <= i < v.len() && v[i] == x;
        if p < v.len() && v[p].testname == t.testname {
            assert(w[i] == x);
        } else if i < p {
            assert(w[i] == x);
        } else {
            assert(w[i + 1] == x);
        }
    }
}

/// `x` is the last report of its name in `ts`.
pub open spec fn last_of_name(ts: Seq<TestView>, x: TestView) -> bool {
    exists|j: int|
        0 <= j < ts.len() && ts[j] == x && forall|m: int|
            j < m < ts.len() ==> (#[trigger] ts[m]).testname != x.testname
}

/// No report of `ts` is named `k`.
pub open spec fn name_absent(ts: Seq<TestView>, k: Seq<u8>) -> bool {
    forall|j: int| 0 <= j < ts.len() ==> (#[trigger] ts[j]).testname != k
}

proof fn lemma_merged_members(v: Seq<TestView>, t: TestView, x: TestView)
    requires
        sorted_by_name(v),
    ensures
        merged(v, t).contains(x) <==> (x == t || (v.contains(x) && x.testname != t.testname)),
{
    lemma_merge_keeps(v, t);
    let p = place(v, t.testname, 0);
    crate::report::lemma_place_bounds(v, t.testname, 0);
    crate::report::lemma_place_facts(v, t.testname, 0);
    let w = merged(v, t);
    if w.contains(x) && x != t {
        let i = choose|i: int| 0 <= i < w.len() && w[i] == x;
        if p < v.len() && v[p].testname == t.testname {
            assert(i != p);
            assert(v[i] == x);
            if i < p {
                assert(lex_lt(v[i].testname, v[p].testname));
            } else {
                assert(lex_lt(v[p].testname, v[i].testname));
            }
            lemma_lex_irreflexive(t.testname);
        } else {
            lemma_lex_irreflexive(t.testname);
            if p < v.len() {
                lemma_lex_total(v[p].testname, t.testname);
            }
            if i < p {
                assert(v[i] == x);
                assert(lex_lt(v[i].testname, t.testname));
            } else {
                assert(i > p);
                assert(v[i - 1] == x);
                if i - 1 > p {
                    assert(lex_lt(v[p].testname, v[i - 1].testname));
                    lemma_lex_trans(t.testname, v[p].testname, v[i - 1].testname);
                }
            }
        }
    }
}

proof fn lemma_all_members(v: Seq<TestView>, ts: Seq<TestView>, x: TestView)
    requires
        sorted_by_name(v),
    ensures
        merged_all(v, ts).contains(x) <==> (last_of_name(ts, x) || (v.contains(x) && name_absent(
            ts,
            x.testname,
        ))),
    decreases ts.len(),
{
    if ts.len() == 0 {
    } else {
        let front = ts.drop_last();
        let t = ts.last();
        let n = ts.len() - 1;
        lemma_all_members(v, front, x);
        lemma_merged_all_sorted(v, front);
        lemma_merged_members(merged_all(v, front), t, x);
        if x == t {
            assert(forall|m: int| n < m < ts.len() ==> (#[trigger] ts[m]).testname != x.testname);
            assert(last_of_name(ts, x));
        } else {
            if last_of_name(ts, x) {
                let j = choose|j: int|
                    0 <= j < ts.len() && ts[j] == x && forall|m: int|
                        j < m < ts.len() ==> (#[trigger] ts[m]).testname != x.testname;
                assert(j != n);
                assert(ts[n].testname != x.testname);
                assert(front[j] == x);
                assert forall|m: int| j < m < front.len() implies (
                #[trigger] front[m]).testname != x.testname by {
                    assert(front[m] == ts[m]);
                }
                assert(last_of_name(front, x));
            }
            if last_of_name(front, x) && x.testname != t.testname {
                let j = choose|j: int|
                    0 <= j < front.len() && front[j] == x && forall|m: int|
                        j < m < front.len() ==> (#[trigger] front[m]).testname != x.testname;
                assert(ts[j] == x);
                assert forall|m: int| j < m < ts.len() implies (#[trigger] ts[m]).testname
                    != x.testname by {
                    if m < n {
                        assert(front[m] == ts[m]);
                    }
                }
                assert(last_of_name(ts, x));
            }
            if name_absent(ts, x.testname) {
                assert forall|j: int| 0 <= j < front.len() implies (
                #[trigger] front[j]).testname != x.testname by {
                    assert(front[j] == ts[j]);
                }
                assert(ts[n].testname != x.testname);
            }
            if name_absent(front, x.testname) && t.testname != x.testname {
                assert forall|j: int| 0 <= j < ts.len() implies (#[trigger] ts[j]).testname
                    != x.testname by {
                    if j < n {
                        assert(front[j] == ts[j]);
                    }
                }
            }
            if last_of_name(front, x) && x.testname == t.testname {
                assert(!last_of_name(ts, x)) by {
                    if last_of_name(ts, x) {
                        let j = choose|j: int|
                            0 <= j < ts.len() && ts[j] == x && forall|m: int|
                                j < m < ts.len() ==> (#[trigger] ts[m]).testname != x.testname;
                        assert(j != n);
                        assert(ts[n].testname != x.testname);
                    }
                }
            }
        }
    }
}

proof fn lemma_sorted_ext(a: Seq<TestView>, b: Seq<TestView>)
    requires
        sorted_by_name(a),
        sorted_by_name(b),
        forall|x: TestView| a.contains(x) <==> b.contains(x),
    ensures
        a == b,
    decreases a.len(),
{
    if a.len() == 0 {
        if b.len() > 0 {
            assert(b.contains(b[0]));
        }
        assert(a =~= b);
    } else {
        assert(a.contains(a[0]));
        let j = choose|j: int| 0 <= j < b.len() && b[j] == a[0];
        assert(b.contains(b[0]));
        let i = choose|i: int| 0 <= i < a.len() && a[i] == b[0];
        if j > 0 {
            assert(lex_lt(b[0].testname, b[j].testname));
            if i > 0 {
                assert(lex_lt(a[0].testname, a[i].testname));
                lemma_lex_trans(a[0].testname, b[0].testname, a[0].testname);
            }
            lemma_lex_irreflexive(a[0].testname);
        }
        assert(b[0] == a[0]);
        let a1 = a.drop_first();
        let b1 = b.drop_first();
        assert forall|x: TestView| a1.contains(x) <==> b1.contains(x) by {
            if a1.contains(x) {
                let k = choose|k: int| 0 <= k < a1.len() && a1[k] == x;
                assert(a[k + 1] == x);
                assert(lex_lt(a[0].testname, x.testname));
                lemma_lex_irreflexive(x.testname);
                assert(b.contains(x));
                let m = choose|m: int| 0 <= m < b.len() && b[m] == x;
                assert(m != 0);
                assert(b1[m - 1] == x);
            }
            if b1.contains(x) {
                let k = choose|k: int| 0 <= k < b1.len() && b1[k] == x;
                assert(b[k + 1] == x);
                assert(lex_lt(b[0].testname, x.testname));
                lemma_lex_irreflexive(x.testname);
                assert(a.contains(x));
                let m = choose|m: int| 0 <= m < a.len() && a[m] == x;
                assert(m != 0);
                assert(a1[m - 1] == x);
            }
        }
        assert(sorted_by_name(a1)) by {
            assert forall|i: int, j: int| 0 <= i < j < a1.len() implies lex_lt(
                #[trigger] a1[i].testname,
                #[trigger] a1[j].testname,
            ) by {
                assert(a1[i] == a[i + 1] && a1[j] == a[j + 1]);
            }
        }
        assert(sorted_by_name(b1)) by {
            assert forall|i: int, j: int| 0 <= i < j < b1.len() implies lex_lt(
                #[trigger] b1[i].testname,
                #[trigger] b1[j].testname,
            ) by {
                assert(b1[i] == b[i + 1] && b1[j] == b[j + 1]);
            }
        }
        lemma_sorted_ext(a1, b1);
        assert(a =~= seq![a[0]] + a1);
        assert(b =~= seq![b[0]] + b1);
    }
}

/// Adding the reports of one source a second time leaves the reports as
/// adding them once did.
pub proof fn lemma_rerun_idempotent(v: Seq<TestView>, ts: Seq<TestView>)
    requires
        sorted_by_name(v),
    ensures
        merged_all(merged_all(v, ts), ts) == merged_all(v, ts),
{
    let once = merged_all(v, ts);
    lemma_merged_all_sorted(v, ts);
    lemma_merged_all_sorted(once, ts);
    assert forall|x: TestView| merged_all(once, ts).contains(x) <==> once.contains(x) by {
        lemma_all_members(once, ts, x);
        lemma_all_members(v, ts, x);
        if last_of_name(ts, x) {
            let j = choose|j: int|
                0 <= j < ts.len() && ts[j] == x && forall|m: int|
                    j < m < ts.len() ==> (#[trigger] ts[m]).testname != x.testname;
            assert(ts[j].testname == x.testname);
        }
    }
    lemma_sorted_ext(merged_all(once, ts), once);
}

} // verus!
