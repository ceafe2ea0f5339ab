//! Ordering uses by line number, stable on ties.

use vstd::prelude::*;
use crate::finder::{CPOW, IndirectCPOW, IndirectView};

verus! {

/// The index at which an item of key `k` goes into `s` (sorted by `key`),
/// searching from `i`: after every item whose key is at most `k`.
pub open spec fn insert_pos<T>(s: Seq<T>, key: spec_fn(T) -> u32, k: u32, i: int) -> int
    decreases s.len() - i,
{
    if 0 <= i < s.len() && key(s[i]) <= k {
        insert_pos(s, key, k, i + 1)
    } else {
        i
    }
}

pub proof fn lemma_insert_pos_bounds<T>(s: Seq<T>, key: spec_fn(T) -> u32, k: u32, i: int)
    requires
        0 <= i <= s.len(),
    ensures
        i <= insert_pos(s, key, k, i) <= s.len(),
    decreases s.len() - i,
{
    if i < s.len() && key(s[i]) <= k {
        lemma_insert_pos_bounds(s, key, k, i + 1);
    }
}

/// `s` sorted by `key`, items of equal key in their order in `s`: each item,
/// from first to last, goes in after every item of key at most its own.
pub open spec fn sort_by_line<T>(s: Seq<T>, key: spec_fn(T) -> u32) -> Seq<T>
    decreases s.len(),
{
    if s.len() == 0 {
        s
    } else {
        let r = sort_by_line(s.drop_last(), key);
        r.insert(insert_pos(r, key, key(s.last()), 0), s.last())
    }
}

pub open spec fn direct_key() -> spec_fn(CPOW) -> u32 {
    |c: CPOW| c.line_no
}

pub open spec fn indirect_key() -> spec_fn(IndirectView) -> u32 {
    |c: IndirectView| c.line_no
}

pub open spec fn indirect_views(v: Seq<IndirectCPOW>) -> Seq<IndirectView> {
    v.map_values(|x: IndirectCPOW| x@)
}

/// Direct uses sorted by line number, stable on ties.
pub fn sort_direct(v: &Vec<CPOW>) -> (r: Vec<CPOW>)
    ensures
        r@ == sort_by_line(v@, direct_key()),
{
    let mut out: Vec<CPOW> = Vec::new();
    let mut i: usize = 0;
    assert(v@.subrange(0, 0) =~= Seq::<CPOW>::empty());
    while i < v.len()
        invariant
            i <= v@.len(),
            out@ == sort_by_line(v@.subrange(0, i as int), direct_key()),
        decreases v@.len() - i,
    {
        let x = v[i];
        let mut p: usize = 0;
        while p < out.len() && out[p].line_no <= x.line_no
            invariant
                p <= out@.len(),
                insert_pos(out@, direct_key(), x.line_no, 0) == insert_pos(
                    out@,
                    direct_key(),
                    x.line_no,
                    p as int,
                ),
            decreases out@.len() - p,
        {
            p = p + 1;
        }
        assert(v@.subrange(0, i + 1).drop_last() =~= v@.subrange(0, i as int));
        assert(v@.subrange(0, i + 1).last() == x);
        out.insert(p, x);
        i = i + 1;
    }
    assert(v@.subrange(0, v@.len() as int) =~= v@);
    out
}

/// Indirect uses sorted by line number, stable on ties.
pub fn sort_indirect(v: Vec<IndirectCPOW>) -> (r: Vec<IndirectCPOW>)
    ensures
        indirect_views(r@) == sort_by_line(indirect_views(v@), indirect_key()),
{
    let ghost all = indirect_views(v@);
    let ghost n = v@.len();
    let mut rest = v;
    let mut out: Vec<IndirectCPOW> = Vec::new();
    assert(all.subrange(0, 0) =~= Seq::<IndirectView>::empty());
    assert(indirect_views(out@) =~= Seq::<IndirectView>::empty());
    let ghost mut i: int = 0;
    while rest.len() > 0
        invariant
            0 <= i <= n,
            n == all.len(),
            indirect_views(rest@) == all.subrange(i, n as int),
            indirect_views(out@) == sort_by_line(all.subrange(0, i), indirect_key()),
        decreases n - i,
    {
        assert(indirect_views(rest@).len() == rest@.len());
        assert(i < n);
        assert(indirect_views(rest@)[0] == rest@[0]@);
        let ghost old_rest = rest@;
        let x = rest.remove(0);
        assert forall|k: int| 0 <= k < rest@.len() implies indirect_views(rest@)[k] == all[i + 1
            + k] by {
            assert(rest@[k] == old_rest[k + 1]);
            assert(indirect_views(old_rest)[k + 1] == all.subrange(i, n as int)[k + 1]);
        }
        assert(indirect_views(rest@) =~= all.subrange(i + 1, n as int));
        let mut p: usize = 0;
        while p < out.len() && out[p].line_no <= x.line_no
            invariant
                p <= out@.len(),
                insert_pos(indirect_views(out@), indirect_key(), x.line_no, 0) == insert_pos(
                    indirect_views(out@),
                    indirect_key(),
                    x.line_no,
                    p as int,
                ),
            decreases out@.len() - p,
        {
            assert(indirect_views(out@)[p as int] == out@[p as int]@);
            p = p + 1;
        }
        assert(all.subrange(0, i + 1).drop_last() =~= all.subrange(0, i));
        assert(all.subrange(0, i + 1).last() == x@);
        let ghost before = out@;
        out.insert(p, x);
        assert(indirect_views(out@) =~= indirect_views(before).insert(p as int, x@));
        proof {
            i = i + 1;
        }
    }
    assert(all.subrange(0, n as int) =~= all);
    out
}

} // verus!
