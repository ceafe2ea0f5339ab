//! Bare file names of paths.

use vstd::prelude::*;

verus! {

/// The path separator `/`.
pub const SLASH: u8 = 47;

/// Index just past the last `/` of `s`, or 0 where `s` holds none.
pub open spec fn name_start(s: Seq<u8>) -> int
    decreases s.len(),
{
    if s.len() == 0 {
        0
    } else if s.last() == SLASH {
        s.len() as int
    } else {
        name_start(s.drop_last())
    }
}

/// What follows the last `/` of `s`; all of `s` where it holds none.
pub open spec fn bare_name(s: Seq<u8>) -> Seq<u8> {
    s.subrange(name_start(s), s.len() as int)
}

/// The file name of `path`: the text after its last `/`.
pub fn file_name_of(path: &[u8]) -> (r: Vec<u8>)
    ensures
        r@ == bare_name(path@),
{
    let mut i: usize = path.len();
    assert(path@.subrange(0, path@.len() as int) =~= path@);
    while i > 0 && path[i - 1] != SLASH
        invariant
            i <= path@.len(),
            name_start(path@) == name_start(path@.subrange(0, i as int)),
        decreases i,
    {
        assert(path@.subrange(0, i as int).drop_last() =~= path@.subrange(0, i - 1));
        i = i - 1;
    }
    if i > 0 {
        assert(path@.subrange(0, i as int).last() == path@[i - 1]);
    } else {
        assert(path@.subrange(0, 0) =~= Seq::<u8>::empty());
    }
    let mut r: Vec<u8> = Vec::new();
    let mut j: usize = i;
    while j < path.len()
        invariant
            i <= j <= path@.len(),
            name_start(path@) == i,
            r@ == path@.subrange(i as int, j as int),
        decreases path@.len() - j,
    {
        r.push(path[j]);
        j = j + 1;
        assert(r@ =~= path@.subrange(i as int, j as int));
    }
    r
}

} // verus!
