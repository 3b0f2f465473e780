//! Literal prefix matching for group names and member paths.
//!
//! Matching is a plain string-prefix test, deliberately not segment-aware:
//! a root of `/a/b` matches `/a/bc` as well as `/a/b/c.txt`.  Stored data
//! and user expectations depend on this exact behaviour.

use vstd::prelude::*;

verus! {

/// `p` is a literal prefix of `s`.
pub open spec fn is_prefix(p: Seq<char>, s: Seq<char>) -> bool {
    p.len() <= s.len() && s.subrange(0, p.len() as int) == p
}

/// A prefix test is reflexive: every string starts with itself.
pub proof fn lemma_is_prefix_reflexive(s: Seq<char>)
    ensures
        is_prefix(s, s),
{
    assert(s.subrange(0, s.len() as int) =~= s);
}

/// Character-by-character prefix test on string slices.
pub fn str_is_prefix(p: &str, s: &str) -> (r: bool)
    ensures
        r == is_prefix(p@, s@),
{
    let pl = p.unicode_len();
    let sl = s.unicode_len();
    if pl > sl {
        return false;
    }
    let mut i: usize = 0;
    while i < pl
        invariant
            i <= pl,
            pl == p@.len(),
            sl == s@.len(),
            pl <= sl,
            forall|j: int| 0 <= j < i ==> p@[j] == s@[j],
        decreases pl - i,
    {
        if p.get_char(i) != s.get_char(i) {
            proof {
                assert(s@.subrange(0, pl as int)[i as int] == s@[i as int]);
            }
            return false;
        }
        i += 1;
    }
    proof {
        assert(s@.subrange(0, pl as int) =~= p@);
    }
    true
}

/// True iff `sub_file` starts with the literal string `root`
/// (not segment-aware: `/a/b` matches `/a/bc`).
pub fn paths_match(root: &String, sub_file: &String) -> (r: bool)
    ensures
        r == is_prefix(root@, sub_file@),
{
    str_is_prefix(root.as_str(), sub_file.as_str())
}

} // verus!
