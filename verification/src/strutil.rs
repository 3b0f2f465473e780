//! String-searching primitives shared by the store, the codec and the
//! selection layer: substring occurrence, leftmost find, splitting on a
//! separator token and joining with one, together with the lemmas that make
//! splitting invert joining.

use vstd::prelude::*;

verus! {

/// The pattern `pat` occurs in `s` at position `i`.
pub open spec fn occurs_at(s: Seq<char>, pat: Seq<char>, i: int) -> bool {
    0 <= i && i + pat.len() <= s.len() && s.subrange(i, i + pat.len() as int) == pat
}

/// Index of the leftmost occurrence of `pat` in `s` at or after `i`,
/// or `-1` when there is none.
pub open spec fn find_from(s: Seq<char>, pat: Seq<char>, i: int) -> int
    decreases s.len() - i + 1,
{
    if i + pat.len() > s.len() {
        -1
    } else if occurs_at(s, pat, i) {
        i
    } else {
        find_from(s, pat, i + 1)
    }
}

/// What `find_from` returns: either `-1` and no occurrence exists at or after
/// `i`, or the position of the leftmost occurrence at or after `i`.
pub proof fn lemma_find_from_props(s: Seq<char>, pat: Seq<char>, i: int)
    requires
        0 <= i,
    ensures
        find_from(s, pat, i) == -1 ==> forall|j: int| i <= j ==> !occurs_at(s, pat, j),
        find_from(s, pat, i) >= 0 ==> {
            &&& i <= find_from(s, pat, i)
            &&& occurs_at(s, pat, find_from(s, pat, i))
            &&& forall|j: int| i <= j < find_from(s, pat, i) ==> !occurs_at(s, pat, j)
        },
    decreases s.len() - i + 1,
{
    if i + pat.len() > s.len() {
        assert forall|j: int| i <= j implies !occurs_at(s, pat, j) by {
            assert(j + pat.len() > s.len());
        }
    } else if occurs_at(s, pat, i) {
    } else {
        lemma_find_from_props(s, pat, i + 1);
    }
}

/// `find_from` returns exactly the position of a known leftmost occurrence.
pub proof fn lemma_find_from_found(s: Seq<char>, pat: Seq<char>, i: int, k: int)
    requires
        0 <= i <= k,
        occurs_at(s, pat, k),
        forall|j: int| i <= j < k ==> !occurs_at(s, pat, j),
    ensures
        find_from(s, pat, i) == k,
    decreases k - i,
{
    if i < k {
        lemma_find_from_found(s, pat, i + 1, k);
    }
}

/// `find_from` returns `-1` when no occurrence exists at or after `i`.
pub proof fn lemma_find_from_none(s: Seq<char>, pat: Seq<char>, i: int)
    requires
        0 <= i,
        forall|j: int| i <= j ==> !occurs_at(s, pat, j),
    ensures
        find_from(s, pat, i) == -1,
    decreases s.len() - i + 1,
{
    if i + pat.len() <= s.len() {
        lemma_find_from_none(s, pat, i + 1);
    }
}

/// An occurrence wholly inside a prefix of a longer string is an occurrence
/// in both, and conversely.
pub proof fn lemma_occurs_in_prefix(a: Seq<char>, b: Seq<char>, pat: Seq<char>, i: int)
    requires
        0 <= i,
        i + pat.len() <= a.len(),
    ensures
        occurs_at(a + b, pat, i) <==> occurs_at(a, pat, i),
{
    assert((a + b).subrange(i, i + pat.len() as int) =~= a.subrange(i, i + pat.len() as int));
}

/// Fragments of `s`, split at each leftmost occurrence of `pat`, scanning
/// left to right without overlap; `s` itself when `pat` never occurs.
pub open spec fn split_by(s: Seq<char>, pat: Seq<char>) -> Seq<Seq<char>>
    decreases s.len(),
{
    if pat.len() == 0 {
        seq![s]
    } else {
        let p = find_from(s, pat, 0);
        if p < 0 || p + pat.len() > s.len() {
            seq![s]
        } else {
            seq![s.subrange(0, p)] + split_by(s.subrange(p + pat.len() as int, s.len() as int), pat)
        }
    }
}

/// `parts` concatenated with `sep` between consecutive elements.
pub open spec fn join_with(parts: Seq<Seq<char>>, sep: Seq<char>) -> Seq<char>
    decreases parts.len(),
{
    if parts.len() == 0 {
        Seq::empty()
    } else if parts.len() == 1 {
        parts[0]
    } else {
        parts[0] + sep + join_with(parts.drop_first(), sep)
    }
}

/// Joining one more part on the right.
pub proof fn lemma_join_with_push(parts: Seq<Seq<char>>, sep: Seq<char>, part: Seq<char>)
    ensures
        parts.len() == 0 ==> join_with(parts.push(part), sep) == part,
        parts.len() > 0 ==> join_with(parts.push(part), sep) == join_with(parts, sep) + sep
            + part,
    decreases parts.len(),
{
    let whole = parts.push(part);
    if parts.len() == 0 {
        assert(whole[0] =~= part);
        assert(whole.len() == 1);
    } else if parts.len() == 1 {
        assert(whole.len() == 2);
        assert(whole.drop_first() =~= seq![part]);
        assert(join_with(seq![part], sep) == part);
        assert(whole[0] == parts[0]);
        assert(join_with(whole, sep) == whole[0] + sep + join_with(whole.drop_first(), sep));
    } else {
        assert(whole.drop_first() =~= parts.drop_first().push(part));
        lemma_join_with_push(parts.drop_first(), sep, part);
        assert(join_with(parts.drop_first().push(part), sep) == join_with(
            parts.drop_first(),
            sep,
        ) + sep + part);
        assert((parts[0] + sep + (join_with(parts.drop_first(), sep) + sep + part)) =~= (parts[0]
            + sep + join_with(parts.drop_first(), sep)) + sep + part);
    }
}

/// `part` neither contains `pat` nor ends with a fragment that completes
/// into `pat` once `pat` itself follows.  This is what keeps a part from
/// disturbing the leftmost-scan that recovers it after joining.
pub open spec fn token_clean(part: Seq<char>, pat: Seq<char>) -> bool {
    forall|i: int| 0 <= i < part.len() ==> !occurs_at(part + pat, pat, i)
}

/// A clean part contains no occurrence of the pattern at all.
pub proof fn lemma_token_clean_no_occurrence(part: Seq<char>, pat: Seq<char>)
    requires
        token_clean(part, pat),
        pat.len() > 0,
    ensures
        forall|i: int| !occurs_at(part, pat, i),
{
    assert forall|i: int| !occurs_at(part, pat, i) by {
        if occurs_at(part, pat, i) {
            lemma_occurs_in_prefix(part, pat, pat, i);
            assert(occurs_at(part + pat, pat, i));
            assert(i < part.len());
        }
    }
}

/// For a single-character pattern, cleanness is exactly "does not contain
/// the character".
pub proof fn lemma_token_clean_single(part: Seq<char>, c: char)
    requires
        forall|i: int| 0 <= i < part.len() ==> part[i] != c,
    ensures
        token_clean(part, seq![c]),
{
    let pat = seq![c];
    assert forall|i: int| 0 <= i < part.len() implies !occurs_at(part + pat, pat, i) by {
        if occurs_at(part + pat, pat, i) {
            assert((part + pat).subrange(i, i + 1)[0] == (part + pat)[i]);
            assert((part + pat)[i] == part[i]);
            assert(pat[0] == c);
        }
    }
}

/// Splitting inverts joining: when every part is clean for the separator,
/// splitting the joined string recovers exactly the parts.
pub proof fn lemma_split_join(parts: Seq<Seq<char>>, sep: Seq<char>)
    requires
        parts.len() >= 1,
        sep.len() > 0,
        forall|k: int| 0 <= k < parts.len() ==> token_clean(#[trigger] parts[k], sep),
    ensures
        split_by(join_with(parts, sep), sep) == parts,
    decreases parts.len(),
{
    if parts.len() == 1 {
        let p0 = parts[0];
        lemma_token_clean_no_occurrence(p0, sep);
        lemma_find_from_none(p0, sep, 0);
        assert(split_by(p0, sep) =~= seq![p0]);
        assert(parts =~= seq![p0]);
    } else {
        let p0 = parts[0];
        let rest = join_with(parts.drop_first(), sep);
        let s = join_with(parts, sep);
        assert(s == p0 + sep + rest);
        // the planted separator occurs right after the first part
        assert(s.subrange(p0.len() as int, p0.len() + sep.len() as int) =~= sep);
        assert(occurs_at(s, sep, p0.len() as int));
        // and nothing earlier is an occurrence, because the first part is clean
        assert forall|j: int| 0 <= j < p0.len() implies !occurs_at(s, sep, j) by {
            if occurs_at(s, sep, j) {
                assert((p0 + sep + rest) =~= (p0 + sep) + rest);
                lemma_occurs_in_prefix(p0 + sep, rest, sep, j);
                assert(occurs_at(p0 + sep, sep, j));
            }
        }
        lemma_find_from_found(s, sep, 0, p0.len() as int);
        assert(s.subrange(0, p0.len() as int) =~= p0);
        assert(s.subrange(p0.len() + sep.len() as int, s.len() as int) =~= rest);
        assert forall|k: int| 0 <= k < parts.drop_first().len() implies token_clean(
            #[trigger] parts.drop_first()[k],
            sep,
        ) by {
            assert(parts.drop_first()[k] == parts[k + 1]);
        }
        lemma_split_join(parts.drop_first(), sep);
        assert(split_by(s, sep) =~= seq![p0] + split_by(rest, sep));
        assert(seq![p0] + parts.drop_first() =~= parts);
    }
}

/// Character-by-character test that `pat` occurs in `s` at position `i`.
pub fn match_at(s: &str, pat: &str, i: usize, pl: usize) -> (r: bool)
    requires
        pl == pat@.len(),
        i + pl <= s@.len(),
        i + pl <= usize::MAX,
    ensures
        r == occurs_at(s@, pat@, i as int),
{
    let mut j: usize = 0;
    while j < pl
        invariant
            j <= pl,
            pl == pat@.len(),
            i + pl <= s@.len(),
            i + pl <= usize::MAX,
            forall|m: int| 0 <= m < j ==> s@[i + m] == pat@[m],
        decreases pl - j,
    {
        if s.get_char(i + j) != pat.get_char(j) {
            proof {
                assert(s@.subrange(i as int, i + pl as int)[j as int] == s@[i + j]);
            }
            return false;
        }
        j += 1;
    }
    proof {
        assert(s@.subrange(i as int, i + pl as int) =~= pat@);
    }
    true
}

/// Leftmost occurrence of `pat` in `s` at or after `from`, by linear scan.
pub fn find_sub(s: &str, pat: &str, from: usize) -> (r: Option<usize>)
    ensures
        ({
            let f = find_from(s@, pat@, from as int);
            match r {
                Some(k) => f == k as int && occurs_at(s@, pat@, k as int),
                None => f == -1,
            }
        }),
{
    let sl = s.unicode_len();
    let pl = pat.unicode_len();
    if pl > sl || from > sl - pl {
        proof {
            assert forall|j: int| from <= j implies !occurs_at(s@, pat@, j) by {
                if occurs_at(s@, pat@, j) {
                    assert(j + pl <= sl);
                }
            }
            lemma_find_from_none(s@, pat@, from as int);
        }
        return None;
    }
    if pl == 0 {
        proof {
            assert(s@.subrange(from as int, from as int) =~= pat@);
            lemma_find_from_found(s@, pat@, from as int, from as int);
        }
        return Some(from);
    }
    let mut i: usize = from;
    while i <= sl - pl
        invariant
            from <= i,
            1 <= pl <= sl,
            sl == s@.len(),
            pl == pat@.len(),
            forall|j: int| from <= j < i ==> !occurs_at(s@, pat@, j),
        decreases sl - i,
    {
        if match_at(s, pat, i, pl) {
            proof {
                lemma_find_from_found(s@, pat@, from as int, i as int);
            }
            return Some(i);
        }
        i += 1;
    }
    proof {
        assert forall|j: int| from <= j implies !occurs_at(s@, pat@, j) by {
            if occurs_at(s@, pat@, j) {
                assert(j + pl <= sl);
            }
        }
        lemma_find_from_none(s@, pat@, from as int);
    }
    None
}

} // verus!
