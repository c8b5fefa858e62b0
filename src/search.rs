//! Finding a pattern in text.

use vstd::prelude::*;

verus! {

/// Whether `pat` occurs in `s` at position `i`.
pub open spec fn occurs_at(s: Seq<char>, pat: Seq<char>, i: int) -> bool {
    0 <= i && i + pat.len() <= s.len() && s.subrange(i, i + pat.len()) == pat
}

/// The first position from `i` on where `pat` occurs in `s`, or -1.
pub open spec fn find_from(s: Seq<char>, pat: Seq<char>, i: int) -> int
    decreases s.len() + 1 - i,
{
    if i < 0 || i + pat.len() > s.len() {
        -1
    } else if occurs_at(s, pat, i) {
        i
    } else {
        find_from(s, pat, i + 1)
    }
}

/// Whether `pat` occurs in `cs` at `i`.
pub fn matches_at(cs: &Vec<char>, pat: &Vec<char>, i: usize) -> (r: bool)
    requires
        i <= cs.len(),
    ensures
        r == occurs_at(cs@, pat@, i as int),
{
    if pat.len() > cs.len() - i {
        return false;
    }
    let mut k: usize = 0;
    while k < pat.len()
        invariant
            i + pat.len() <= cs.len(),
            k <= pat.len(),
            forall|j: int| 0 <= j < k ==> cs@[i + j] == pat@[j],
        decreases pat.len() - k,
    {
        if cs[i + k] != pat[k] {
            assert(cs@.subrange(i as int, i + pat.len())[k as int] != pat@[k as int]);
            return false;
        }
        k = k + 1;
    }
    assert(cs@.subrange(i as int, i + pat.len()) =~= pat@);
    true
}

/// The first position from `from` on where `pat` occurs in `cs`, if any.
pub fn find_in(cs: &Vec<char>, pat: &Vec<char>, from: usize) -> (r: Option<usize>)
    requires
        from <= cs.len(),
    ensures
        match r {
            Some(p) => {
                &&& p as int == find_from(cs@, pat@, from as int)
                &&& from <= p
                &&& occurs_at(cs@, pat@, p as int)
            },
            None => find_from(cs@, pat@, from as int) == -1,
        },
{
    let mut i: usize = from;
    while i <= cs.len()
        invariant
            from <= i <= cs.len() + 1,
            find_from(cs@, pat@, from as int) == find_from(cs@, pat@, i as int),
        decreases cs.len() + 1 - i,
    {
        if pat.len() > cs.len() - i {
            return None;
        }
        if matches_at(cs, pat, i) {
            return Some(i);
        }
        if i == cs.len() {
            assert(find_from(cs@, pat@, i + 1) == -1);
            return None;
        }
        i = i + 1;
    }
    None
}

/// Whether `pat` occurs somewhere in `s`.
pub open spec fn contains(s: Seq<char>, pat: Seq<char>) -> bool {
    exists|i: int| occurs_at(s, pat, i)
}

/// The first match from `i` on is a match, and none comes before it; with
/// none found there is none from `i` on.
pub proof fn lemma_find_from(s: Seq<char>, pat: Seq<char>, i: int)
    requires
        0 <= i,
    ensures
        find_from(s, pat, i) >= 0 ==> occurs_at(s, pat, find_from(s, pat, i)),
        find_from(s, pat, i) < 0 ==> forall|j: int| i <= j ==> !occurs_at(s, pat, j),
    decreases s.len() + 1 - i,
{
    if i + pat.len() <= s.len() && !occurs_at(s, pat, i) {
        lemma_find_from(s, pat, i + 1);
        assert forall|j: int| i <= j && find_from(s, pat, i) < 0 implies !occurs_at(s, pat, j) by {
            if j > i {
            }
        }
    }
}

/// Whether `pat` occurs somewhere in `s`.
pub fn str_contains(s: &str, pat: &str) -> (r: bool)
    ensures
        r == contains(s@, pat@),
{
    let cs = crate::lines::chars_of(s);
    let ps = crate::lines::chars_of(pat);
    let found = find_in(&cs, &ps, 0);
    proof {
        lemma_find_from(cs@, ps@, 0);
    }
    match found {
        Some(p) => {
            assert(occurs_at(s@, pat@, p as int));
            true
        },
        None => false,
    }
}

} // verus!
