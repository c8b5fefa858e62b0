//! Narrowing the list of entries to those that match a filter, and moving the
//! highlighted entry through what is left.

use vstd::prelude::*;
use crate::listing::string_views;
use crate::search::{contains, str_contains};

verus! {

/// The entries of `all` that contain `filter`, in order.
pub open spec fn matching(all: Seq<Seq<char>>, filter: Seq<char>) -> Seq<Seq<char>>
    decreases all.len(),
{
    if all.len() == 0 {
        Seq::empty()
    } else {
        let before = matching(all.drop_last(), filter);
        if contains(all.last(), filter) {
            before.push(all.last())
        } else {
            before
        }
    }
}

/// The first highlighted position from `i` on; 0 when there is none.
pub open spec fn selected_from(sel: Seq<bool>, i: int) -> int
    decreases sel.len() - i,
{
    if i < 0 || i >= sel.len() {
        0
    } else if sel[i] {
        i
    } else {
        selected_from(sel, i + 1)
    }
}

/// The highlighted position: the first one marked, or 0 when none is.
pub open spec fn first_selected(sel: Seq<bool>) -> int {
    selected_from(sel, 0)
}

proof fn lemma_selected_from_bound(sel: Seq<bool>, i: int)
    requires
        0 <= i,
    ensures
        0 <= selected_from(sel, i),
        sel.len() > 0 ==> selected_from(sel, i) < sel.len(),
    decreases sel.len() - i,
{
    if i < sel.len() && !sel[i] {
        lemma_selected_from_bound(sel, i + 1);
    }
}

/// The entries of `all` that contain `filter`, in order.
pub fn filter_items(all: &Vec<String>, filter: &str) -> (r: Vec<String>)
    ensures
        string_views(r@) == matching(string_views(all@), filter@),
{
    let mut r: Vec<String> = Vec::new();
    let mut k: usize = 0;
    while k < all.len()
        invariant
            k <= all.len(),
            string_views(r@) == matching(string_views(all@.take(k as int)), filter@),
        decreases all.len() - k,
    {
        let ghost before = string_views(r@);
        assert(string_views(all@.take(k + 1)).drop_last() =~= string_views(all@.take(k as int)));
        assert(string_views(all@.take(k + 1)).last() == all@[k as int]@);
        if str_contains(all[k].as_str(), filter) {
            r.push(all[k].clone());
            assert(string_views(r@) =~= before.push(all@[k as int]@));
        }
        k = k + 1;
    }
    assert(all@.take(all.len() as int) =~= all@);
    r
}

/// A fresh highlight for `n` entries: the first one.
pub fn initial_selection(n: usize) -> (r: Vec<bool>)
    ensures
        r@ == Seq::new(n as nat, |i: int| i == 0),
{
    let mut r: Vec<bool> = Vec::new();
    let mut k: usize = 0;
    while k < n
        invariant
            k <= n,
            r@ == Seq::new(k as nat, |i: int| i == 0),
        decreases n - k,
    {
        r.push(k == 0);
        k = k + 1;
        assert(r@ =~= Seq::new(k as nat, |i: int| i == 0));
    }
    r
}

/// The highlighted position: the first one marked, or 0 when none is.
pub fn selected_index(sel: &Vec<bool>) -> (r: usize)
    ensures
        r == first_selected(sel@),
{
    let mut i: usize = 0;
    while i < sel.len()
        invariant
            i <= sel.len(),
            first_selected(sel@) == selected_from(sel@, i as int),
        decreases sel.len() - i,
    {
        if sel[i] {
            return i;
        }
        i = i + 1;
    }
    0
}

/// Moves the highlight one entry down, when there is an entry below it.
pub fn select_next(sel: &mut Vec<bool>)
    ensures
        first_selected(old(sel)@) + 1 < old(sel)@.len() ==> final(sel)@ == old(sel)@.update(
            first_selected(old(sel)@),
            false,
        ).update(first_selected(old(sel)@) + 1, true),
        first_selected(old(sel)@) + 1 >= old(sel)@.len() ==> final(sel)@ == old(sel)@,
{
    let i = selected_index(sel);
    if i < sel.len() && sel.len() - i > 1 {
        sel.set(i, false);
        sel.set(i + 1, true);
    }
}

/// Moves the highlight one entry up, when there is an entry above it.
pub fn select_prev(sel: &mut Vec<bool>)
    ensures
        first_selected(old(sel)@) > 0 ==> final(sel)@ == old(sel)@.update(
            first_selected(old(sel)@),
            false,
        ).update(first_selected(old(sel)@) - 1, true),
        first_selected(old(sel)@) <= 0 ==> final(sel)@ == old(sel)@,
{
    let i = selected_index(sel);
    proof {
        lemma_selected_from_bound(sel@, 0);
    }
    if i > 0 {
        sel.set(i, false);
        sel.set(i - 1, true);
    }
}

} // verus!
