//! Splitting text into lines.

use vstd::prelude::*;

verus! {

broadcast use vstd::string::group_string_axioms;

/// The pieces of `s` between line feeds, in order; there is always one more
/// piece than there are line feeds.
pub open spec fn newline_pieces(s: Seq<char>) -> Seq<Seq<char>>
    decreases s.len(),
{
    if s.len() == 0 {
        seq![Seq::empty()]
    } else {
        let pieces = newline_pieces(s.drop_last());
        if s.last() == '\n' {
            pieces.push(Seq::empty())
        } else {
            pieces.update(pieces.len() - 1, pieces.last().push(s.last()))
        }
    }
}

/// A line that ended with a line feed loses the carriage return before it.
pub open spec fn without_carriage_return(p: Seq<char>) -> Seq<char> {
    if p.len() > 0 && p.last() == '\r' {
        p.drop_last()
    } else {
        p
    }
}

/// The lines of `s`: split at each line feed, a carriage return before the
/// line feed dropped, and no empty last line after a final line feed.
pub open spec fn text_lines(s: Seq<char>) -> Seq<Seq<char>> {
    let pieces = newline_pieces(s);
    let ended = pieces.drop_last().map_values(|p: Seq<char>| without_carriage_return(p));
    if pieces.last().len() == 0 {
        ended
    } else {
        ended.push(pieces.last())
    }
}

/// Each range picks its line out of `cs`.
pub open spec fn ranges_select(
    cs: Seq<char>,
    ranges: Seq<(usize, usize)>,
    lines: Seq<Seq<char>>,
) -> bool {
    &&& ranges.len() == lines.len()
    &&& forall|k: int|
        0 <= k < ranges.len() ==> {
            &&& (#[trigger] ranges[k]).0 <= ranges[k].1 <= cs.len()
            &&& cs.subrange(ranges[k].0 as int, ranges[k].1 as int) == lines[k]
        }
}

/// Where each line of `cs` starts and ends.
pub fn line_ranges(cs: &Vec<char>) -> (r: Vec<(usize, usize)>)
    ensures
        ranges_select(cs@, r@, text_lines(cs@)),
{
    let mut r: Vec<(usize, usize)> = Vec::new();
    let mut start: usize = 0;
    let mut i: usize = 0;
    while i < cs.len()
        invariant
            start <= i <= cs.len(),
            newline_pieces(cs@.take(i as int)).len() == r.len() + 1,
            newline_pieces(cs@.take(i as int)).last() == cs@.subrange(start as int, i as int),
            ranges_select(
                cs@,
                r@,
                newline_pieces(cs@.take(i as int)).drop_last().map_values(
                    |p: Seq<char>| without_carriage_return(p),
                ),
            ),
        decreases cs.len() - i,
    {
        let ghost before = newline_pieces(cs@.take(i as int));
        assert(cs@.take(i + 1).drop_last() =~= cs@.take(i as int));
        if cs[i] == '\n' {
            let end: usize = if i > start && cs[i - 1] == '\r' {
                i - 1
            } else {
                i
            };
            proof {
                let p = cs@.subrange(start as int, i as int);
                assert(cs@.subrange(start as int, end as int) =~= without_carriage_return(p));
            }
            r.push((start, end));
            start = i + 1;
            proof {
                let after = newline_pieces(cs@.take(i + 1));
                assert(after.drop_last() =~= before);
                assert(after.drop_last().map_values(|p: Seq<char>| without_carriage_return(p))
                    =~= before.drop_last().map_values(|p: Seq<char>| without_carriage_return(p))
                    .push(without_carriage_return(before.last())));
                assert(cs@.subrange(start as int, i + 1) =~= Seq::<char>::empty());
            }
        } else {
            proof {
                let after = newline_pieces(cs@.take(i + 1));
                assert(after.drop_last() =~= before.drop_last());
                assert(cs@.subrange(start as int, i + 1) =~= cs@.subrange(start as int, i as int).push(cs@[i as int]));
            }
        }
        i = i + 1;
    }
    assert(cs@.take(cs.len() as int) =~= cs@);
    if start < cs.len() {
        r.push((start, cs.len()));
        proof {
            let pieces = newline_pieces(cs@);
            assert(r@.drop_last() == r@.take(r.len() - 1));
            assert(text_lines(cs@) =~= pieces.drop_last().map_values(
                |p: Seq<char>| without_carriage_return(p),
            ).push(pieces.last()));
        }
    }
    r
}

/// The characters of `s`, one by one.
pub fn chars_of(s: &str) -> (r: Vec<char>)
    ensures
        r@ == s@,
{
    let mut r: Vec<char> = Vec::new();
    for c in it: s.chars()
        invariant
            r@ == it.seq().take(it.index() as int),
            it.seq() == s@,
    {
        r.push(c);
    }
    r
}

} // verus!
