//! Flattening of a tree-drawn listing into slash-joined leaf paths.

use vstd::prelude::*;

verus! {

use crate::sequences::{remove_escape_sequences, sequences_removed};
use crate::lines::{chars_of, line_ranges, ranges_select, text_lines};

/// Whitespace that makes a line blank: the characters of Unicode's
/// White_Space property, those for which `char::is_whitespace` holds.
pub open spec fn is_blank_char(c: char) -> bool {
    ('\t' <= c && c <= '\r') || c == ' ' || c == '\u{85}' || c == '\u{a0}' || c == '\u{1680}'
        || ('\u{2000}' <= c && c <= '\u{200a}') || c == '\u{2028}' || c == '\u{2029}'
        || c == '\u{202f}' || c == '\u{205f}' || c == '\u{3000}'
}

/// A line with nothing but whitespace, or nothing at all.
pub open spec fn is_blank(l: Seq<char>) -> bool {
    forall|i: int| 0 <= i < l.len() ==> is_blank_char(#[trigger] l[i])
}

/// The characters that draw the tree rather than name an entry: space, tab,
/// no-break space and the box-drawing glyphs.
pub open spec fn is_markup(c: char) -> bool {
    c == ' ' || c == '\t' || c == '\u{a0}' || c == '├' || c == '│' || c == '└' || c == '─'
}

/// How many spaces start `l`.
pub open spec fn leading_spaces(l: Seq<char>) -> nat
    decreases l.len(),
{
    if l.len() == 0 || l[0] != ' ' {
        0
    } else {
        1 + leading_spaces(l.drop_first())
    }
}

/// How many markup characters start `l`: the line's depth.
pub open spec fn markup_len(l: Seq<char>) -> nat
    decreases l.len(),
{
    if l.len() == 0 || !is_markup(l[0]) {
        0
    } else {
        1 + markup_len(l.drop_first())
    }
}

/// The banner that the listing command prints above the tree.
pub open spec fn header_tag() -> Seq<char> {
    seq!['S', 'e', 'a', 'r', 'c', 'h', ' ', 'T', 'e', 'r', 'm', 's', ':']
}

/// A banner line: after its indentation it starts with the banner.
pub open spec fn is_header(l: Seq<char>) -> bool {
    let rest = l.skip(leading_spaces(l) as int);
    rest.len() >= header_tag().len() && rest.take(header_tag().len() as int) == header_tag()
}

/// The lines that are not blank, in order.
pub open spec fn kept_lines(ls: Seq<Seq<char>>) -> Seq<Seq<char>>
    decreases ls.len(),
{
    if ls.len() == 0 {
        ls
    } else if is_blank(ls.last()) {
        kept_lines(ls.drop_last())
    } else {
        kept_lines(ls.drop_last()).push(ls.last())
    }
}

/// The lines that are not banners, in order.
pub open spec fn tree_lines(ls: Seq<Seq<char>>) -> Seq<Seq<char>>
    decreases ls.len(),
{
    if ls.len() == 0 {
        ls
    } else if is_header(ls.last()) {
        tree_lines(ls.drop_last())
    } else {
        tree_lines(ls.drop_last()).push(ls.last())
    }
}

/// The indentation common to all of `ls`: the fewest leading spaces of any
/// of them, and 0 when there is none.
pub open spec fn margin(ls: Seq<Seq<char>>) -> nat
    decreases ls.len(),
{
    if ls.len() == 0 {
        0
    } else if ls.len() == 1 {
        leading_spaces(ls[0])
    } else {
        let m = margin(ls.drop_last());
        let s = leading_spaces(ls.last());
        if s < m {
            s
        } else {
            m
        }
    }
}

/// A tree line as its depth and its name: the number of markup characters
/// that start it, and what follows them.
pub open spec fn node_of(l: Seq<char>) -> (int, Seq<char>) {
    (markup_len(l) as int, l.skip(markup_len(l) as int))
}

/// The entries of a listing's lines: blank lines dropped, the common margin
/// removed, banner lines dropped, each remaining line read as a node.
pub open spec fn listing_nodes(lines: Seq<Seq<char>>) -> Seq<(int, Seq<char>)> {
    let kept = kept_lines(lines);
    trimmed_nodes(tree_lines(kept), margin(kept) as int)
}

/// Each line of `ls` read as a node once its first `m` characters are removed.
pub open spec fn trimmed_nodes(ls: Seq<Seq<char>>, m: int) -> Seq<(int, Seq<char>)> {
    ls.map_values(|l: Seq<char>| node_of(l.skip(m)))
}

/// The names of `stack` joined by slashes.
pub open spec fn join_path(stack: Seq<Seq<char>>) -> Seq<char>
    decreases stack.len(),
{
    if stack.len() == 0 {
        Seq::empty()
    } else if stack.len() == 1 {
        stack[0]
    } else {
        join_path(stack.drop_last()) + seq!['/'] + stack.last()
    }
}

/// `stack` without its top `n` entries; empty when it holds no more than `n`.
pub open spec fn drop_top(stack: Seq<Seq<char>>, n: int) -> Seq<Seq<char>> {
    if stack.len() <= n {
        Seq::empty()
    } else {
        stack.take(stack.len() - n)
    }
}

/// What the walk over a listing holds between two lines: the names from the
/// root down to the last line, the depth of the last line, and the paths
/// found so far.
pub type WalkState = (Seq<Seq<char>>, int, Seq<Seq<char>>);

/// One line of the walk. The first line only starts the stack. A line at the
/// depth of the one before closes that one as a leaf; a shallower line closes
/// the leaf and the branch that held it (no more entries are removed than the
/// stack holds); a deeper line closes nothing. Then the line's name is pushed.
pub open spec fn walk_step(st: WalkState, node: (int, Seq<char>)) -> WalkState {
    let (stack, prev, out) = st;
    let (level, name) = node;
    if stack.len() == 0 {
        (seq![name], level, out)
    } else if level < prev {
        (drop_top(stack, 2).push(name), level, out.push(join_path(stack)))
    } else if level == prev {
        (drop_top(stack, 1).push(name), level, out.push(join_path(stack)))
    } else {
        (stack.push(name), level, out)
    }
}

/// The walk over all of `nodes`, from an empty stack.
pub open spec fn walk(nodes: Seq<(int, Seq<char>)>) -> WalkState
    decreases nodes.len(),
{
    if nodes.len() == 0 {
        (Seq::empty(), 0, Seq::empty())
    } else {
        walk_step(walk(nodes.drop_last()), nodes.last())
    }
}

/// The paths that the walk finds, and last the path of the final line.
pub open spec fn leaf_paths(nodes: Seq<(int, Seq<char>)>) -> Seq<Seq<char>> {
    let (stack, _, out) = walk(nodes);
    if stack.len() == 0 {
        out
    } else {
        out.push(join_path(stack))
    }
}

/// The leaf paths of the listing `s`.
pub open spec fn listing_paths(s: Seq<char>) -> Seq<Seq<char>> {
    leaf_paths(listing_nodes(text_lines(s)))
}

/// The views of a sequence of string slices.
pub open spec fn str_views(v: Seq<&str>) -> Seq<Seq<char>> {
    v.map_values(|x: &str| x@)
}

/// The views of a sequence of strings.
pub open spec fn string_views(v: Seq<String>) -> Seq<Seq<char>> {
    v.map_values(|x: String| x@)
}

pub proof fn lemma_margin_bound(ls: Seq<Seq<char>>)
    ensures
        forall|j: int| 0 <= j < ls.len() ==> margin(ls) <= leading_spaces(#[trigger] ls[j]),
    decreases ls.len(),
{
    if ls.len() > 1 {
        lemma_margin_bound(ls.drop_last());
        assert forall|j: int| 0 <= j < ls.len() implies margin(ls) <= leading_spaces(
            #[trigger] ls[j],
        ) by {
            if j < ls.len() - 1 {
                assert(ls.drop_last()[j] == ls[j]);
            }
        }
    }
}

pub proof fn lemma_leading_spaces_are_spaces(l: Seq<char>)
    ensures
        leading_spaces(l) <= l.len(),
        forall|j: int| 0 <= j < leading_spaces(l) ==> l[j] == ' ',
    decreases l.len(),
{
    if l.len() > 0 && l[0] == ' ' {
        lemma_leading_spaces_are_spaces(l.drop_first());
        assert forall|j: int| 0 <= j < leading_spaces(l) implies l[j] == ' ' by {
            if j > 0 {
                assert(l[j] == l.drop_first()[j - 1]);
            }
        }
    }
}

proof fn lemma_leading_spaces(l: Seq<char>, k: int)
    requires
        0 <= k <= l.len(),
        forall|j: int| 0 <= j < k ==> l[j] == ' ',
        k == l.len() || l[k] != ' ',
    ensures
        leading_spaces(l) == k,
    decreases k,
{
    if k > 0 {
        lemma_leading_spaces(l.drop_first(), k - 1);
    }
}

pub proof fn lemma_markup_len(l: Seq<char>, k: int)
    requires
        0 <= k <= l.len(),
        forall|j: int| 0 <= j < k ==> is_markup(l[j]),
        k == l.len() || !is_markup(l[k]),
    ensures
        markup_len(l) == k,
    decreases k,
{
    if k > 0 {
        lemma_markup_len(l.drop_first(), k - 1);
    }
}

/// The number of spaces that start `cs[a..b]`.
fn count_leading_spaces(cs: &Vec<char>, a: usize, b: usize) -> (k: usize)
    requires
        a <= b <= cs.len(),
    ensures
        k == leading_spaces(cs@.subrange(a as int, b as int)),
        k <= b - a,
{
    let mut i: usize = a;
    while i < b && cs[i] == ' '
        invariant
            a <= i <= b <= cs.len(),
            forall|j: int| a <= j < i ==> cs@[j] == ' ',
        decreases b - i,
    {
        i = i + 1;
    }
    proof {
        lemma_leading_spaces(cs@.subrange(a as int, b as int), i - a);
    }
    i - a
}

/// The number of markup characters that start `cs[a..b]`.
fn count_markup(cs: &Vec<char>, a: usize, b: usize) -> (k: usize)
    requires
        a <= b <= cs.len(),
    ensures
        k == markup_len(cs@.subrange(a as int, b as int)),
        k <= b - a,
{
    let mut i: usize = a;
    while i < b && (cs[i] == ' ' || cs[i] == '\t' || cs[i] == '\u{a0}' || cs[i] == '├'
        || cs[i] == '│' || cs[i] == '└' || cs[i] == '─')
        invariant
            a <= i <= b <= cs.len(),
            forall|j: int| a <= j < i ==> is_markup(cs@[j]),
        decreases b - i,
    {
        i = i + 1;
    }
    proof {
        lemma_markup_len(cs@.subrange(a as int, b as int), i - a);
    }
    i - a
}

/// Whether `cs[a..b]` is blank.
fn blank_range(cs: &Vec<char>, a: usize, b: usize) -> (r: bool)
    requires
        a <= b <= cs.len(),
    ensures
        r == is_blank(cs@.subrange(a as int, b as int)),
{
    let mut i: usize = a;
    while i < b
        invariant
            a <= i <= b <= cs.len(),
            forall|j: int| a <= j < i ==> is_blank_char(cs@[j]),
        decreases b - i,
    {
        let c = cs[i];
        if !(('\t' <= c && c <= '\r') || c == ' ' || c == '\u{85}' || c == '\u{a0}' || c
            == '\u{1680}' || ('\u{2000}' <= c && c <= '\u{200a}') || c == '\u{2028}' || c
            == '\u{2029}' || c == '\u{202f}' || c == '\u{205f}' || c == '\u{3000}') {
            assert(!is_blank_char(cs@.subrange(a as int, b as int)[i - a]));
            return false;
        }
        i = i + 1;
    }
    assert forall|j: int| 0 <= j < b - a implies is_blank_char(
        #[trigger] cs@.subrange(a as int, b as int)[j],
    ) by {
        assert(cs@.subrange(a as int, b as int)[j] == cs@[a + j]);
    }
    true
}

/// The banner, as characters.
fn header_chars() -> (r: Vec<char>)
    ensures
        r@ == header_tag(),
{
    let r = vec!['S', 'e', 'a', 'r', 'c', 'h', ' ', 'T', 'e', 'r', 'm', 's', ':'];
    assert(r@ =~= header_tag());
    r
}

/// Whether `cs[a..b]` is a banner line.
fn header_range(cs: &Vec<char>, a: usize, b: usize) -> (r: bool)
    requires
        a <= b <= cs.len(),
    ensures
        r == is_header(cs@.subrange(a as int, b as int)),
{
    let ghost l = cs@.subrange(a as int, b as int);
    let tag = header_chars();
    let start = a + count_leading_spaces(cs, a, b);
    let ghost rest = l.skip(start - a);
    assert(rest =~= cs@.subrange(start as int, b as int));
    if b - start < tag.len() {
        return false;
    }
    let mut i: usize = 0;
    while i < tag.len()
        invariant
            start + tag.len() <= b <= cs.len(),
            0 <= i <= tag.len(),
            tag@ == header_tag(),
            rest == cs@.subrange(start as int, b as int),
            l == cs@.subrange(a as int, b as int),
            rest == l.skip(leading_spaces(l) as int),
            forall|j: int| 0 <= j < i ==> cs@[start + j] == tag@[j],
        decreases tag.len() - i,
    {
        if cs[start + i] != tag[i] {
            assert(rest.len() >= header_tag().len());
            assert(rest[i as int] == cs@[start + i]);
            assert(rest.take(header_tag().len() as int)[i as int] != header_tag()[i as int]);
            return false;
        }
        i = i + 1;
    }
    assert(rest.take(header_tag().len() as int) =~= header_tag());
    true
}

/// The names of `stack` joined by slashes.
fn join_names(stack: &Vec<&str>) -> (r: String)
    ensures
        r@ == join_path(str_views(stack@)),
{
    let mut r = String::new();
    let mut i: usize = 0;
    while i < stack.len()
        invariant
            i <= stack.len(),
            r@ == join_path(str_views(stack@.take(i as int))),
        decreases stack.len() - i,
    {
        proof {
            reveal_strlit("/");
            assert(str_views(stack@.take(i + 1)).drop_last() =~= str_views(stack@.take(i as int)));
        }
        if i > 0 {
            r.append("/");
        }
        r.append(stack[i]);
        proof {
            if i == 0 {
                assert(r@ =~= str_views(stack@.take(1))[0]);
            }
        }
        i = i + 1;
    }
    assert(stack@.take(stack.len() as int) =~= stack@);
    r
}

/// Flattens a tree-drawn listing into the slash-joined path of each leaf, in
/// the order in which the leaves appear.
///
/// Blank lines are dropped; the indentation that all remaining lines share is
/// removed; banner lines (`Search Terms: ...`) are dropped. Each line's depth
/// is the number of markup characters that start it, and its name is the rest.
/// Depths are only ever compared between consecutive lines.
pub fn parse_list(output: &str) -> (r: Vec<String>)
    ensures
        string_views(r@) == listing_paths(output@),
{
    let cs = chars_of(output);
    let lines = line_ranges(&cs);
    let ghost ls = text_lines(cs@);
    let mut kept: Vec<(usize, usize)> = Vec::new();
    let mut m: usize = 0;
    let mut k: usize = 0;
    while k < lines.len()
        invariant
            k <= lines.len(),
            ranges_select(cs@, lines@, ls),
            ranges_select(cs@, kept@, kept_lines(ls.take(k as int))),
            m == margin(kept_lines(ls.take(k as int))),
        decreases lines.len() - k,
    {
        let (a, b) = lines[k];
        assert(ls.take(k + 1).drop_last() =~= ls.take(k as int));
        if !blank_range(&cs, a, b) {
            let n = count_leading_spaces(&cs, a, b);
            proof {
                let prev = kept_lines(ls.take(k as int));
                let next = kept_lines(ls.take(k + 1));
                assert(ls.take(k + 1).last() == ls[k as int]);
                assert(next == prev.push(ls[k as int]));
                assert(next.drop_last() =~= prev);
                assert(next.last() == ls[k as int]);
                if prev.len() == 0 {
                    assert(next[0] == ls[k as int]);
                }
            }
            if kept.len() == 0 || n < m {
                m = n;
            }
            kept.push((a, b));
        }
        k = k + 1;
    }
    assert(ls.take(lines.len() as int) =~= ls);
    let ghost kl = kept_lines(ls);
    proof {
        lemma_margin_bound(kl);
    }
    let mut stack: Vec<&str> = Vec::new();
    let mut previous: usize = 0;
    let mut result: Vec<String> = Vec::new();
    let mut j: usize = 0;
    while j < kept.len()
        invariant
            j <= kept.len(),
            output@ == cs@,
            ranges_select(cs@, kept@, kl),
            m == margin(kl),
            forall|i: int| 0 <= i < kl.len() ==> margin(kl) <= leading_spaces(#[trigger] kl[i]),
            walk(trimmed_nodes(tree_lines(kl.take(j as int)), m as int)) == (
                str_views(stack@),
                previous as int,
                string_views(result@),
            ),
        decreases kept.len() - j,
    {
        let (a, b) = kept[j];
        let ghost before = trimmed_nodes(tree_lines(kl.take(j as int)), m as int);
        assert(kl.take(j + 1).drop_last() =~= kl.take(j as int));
        if !header_range(&cs, a, b) {
            proof {
                lemma_leading_spaces_are_spaces(kl[j as int]);
            }
            assert(kl[j as int] == cs@.subrange(a as int, b as int));
            let start = a + m;
            let level = count_markup(&cs, start, b);
            let name = output.substring_char(start + level, b);
            proof {
                let l = kl[j as int];
                assert(l.skip(m as int) =~= cs@.subrange(start as int, b as int));
                assert(l.skip(m as int).skip(level as int) =~= name@);
                let after = trimmed_nodes(tree_lines(kl.take(j + 1)), m as int);
                assert(after =~= before.push(node_of(l.skip(m as int))));
                assert(after.drop_last() =~= before);
            }
            let ghost old_stack = str_views(stack@);
            let ghost old_result = string_views(result@);
            if stack.len() > 0 {
                if level < previous {
                    let path = join_names(&stack);
                    result.push(path);
                    stack.pop();
                    stack.pop();
                    assert(str_views(stack@) =~= drop_top(old_stack, 2));
                } else if level == previous {
                    let path = join_names(&stack);
                    result.push(path);
                    stack.pop();
                    assert(str_views(stack@) =~= drop_top(old_stack, 1));
                }
            }
            let ghost mid = str_views(stack@);
            stack.push(name);
            previous = level;
            assert(str_views(stack@) =~= mid.push(name@));
            assert(string_views(result@) =~= old_result.push(join_path(old_stack))
                || string_views(result@) =~= old_result);
        } else {
            assert(trimmed_nodes(tree_lines(kl.take(j + 1)), m as int) =~= before);
        }
        j = j + 1;
    }
    assert(kl.take(kept.len() as int) =~= kl);
    if stack.len() > 0 {
        let path = join_names(&stack);
        result.push(path);
    }
    assert(string_views(result@) =~= listing_paths(output@));
    result
}

/// Flattens the raw output of the listing command: its colour and cursor
/// sequences are removed first, then the text is flattened as `parse_list`
/// does.
pub fn parse_listing(raw: &str) -> (r: Vec<String>)
    ensures
        string_views(r@) == listing_paths(sequences_removed(raw@)),
{
    let plain = remove_escape_sequences(raw);
    parse_list(plain.as_str())
}

} // verus!
