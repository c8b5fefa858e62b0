//! Laws of the listing flattener.

use vstd::prelude::*;
use crate::lines::{newline_pieces, text_lines, without_carriage_return};
use crate::listing::{
    listing_paths, is_markup, lemma_markup_len,
    is_blank, is_blank_char, is_header, kept_lines, leaf_paths, leading_spaces, listing_nodes,
    lemma_leading_spaces_are_spaces, lemma_margin_bound, margin, markup_len, node_of, tree_lines, trimmed_nodes, walk,
    walk_step, header_tag, join_path, drop_top,
};

verus! {

/// `n` spaces.
pub open spec fn spaces(n: nat) -> Seq<char> {
    Seq::new(n, |i: int| ' ')
}

/// Every line of `ls` with `n` more spaces in front.
pub open spec fn indent_lines(ls: Seq<Seq<char>>, n: nat) -> Seq<Seq<char>> {
    ls.map_values(|l: Seq<char>| spaces(n) + l)
}

/// Every node of `nodes` with its depth raised by `d`.
pub open spec fn shift_levels(nodes: Seq<(int, Seq<char>)>, d: int) -> Seq<(int, Seq<char>)> {
    nodes.map_values(|x: (int, Seq<char>)| (x.0 + d, x.1))
}

proof fn lemma_leading_spaces_indented(l: Seq<char>, n: nat)
    ensures
        leading_spaces(spaces(n) + l) == n + leading_spaces(l),
        markup_len(spaces(n) + l) == n + markup_len(l),
    decreases n,
{
    if n > 0 {
        assert((spaces(n) + l).drop_first() =~= spaces((n - 1) as nat) + l);
        lemma_leading_spaces_indented(l, (n - 1) as nat);
    } else {
        assert(spaces(n) + l =~= l);
    }
}

proof fn lemma_indented_line(l: Seq<char>, n: nat)
    ensures
        is_blank(spaces(n) + l) == is_blank(l),
        is_header(spaces(n) + l) == is_header(l),
        leading_spaces(spaces(n) + l) == n + leading_spaces(l),
{
    let il = spaces(n) + l;
    lemma_leading_spaces_indented(l, n);
    lemma_leading_spaces_are_spaces(l);
    assert(il.skip(leading_spaces(il) as int) =~= l.skip(leading_spaces(l) as int));
    if is_blank(l) {
        assert forall|i: int| 0 <= i < il.len() implies is_blank_char(#[trigger] il[i]) by {
            if i >= n {
                assert(il[i] == l[i - n]);
            }
        }
    }
    if is_blank(il) {
        assert forall|i: int| 0 <= i < l.len() implies is_blank_char(#[trigger] l[i]) by {
            assert(il[i + n] == l[i]);
        }
    }
}

proof fn lemma_indent_filters(ls: Seq<Seq<char>>, n: nat)
    ensures
        kept_lines(indent_lines(ls, n)) == indent_lines(kept_lines(ls), n),
        tree_lines(indent_lines(ls, n)) == indent_lines(tree_lines(ls), n),
        ls.len() > 0 ==> margin(indent_lines(ls, n)) == margin(ls) + n,
    decreases ls.len(),
{
    if ls.len() > 0 {
        lemma_indent_filters(ls.drop_last(), n);
        lemma_indented_line(ls.last(), n);
        assert(indent_lines(ls, n).drop_last() =~= indent_lines(ls.drop_last(), n));
        assert(indent_lines(kept_lines(ls.drop_last()), n).push(spaces(n) + ls.last())
            =~= indent_lines(kept_lines(ls.drop_last()).push(ls.last()), n));
        assert(indent_lines(tree_lines(ls.drop_last()), n).push(spaces(n) + ls.last())
            =~= indent_lines(tree_lines(ls.drop_last()).push(ls.last()), n));
        if ls.len() == 1 {
            lemma_indented_line(ls[0], n);
        }
    } else {
        assert(indent_lines(ls, n) =~= ls);
    }
}

proof fn lemma_tree_lines_bound(ls: Seq<Seq<char>>, m: int)
    requires
        forall|i: int| 0 <= i < ls.len() ==> m <= leading_spaces(#[trigger] ls[i]),
    ensures
        forall|j: int|
            0 <= j < tree_lines(ls).len() ==> m <= leading_spaces(#[trigger] tree_lines(ls)[j]),
    decreases ls.len(),
{
    if ls.len() > 0 {
        assert forall|i: int| 0 <= i < ls.drop_last().len() implies m <= leading_spaces(
            #[trigger] ls.drop_last()[i],
        ) by {
            assert(ls.drop_last()[i] == ls[i]);
        }
        lemma_tree_lines_bound(ls.drop_last(), m);
        let before = tree_lines(ls.drop_last());
        assert forall|j: int| 0 <= j < tree_lines(ls).len() implies m <= leading_spaces(
            #[trigger] tree_lines(ls)[j],
        ) by {
            if j < before.len() {
                assert(tree_lines(ls)[j] == before[j]);
            } else {
                assert(tree_lines(ls)[j] == ls.last());
            }
        }
    }
}

/// Indenting every line of a listing by the same number of spaces changes
/// none of its leaf paths: the common margin absorbs the indentation.
pub proof fn lemma_margin_invariance(lines: Seq<Seq<char>>, n: nat)
    ensures
        leaf_paths(listing_nodes(indent_lines(lines, n))) == leaf_paths(listing_nodes(lines)),
{
    let kept = kept_lines(lines);
    lemma_indent_filters(lines, n);
    lemma_indent_filters(kept, n);
    let t = tree_lines(kept);
    if kept.len() > 0 {
        let m = margin(kept);
        lemma_margin_bound(kept);
        lemma_tree_lines_bound(kept, m as int);
        assert forall|j: int| 0 <= j < t.len() implies (spaces(n) + #[trigger] t[j]).skip(
            (m + n) as int,
        ) =~= t[j].skip(m as int) by {
            lemma_leading_spaces_are_spaces(t[j]);
        }
        assert(trimmed_nodes(indent_lines(t, n), (m + n) as int) =~= trimmed_nodes(t, m as int));
    } else {
        assert(t =~= Seq::<Seq<char>>::empty());
        assert(trimmed_nodes(indent_lines(t, n), n as int) =~= trimmed_nodes(t, 0));
    }
}

proof fn lemma_markup_len_bound(l: Seq<char>)
    ensures
        markup_len(l) <= l.len(),
    decreases l.len(),
{
    if l.len() > 0 {
        lemma_markup_len_bound(l.drop_first());
    }
}

/// Removing `a` of a line's leading spaces lowers its depth by `a` and keeps
/// its name.
proof fn lemma_node_after_margin(l: Seq<char>, a: int)
    requires
        0 <= a <= leading_spaces(l),
    ensures
        node_of(l.skip(a)) == (markup_len(l) - a, l.skip(markup_len(l) as int)),
{
    lemma_leading_spaces_are_spaces(l);
    lemma_markup_len_bound(l);
    let rest = l.skip(a);
    assert(l =~= spaces(a as nat) + rest);
    lemma_leading_spaces_indented(rest, a as nat);
    assert(rest.skip(markup_len(rest) as int) =~= l.skip(markup_len(l) as int));
}

proof fn lemma_filters_concat(x: Seq<Seq<char>>, y: Seq<Seq<char>>)
    ensures
        kept_lines(x + y) == kept_lines(x) + kept_lines(y),
        tree_lines(x + y) == tree_lines(x) + tree_lines(y),
    decreases y.len(),
{
    if y.len() == 0 {
        assert(x + y =~= x);
        assert(kept_lines(x) + kept_lines(y) =~= kept_lines(x));
        assert(tree_lines(x) + tree_lines(y) =~= tree_lines(x));
    } else {
        lemma_filters_concat(x, y.drop_last());
        assert((x + y).drop_last() =~= x + y.drop_last());
        assert((x + y).last() == y.last());
        assert(kept_lines(x) + kept_lines(y.drop_last()).push(y.last()) =~= (kept_lines(x)
            + kept_lines(y.drop_last())).push(y.last()));
        assert(tree_lines(x) + tree_lines(y.drop_last()).push(y.last()) =~= (tree_lines(x)
            + tree_lines(y.drop_last())).push(y.last()));
    }
}

proof fn lemma_walk_shift(nodes: Seq<(int, Seq<char>)>, d: int)
    ensures
        walk(shift_levels(nodes, d)).0 == walk(nodes).0,
        walk(shift_levels(nodes, d)).2 == walk(nodes).2,
        nodes.len() > 0 ==> walk(shift_levels(nodes, d)).1 == walk(nodes).1 + d,
        nodes.len() > 0 ==> walk(nodes).0.len() > 0,
    decreases nodes.len(),
{
    if nodes.len() > 0 {
        assert(shift_levels(nodes, d).drop_last() =~= shift_levels(nodes.drop_last(), d));
        lemma_walk_shift(nodes.drop_last(), d);
    }
}

/// Removing a banner line (`Search Terms: ...`, at any indentation) from
/// anywhere in a listing changes none of its leaf paths.
pub proof fn lemma_header_elision(before: Seq<Seq<char>>, h: Seq<char>, after: Seq<Seq<char>>)
    requires
        is_header(h),
    ensures
        leaf_paths(listing_nodes(before + seq![h] + after)) == leaf_paths(
            listing_nodes(before + after),
        ),
{
    lemma_leading_spaces_are_spaces(h);
    let rest = h.skip(leading_spaces(h) as int);
    assert(rest.take(header_tag().len() as int)[0] == 'S');
    assert(h[leading_spaces(h) as int] == rest[0]);
    assert(!is_blank(h));
    lemma_filters_concat(before, seq![h]);
    lemma_filters_concat(before + seq![h], after);
    lemma_filters_concat(before, after);
    let kb = kept_lines(before);
    let ka = kept_lines(after);
    assert(seq![h].drop_last() =~= Seq::<Seq<char>>::empty());
    assert(seq![h].last() == h);
    assert(kept_lines(seq![h]) == kept_lines(Seq::<Seq<char>>::empty()).push(h));
    assert(kept_lines(seq![h]) =~= seq![h]);
    assert(tree_lines(seq![h]) == tree_lines(Seq::<Seq<char>>::empty()));
    lemma_filters_concat(kb, seq![h]);
    lemma_filters_concat(kb + seq![h], ka);
    lemma_filters_concat(kb, ka);
    let k1 = kb + seq![h] + ka;
    let k0 = kb + ka;
    assert(kept_lines(before + seq![h] + after) == k1);
    assert(kept_lines(before + after) == k0);
    let t = tree_lines(k0);
    assert(tree_lines(k1) =~= t);
    let m1 = margin(k1);
    let m0 = margin(k0);
    lemma_margin_bound(k1);
    lemma_margin_bound(k0);
    lemma_tree_lines_bound(k1, m1 as int);
    lemma_tree_lines_bound(k0, m0 as int);
    assert forall|j: int| 0 <= j < t.len() implies #[trigger] trimmed_nodes(t, m1 as int)[j]
        == shift_levels(trimmed_nodes(t, m0 as int), m0 - m1)[j] by {
        lemma_node_after_margin(t[j], m1 as int);
        lemma_node_after_margin(t[j], m0 as int);
    }
    assert(trimmed_nodes(t, m1 as int) =~= shift_levels(trimmed_nodes(t, m0 as int), m0 - m1));
    lemma_walk_shift(trimmed_nodes(t, m0 as int), m0 - m1);
}

/// Whether `depth` gives each node's depth in a tree that the listing draws:
/// the first node is a root, each node is at most one level deeper and at most
/// one level shallower than the node before it, and the markup depths of two
/// consecutive nodes compare as their depths in the tree do.
pub open spec fn draws_tree(nodes: Seq<(int, Seq<char>)>, depth: Seq<nat>) -> bool {
    &&& depth.len() == nodes.len()
    &&& nodes.len() > 0 ==> depth[0] == 0
    &&& forall|i: int|
        0 < i < nodes.len() ==> {
            &&& #[trigger] depth[i] <= depth[i - 1] + 1
            &&& depth[i] + 1 >= depth[i - 1]
            &&& (nodes[i].0 < nodes[i - 1].0 <==> depth[i] < depth[i - 1])
            &&& (nodes[i].0 == nodes[i - 1].0 <==> depth[i] == depth[i - 1])
        }
}

/// The names from the root of the tree down to node `i`: the first
/// `depth[i]` names of the previous node's ancestry, then the node's own.
pub open spec fn ancestry(nodes: Seq<(int, Seq<char>)>, depth: Seq<nat>, i: int) -> Seq<
    Seq<char>,
>
    decreases i,
{
    let above = if i <= 0 {
        Seq::empty()
    } else {
        ancestry(nodes, depth, i - 1)
    };
    above.take(depth[i] as int).push(nodes[i].1)
}

/// Whether node `i` is a leaf: the last node, or one that the next node is
/// not a child of.
pub open spec fn is_leaf(depth: Seq<nat>, i: int) -> bool {
    i == depth.len() - 1 || depth[i + 1] <= depth[i]
}

/// The paths of the leaves among the first `k` nodes, in the order of the
/// listing, which is the depth-first order of the tree.
pub open spec fn depth_first_leaves(nodes: Seq<(int, Seq<char>)>, depth: Seq<nat>, k: int) -> Seq<
    Seq<char>,
>
    decreases k,
{
    if k <= 0 {
        Seq::empty()
    } else {
        let before = depth_first_leaves(nodes, depth, k - 1);
        if is_leaf(depth, k - 1) {
            before.push(join_path(ancestry(nodes, depth, k - 1)))
        } else {
            before
        }
    }
}

proof fn lemma_walk_tree(nodes: Seq<(int, Seq<char>)>, depth: Seq<nat>, k: int)
    requires
        draws_tree(nodes, depth),
        1 <= k <= nodes.len(),
    ensures
        walk(nodes.take(k)) == (
            ancestry(nodes, depth, k - 1),
            nodes[k - 1].0,
            depth_first_leaves(nodes, depth, k - 1),
        ),
        ancestry(nodes, depth, k - 1).len() == depth[k - 1] + 1,
    decreases k,
{
    assert(nodes.take(k).drop_last() =~= nodes.take(k - 1));
    assert(nodes.take(k).last() == nodes[k - 1]);
    if k == 1 {
        assert(nodes.take(0) =~= Seq::<(int, Seq<char>)>::empty());
        assert(ancestry(nodes, depth, 0) =~= seq![nodes[0].1]);
    } else {
        lemma_walk_tree(nodes, depth, k - 1);
        let a = ancestry(nodes, depth, k - 2);
        let d = depth[k - 2];
        let e = depth[k - 1];
        assert(depth[k - 1] <= depth[k - 2] + 1);
        if e < d {
            assert(drop_top(a, 2) =~= a.take(e as int));
        } else if e == d {
            assert(drop_top(a, 1) =~= a.take(e as int));
        } else {
            assert(a.take(e as int) =~= a);
        }
    }
}

/// When the depths of a listing draw a tree, one level per step, the leaf
/// paths are exactly the paths of the tree's leaves, in depth-first order
/// from top to bottom.
pub proof fn lemma_depth_first_order(nodes: Seq<(int, Seq<char>)>, depth: Seq<nat>)
    requires
        draws_tree(nodes, depth),
    ensures
        leaf_paths(nodes) == depth_first_leaves(nodes, depth, nodes.len() as int),
{
    if nodes.len() > 0 {
        lemma_walk_tree(nodes, depth, nodes.len() as int);
        assert(nodes.take(nodes.len() as int) =~= nodes);
    }
}

/// Text of whitespace alone, line feeds among it.
pub open spec fn is_blank_text(s: Seq<char>) -> bool {
    forall|i: int| 0 <= i < s.len() ==> is_blank_char(#[trigger] s[i])
}

proof fn lemma_blank_pieces(s: Seq<char>)
    requires
        is_blank_text(s),
    ensures
        newline_pieces(s).len() >= 1,
        forall|k: int| 0 <= k < newline_pieces(s).len() ==> is_blank(#[trigger] newline_pieces(s)[k]),
    decreases s.len(),
{
    if s.len() > 0 {
        let t = s.drop_last();
        assert forall|i: int| 0 <= i < t.len() implies is_blank_char(#[trigger] t[i]) by {
            assert(t[i] == s[i]);
        }
        lemma_blank_pieces(t);
        let pieces = newline_pieces(t);
        if s.last() != '\n' {
            let p = pieces.last().push(s.last());
            assert(is_blank_char(s[s.len() - 1]));
            assert(is_blank(pieces[pieces.len() - 1]));
            assert forall|j: int| 0 <= j < p.len() implies is_blank_char(#[trigger] p[j]) by {
                if j < p.len() - 1 {
                    assert(p[j] == pieces.last()[j]);
                }
            }
            assert forall|k: int| 0 <= k < newline_pieces(s).len() implies is_blank(
                #[trigger] newline_pieces(s)[k],
            ) by {
                if k < pieces.len() - 1 {
                    assert(newline_pieces(s)[k] == pieces[k]);
                }
            }
        } else {
            assert forall|k: int| 0 <= k < newline_pieces(s).len() implies is_blank(
                #[trigger] newline_pieces(s)[k],
            ) by {
                if k < pieces.len() {
                    assert(newline_pieces(s)[k] == pieces[k]);
                }
            }
        }
    }
}

proof fn lemma_blank_lines_dropped(ls: Seq<Seq<char>>)
    requires
        forall|k: int| 0 <= k < ls.len() ==> is_blank(#[trigger] ls[k]),
    ensures
        kept_lines(ls).len() == 0,
    decreases ls.len(),
{
    if ls.len() > 0 {
        assert(ls.drop_last().len() < ls.len());
        assert forall|k: int| 0 <= k < ls.drop_last().len() implies is_blank(
            #[trigger] ls.drop_last()[k],
        ) by {
            assert(ls.drop_last()[k] == ls[k]);
        }
        lemma_blank_lines_dropped(ls.drop_last());
        assert(is_blank(ls[ls.len() - 1]));
    }
}

/// Text of nothing but whitespace, the empty text among it, has no leaf
/// paths.
pub proof fn lemma_blank_text_has_no_paths(s: Seq<char>)
    requires
        is_blank_text(s),
    ensures
        listing_paths(s) == Seq::<Seq<char>>::empty(),
{
    lemma_blank_pieces(s);
    let pieces = newline_pieces(s);
    let ls = text_lines(s);
    assert forall|k: int| 0 <= k < ls.len() implies is_blank(#[trigger] ls[k]) by {
        assert(is_blank(pieces[k]));
        if k < pieces.len() - 1 {
            let p = pieces[k];
            assert(ls[k] == without_carriage_return(p));
            assert forall|j: int| 0 <= j < ls[k].len() implies is_blank_char(#[trigger] ls[k][j]) by {
                assert(ls[k][j] == p[j]);
            }
        }
    }
    lemma_blank_lines_dropped(ls);
    assert(tree_lines(kept_lines(ls)) =~= Seq::<Seq<char>>::empty());
    assert(listing_nodes(ls) =~= Seq::<(int, Seq<char>)>::empty());
}

proof fn lemma_single_piece(s: Seq<char>)
    requires
        forall|i: int| 0 <= i < s.len() ==> s[i] != '\n',
    ensures
        newline_pieces(s) == seq![s],
    decreases s.len(),
{
    if s.len() == 0 {
        assert(s =~= Seq::<char>::empty());
        assert(newline_pieces(s) =~= seq![s]);
    } else {
        let t = s.drop_last();
        assert forall|i: int| 0 <= i < t.len() implies t[i] != '\n' by {
            assert(t[i] == s[i]);
        }
        lemma_single_piece(t);
        assert(s[s.len() - 1] != '\n');
        assert(t.push(s.last()) =~= s);
        assert(newline_pieces(t).last() == t);
        assert(newline_pieces(s) == seq![t].update(0, t.push(s.last())));
        assert(seq![t].update(0, t.push(s.last())) =~= seq![s]);
    }
}

/// A listing of one line, neither blank nor a banner, has one leaf path: the
/// line's name, what follows its markup characters.
pub proof fn lemma_single_line(l: Seq<char>)
    requires
        forall|i: int| 0 <= i < l.len() ==> l[i] != '\n',
        !is_blank(l),
        !is_header(l),
    ensures
        listing_paths(l) == seq![l.skip(markup_len(l) as int)],
{
    lemma_single_piece(l);
    assert(l.len() > 0);
    assert(text_lines(l) =~= seq![l]);
    let ls = seq![l];
    assert(ls.drop_last() =~= Seq::<Seq<char>>::empty());
    assert(ls.last() == l);
    assert(kept_lines(ls) == kept_lines(ls.drop_last()).push(l));
    assert(kept_lines(ls) =~= seq![l]);
    assert(tree_lines(ls) == tree_lines(ls.drop_last()).push(l));
    assert(tree_lines(ls) =~= seq![l]);
    let m = margin(seq![l]);
    assert(m == leading_spaces(l));
    lemma_node_after_margin(l, m as int);
    let nodes = listing_nodes(ls);
    assert(nodes =~= seq![node_of(l.skip(m as int))]);
    assert(nodes.drop_last() =~= Seq::<(int, Seq<char>)>::empty());
    let name = l.skip(markup_len(l) as int);
    assert(nodes.last() == node_of(l.skip(m as int)));
    assert(walk(nodes) == walk_step(walk(nodes.drop_last()), nodes.last()));
    assert(walk(nodes).0 == seq![name]);
    assert(walk(nodes).2 == Seq::<Seq<char>>::empty());
    assert(join_path(seq![name]) == name);
    assert(leaf_paths(nodes) =~= seq![name]);
}

/// A listing of one line, a run of markup characters and then a name that
/// is neither blank nor starts with markup or with the banner, has one leaf
/// path: that name.
pub proof fn lemma_single_entry(p: Seq<char>, nm: Seq<char>)
    requires
        forall|i: int| 0 <= i < p.len() ==> is_markup(#[trigger] p[i]),
        nm.len() > 0,
        !is_markup(nm[0]),
        forall|i: int| 0 <= i < nm.len() ==> #[trigger] nm[i] != '\n',
        !is_blank(nm),
        !(nm.len() >= header_tag().len() && nm.take(header_tag().len() as int) == header_tag()),
    ensures
        listing_paths(p + nm) == seq![nm],
{
    let l = p + nm;
    let n = p.len() as int;
    assert forall|i: int| 0 <= i < l.len() implies l[i] != '\n' by {
        if i < n {
            assert(l[i] == p[i]);
        } else {
            assert(l[i] == nm[i - n]);
        }
    }
    let w = choose|i: int| 0 <= i < nm.len() && !is_blank_char(nm[i]);
    assert(l[n + w] == nm[w]);
    assert(!is_blank(l));
    assert forall|j: int| 0 <= j < n implies is_markup(l[j]) by {
        assert(l[j] == p[j]);
    }
    assert(l[n] == nm[0]);
    lemma_markup_len(l, n);
    assert(l.skip(n) =~= nm);
    let k = leading_spaces(l) as int;
    lemma_leading_spaces_are_spaces(l);
    if k > n {
        assert(l[n] == ' ');
    }
    let rest = l.skip(k);
    if is_header(l) {
        assert(rest.take(header_tag().len() as int)[0] == 'S');
        assert(rest[0] == l[k]);
        if k < n {
            assert(l[k] == p[k]);
        } else {
            assert(rest =~= nm);
        }
    }
    lemma_single_line(l);
}

/// Whether `s` ends with `t`.
pub open spec fn ends_with(s: Seq<char>, t: Seq<char>) -> bool {
    t.len() <= s.len() && s.subrange(s.len() - t.len(), s.len() as int) == t
}

/// Whether node `i` is a leaf line: the last node, or one that the next node
/// is no deeper than.
pub open spec fn is_leaf_line(nodes: Seq<(int, Seq<char>)>, i: int) -> bool {
    i == nodes.len() - 1 || nodes[i + 1].0 <= nodes[i].0
}

/// The names of the leaf lines among the first `k` nodes, top to bottom.
pub open spec fn leaf_line_names(nodes: Seq<(int, Seq<char>)>, k: int) -> Seq<Seq<char>>
    decreases k,
{
    if k <= 0 {
        Seq::empty()
    } else {
        let before = leaf_line_names(nodes, k - 1);
        if is_leaf_line(nodes, k - 1) {
            before.push(nodes[k - 1].1)
        } else {
            before
        }
    }
}

proof fn lemma_join_ends_with_last(stack: Seq<Seq<char>>)
    requires
        stack.len() > 0,
    ensures
        ends_with(join_path(stack), stack.last()),
{
    let j = join_path(stack);
    if stack.len() == 1 {
        assert(j.subrange(0, j.len() as int) =~= j);
    } else {
        let front = join_path(stack.drop_last()) + seq!['/'];
        assert(j == front + stack.last());
        assert(j.subrange(j.len() - stack.last().len(), j.len() as int) =~= stack.last());
    }
}

proof fn lemma_walk_leaf_lines(nodes: Seq<(int, Seq<char>)>, k: int)
    requires
        1 <= k <= nodes.len(),
    ensures
        walk(nodes.take(k)).0.len() > 0,
        walk(nodes.take(k)).0.last() == nodes[k - 1].1,
        walk(nodes.take(k)).1 == nodes[k - 1].0,
        walk(nodes.take(k)).2.len() == leaf_line_names(nodes, k - 1).len(),
        forall|m: int|
            0 <= m < walk(nodes.take(k)).2.len() ==> ends_with(
                #[trigger] walk(nodes.take(k)).2[m],
                leaf_line_names(nodes, k - 1)[m],
            ),
    decreases k,
{
    assert(nodes.take(k).drop_last() =~= nodes.take(k - 1));
    assert(nodes.take(k).last() == nodes[k - 1]);
    if k == 1 {
        assert(nodes.take(0) =~= Seq::<(int, Seq<char>)>::empty());
    } else {
        lemma_walk_leaf_lines(nodes, k - 1);
        let (st, prev, out) = walk(nodes.take(k - 1));
        let names = leaf_line_names(nodes, k - 2);
        if nodes[k - 1].0 <= prev {
            lemma_join_ends_with_last(st);
            let out2 = walk(nodes.take(k)).2;
            assert(out2 == out.push(join_path(st)));
            assert(leaf_line_names(nodes, k - 1) == names.push(nodes[k - 2].1));
            assert forall|m: int| 0 <= m < out2.len() implies ends_with(
                #[trigger] out2[m],
                leaf_line_names(nodes, k - 1)[m],
            ) by {
                if m < out.len() {
                    assert(out2[m] == out[m]);
                }
            }
        }
    }
}

/// Whatever its depths, a listing gives one path per leaf line (a line that
/// the next one is no deeper than, and the last line), in the order of those
/// lines, and each path ends with the name of its leaf line.
pub proof fn lemma_one_path_per_leaf_line(nodes: Seq<(int, Seq<char>)>)
    ensures
        leaf_paths(nodes).len() == leaf_line_names(nodes, nodes.len() as int).len(),
        forall|m: int|
            0 <= m < leaf_paths(nodes).len() ==> ends_with(
                #[trigger] leaf_paths(nodes)[m],
                leaf_line_names(nodes, nodes.len() as int)[m],
            ),
{
    if nodes.len() > 0 {
        let n = nodes.len() as int;
        lemma_walk_leaf_lines(nodes, n);
        assert(nodes.take(n) =~= nodes);
        let (st, prev, out) = walk(nodes);
        lemma_join_ends_with_last(st);
        let r = leaf_paths(nodes);
        assert(r == out.push(join_path(st)));
        assert forall|m: int| 0 <= m < r.len() implies ends_with(
            #[trigger] r[m],
            leaf_line_names(nodes, n)[m],
        ) by {
            if m < out.len() {
                assert(r[m] == out[m]);
            }
        }
    }
}

} // verus!
