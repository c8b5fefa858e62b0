//! Removal of the colour and cursor sequences that a listing may carry:
//! `ESC [`, then digits and semicolons, then one of `m`, `G`, `K`, `H`.
//! Every other character, a lone `ESC` among them, is kept as it is.

use vstd::prelude::*;
use crate::lines::chars_of;

verus! {

/// A character that may stand among a sequence's parameters.
pub open spec fn is_param(c: char) -> bool {
    ('0' <= c && c <= '9') || c == ';'
}

/// A character that ends a sequence.
pub open spec fn is_final(c: char) -> bool {
    c == 'm' || c == 'G' || c == 'K' || c == 'H'
}

/// `s[i..=j]` is a sequence: `ESC [`, parameters, a final character.
pub open spec fn sequence_at(s: Seq<char>, i: int, j: int) -> bool {
    &&& 0 <= i
    &&& i + 2 <= j < s.len()
    &&& s[i] == '\x1b'
    &&& s[i + 1] == '['
    &&& forall|k: int| i + 2 <= k < j ==> is_param(#[trigger] s[k])
    &&& is_final(s[j])
}

/// Whether a sequence stands anywhere in `s`.
pub open spec fn has_sequence(s: Seq<char>) -> bool {
    exists|i: int, j: int| sequence_at(s, i, j)
}

/// How many parameter characters end `b`.
pub open spec fn trailing_params(b: Seq<char>) -> nat
    decreases b.len(),
{
    if b.len() > 0 && is_param(b.last()) {
        1 + trailing_params(b.drop_last())
    } else {
        0
    }
}

/// Whether `b` ends with an unfinished sequence: `ESC [` and parameters.
pub open spec fn opens_sequence(b: Seq<char>) -> bool {
    let k = trailing_params(b) as int;
    b.len() >= k + 2 && b[b.len() - k - 1] == '[' && b[b.len() - k - 2] == '\x1b'
}

/// One character added to text that holds no sequence: when it finishes
/// one, the sequence goes; else the character is appended.
pub open spec fn strip_step(b: Seq<char>, c: char) -> Seq<char> {
    if is_final(c) && opens_sequence(b) {
        b.take(b.len() - trailing_params(b) - 2)
    } else {
        b.push(c)
    }
}

/// `s` with its sequences removed, read from left to right; a sequence that
/// closes up once an inner one is gone is removed as well, so that none is
/// left.
pub open spec fn sequences_removed(s: Seq<char>) -> Seq<char>
    decreases s.len(),
{
    if s.len() == 0 {
        s
    } else {
        strip_step(sequences_removed(s.drop_last()), s.last())
    }
}

proof fn lemma_trailing_params_exact(b: Seq<char>, k: int)
    requires
        0 <= k <= b.len(),
        forall|m: int| b.len() - k <= m < b.len() ==> is_param(#[trigger] b[m]),
        k == b.len() || !is_param(b[b.len() - k - 1]),
    ensures
        trailing_params(b) == k,
    decreases k,
{
    if k > 0 {
        let t = b.drop_last();
        assert forall|m: int| t.len() - (k - 1) <= m < t.len() implies is_param(#[trigger] t[m]) by {
            assert(t[m] == b[m]);
        }
        if k - 1 < t.len() {
            assert(t[t.len() - (k - 1) - 1] == b[b.len() - k - 1]);
        }
        lemma_trailing_params_exact(t, k - 1);
        assert(is_param(b[b.len() - 1]));
    } else if b.len() > 0 {
        assert(!is_param(b.last()));
    }
}

proof fn lemma_trailing_params(b: Seq<char>)
    ensures
        trailing_params(b) <= b.len(),
        forall|m: int| b.len() - trailing_params(b) <= m < b.len() ==> is_param(#[trigger] b[m]),
        trailing_params(b) < b.len() ==> !is_param(b[b.len() - trailing_params(b) - 1]),
    decreases b.len(),
{
    if b.len() > 0 && is_param(b.last()) {
        let t = b.drop_last();
        lemma_trailing_params(t);
        assert forall|m: int| b.len() - trailing_params(b) <= m < b.len() implies is_param(
            #[trigger] b[m],
        ) by {
            if m < b.len() - 1 {
                assert(b[m] == t[m]);
            }
        }
        if trailing_params(b) < b.len() {
            assert(b[b.len() - trailing_params(b) - 1] == t[t.len() - trailing_params(t) - 1]);
        }
    }
}

/// A sequence inside a prefix of `s` is a sequence of `s`.
proof fn lemma_prefix_clean(s: Seq<char>, n: int)
    requires
        0 <= n <= s.len(),
        !has_sequence(s),
    ensures
        !has_sequence(s.take(n)),
{
    let p = s.take(n);
    assert forall|i: int, j: int| !sequence_at(p, i, j) by {
        if sequence_at(p, i, j) {
            assert forall|k: int| i + 2 <= k < j implies is_param(#[trigger] s[k]) by {
                assert(p[k] == s[k]);
            }
            assert(sequence_at(s, i, j));
        }
    }
}

proof fn lemma_step_clean(b: Seq<char>, c: char)
    requires
        !has_sequence(b),
    ensures
        !has_sequence(strip_step(b, c)),
{
    lemma_trailing_params(b);
    if is_final(c) && opens_sequence(b) {
        lemma_prefix_clean(b, b.len() - trailing_params(b) - 2);
    } else {
        let r = b.push(c);
        assert forall|i: int, j: int| !sequence_at(r, i, j) by {
            if sequence_at(r, i, j) {
                if j < b.len() {
                    assert forall|k: int| i + 2 <= k < j implies is_param(#[trigger] b[k]) by {
                        assert(r[k] == b[k]);
                    }
                    assert(sequence_at(b, i, j));
                } else {
                    assert forall|m: int| b.len() - (j - i - 2) <= m < b.len() implies is_param(
                        #[trigger] b[m],
                    ) by {
                        assert(r[m] == b[m]);
                    }
                    assert(b[i + 1] == r[i + 1]);
                    assert(b[i] == r[i]);
                    lemma_trailing_params_exact(b, j - i - 2);
                }
            }
        }
    }
}

/// No sequence is left once they are removed.
pub proof fn lemma_removed_is_clean(s: Seq<char>)
    ensures
        !has_sequence(sequences_removed(s)),
    decreases s.len(),
{
    if s.len() == 0 {
        assert forall|i: int, j: int| !sequence_at(s, i, j) by {}
    } else {
        lemma_removed_is_clean(s.drop_last());
        lemma_step_clean(sequences_removed(s.drop_last()), s.last());
    }
}

/// Text that holds no sequence, text without `ESC` among it, is left as it is.
pub proof fn lemma_clean_is_kept(s: Seq<char>)
    requires
        !has_sequence(s),
    ensures
        sequences_removed(s) == s,
    decreases s.len(),
{
    if s.len() > 0 {
        let t = s.drop_last();
        lemma_prefix_clean(s, s.len() - 1);
        assert(s.take(s.len() - 1) =~= t);
        lemma_clean_is_kept(t);
        lemma_trailing_params(t);
        if is_final(s.last()) && opens_sequence(t) {
            let k = trailing_params(t) as int;
            let i = t.len() - k - 2;
            assert forall|m: int| i + 2 <= m < s.len() - 1 implies is_param(#[trigger] s[m]) by {
                assert(s[m] == t[m]);
            }
            assert(sequence_at(s, i, s.len() - 1));
        }
        assert(t.push(s.last()) =~= s);
    }
}

/// Removing the sequences a second time changes nothing.
pub proof fn lemma_removal_idempotent(s: Seq<char>)
    ensures
        sequences_removed(sequences_removed(s)) == sequences_removed(s),
{
    lemma_removed_is_clean(s);
    lemma_clean_is_kept(sequences_removed(s));
}

/// Relies on `String`'s `FromIterator<char>`: the characters, in order.
#[verifier::external_body]
fn string_of_chars(cs: &Vec<char>) -> (r: String)
    ensures
        r@ == cs@,
{
    cs.iter().collect()
}

/// Removes every colour and cursor sequence from `raw` and keeps all other
/// characters as they are. No sequence is left in the result, so removing
/// again changes nothing.
pub fn remove_escape_sequences(raw: &str) -> (r: String)
    ensures
        r@ == sequences_removed(raw@),
        !has_sequence(r@),
        !has_sequence(raw@) ==> r@ == raw@,
{
    let cs = chars_of(raw);
    let mut out: Vec<char> = Vec::new();
    let mut i: usize = 0;
    while i < cs.len()
        invariant
            i <= cs.len(),
            out@ == sequences_removed(cs@.take(i as int)),
        decreases cs.len() - i,
    {
        let c = cs[i];
        assert(cs@.take(i + 1).drop_last() =~= cs@.take(i as int));
        assert(cs@.take(i + 1).last() == c);
        if c == 'm' || c == 'G' || c == 'K' || c == 'H' {
            let n = out.len();
            let mut k: usize = 0;
            while k < n && (('0' <= out[n - 1 - k] && out[n - 1 - k] <= '9') || out[n - 1 - k]
                == ';')
                invariant
                    n == out.len(),
                    k <= n,
                    forall|m: int| n - k <= m < n ==> is_param(#[trigger] out@[m]),
                decreases n - k,
            {
                k = k + 1;
            }
            proof {
                lemma_trailing_params_exact(out@, k as int);
            }
            if n - k >= 2 && out[n - k - 1] == '[' && out[n - k - 2] == '\x1b' {
                out.truncate(n - k - 2);
            } else {
                out.push(c);
            }
        } else {
            out.push(c);
        }
        i = i + 1;
    }
    assert(cs@.take(cs.len() as int) =~= cs@);
    proof {
        lemma_removed_is_clean(raw@);
        if !has_sequence(raw@) {
            lemma_clean_is_kept(raw@);
        }
    }
    string_of_chars(&out)
}

} // verus!
