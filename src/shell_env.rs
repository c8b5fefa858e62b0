//! Reading the environment that a login shell prints between two delimiters.

use vstd::prelude::*;
use crate::escapes::{escapes_stripped, strip_escapes};
use crate::lines::{chars_of, line_ranges, ranges_select, text_lines};
use crate::search::{find_from, find_in, occurs_at};

verus! {

#[verifier::external_type_specification]
#[verifier::external_body]
pub struct ExIoError(std::io::Error);

/// Why the shell's environment could not be read.
pub enum Error {
    /// The shell could not be started.
    Shell(std::io::Error),
    /// The shell's output holds no delimiter; the output itself.
    InvalidOutput(String),
    /// The shell reported failure; what it wrote to its error stream.
    EchoFailed(String),
}

/// The marker that the shell is asked to print before and after `env`.
pub open spec fn env_delimiter() -> Seq<char> {
    seq![
        '_', 'S', 'H', 'E', 'L', 'L', '_', 'E', 'N', 'V', '_', 'D', 'E', 'L', 'I', 'M', 'I', 'T', 'E',
        'R', '_',
    ]
}

/// The text between the first delimiter in `s` and the next one (or the end
/// of `s` when there is no next one); none when `s` holds no delimiter.
pub open spec fn delimited_env(s: Seq<char>) -> Option<Seq<char>> {
    let d = env_delimiter();
    let first = find_from(s, d, 0);
    if first < 0 {
        None
    } else {
        let start = first + d.len();
        let second = find_from(s, d, start);
        if second < 0 {
            Some(s.subrange(start, s.len() as int))
        } else {
            Some(s.subrange(start, second))
        }
    }
}

/// A `NAME=value` line split at its first `=`; none without one.
pub open spec fn assignment_of(l: Seq<char>) -> Option<(Seq<char>, Seq<char>)> {
    let p = find_from(l, seq!['='], 0);
    if p < 0 {
        None
    } else {
        Some((l.take(p), l.skip(p + 1)))
    }
}

/// The assignments of the non-empty lines of `ls` that hold an `=`, in order.
pub open spec fn assignments(ls: Seq<Seq<char>>) -> Seq<(Seq<char>, Seq<char>)>
    decreases ls.len(),
{
    if ls.len() == 0 {
        Seq::empty()
    } else {
        let before = assignments(ls.drop_last());
        let l = ls.last();
        if l.len() > 0 && assignment_of(l) is Some {
            before.push(assignment_of(l)->0)
        } else {
            before
        }
    }
}

/// The views of a sequence of pairs of strings.
pub open spec fn pair_views(v: Seq<(String, String)>) -> Seq<(Seq<char>, Seq<char>)> {
    v.map_values(|p: (String, String)| (p.0@, p.1@))
}

/// The delimiter, as characters.
fn delimiter_chars() -> (r: Vec<char>)
    ensures
        r@ == env_delimiter(),
{
    let r = vec![
        '_', 'S', 'H', 'E', 'L', 'L', '_', 'E', 'N', 'V', '_', 'D', 'E', 'L', 'I', 'M', 'I', 'T', 'E',
        'R', '_',
    ];
    assert(r@ =~= env_delimiter());
    r
}

/// Reads the `NAME=value` lines of `text`: each non-empty line with an `=`
/// gives the part before its first `=` and the part after it; other lines are
/// passed over.
pub fn env_assignments(text: &str) -> (r: Vec<(String, String)>)
    ensures
        pair_views(r@) == assignments(text_lines(text@)),
{
    let cs = chars_of(text);
    let lines = line_ranges(&cs);
    let ghost ls = text_lines(cs@);
    let eq = vec!['='];
    assert(eq@ =~= seq!['=']);
    let mut r: Vec<(String, String)> = Vec::new();
    let mut k: usize = 0;
    while k < lines.len()
        invariant
            k <= lines.len(),
            text@ == cs@,
            eq@ == seq!['='],
            ranges_select(cs@, lines@, ls),
            pair_views(r@) == assignments(ls.take(k as int)),
        decreases lines.len() - k,
    {
        let (a, b) = lines[k];
        let ghost l = ls[k as int];
        assert(ls.take(k + 1).drop_last() =~= ls.take(k as int));
        assert(l == cs@.subrange(a as int, b as int));
        if a < b {
            let line = text.substring_char(a, b);
            let lcs = chars_of(line);
            match find_in(&lcs, &eq, 0) {
                Some(p) => {
                    let name = String::from_str(line.substring_char(0, p));
                    let value = String::from_str(line.substring_char(p + 1, b - a));
                    let ghost before = pair_views(r@);
                    r.push((name, value));
                    assert(pair_views(r@) =~= before.push((l.take(p as int), l.skip(p + 1))));
                },
                None => {},
            }
        }
        k = k + 1;
    }
    assert(ls.take(lines.len() as int) =~= ls);
    r
}

/// What the shell's run comes to: when it failed, its error output; when its
/// output holds no delimiter, that output; else the assignments of the text
/// after the first delimiter, up to the next one, with escape sequences
/// stripped.
pub fn shell_env_vars(succeeded: bool, stdout: &str, stderr: &str) -> (r: Result<
    Vec<(String, String)>,
    Error,
>)
    ensures
        !succeeded ==> (match r {
            Err(Error::EchoFailed(e)) => e@ == stderr@,
            _ => false,
        }),
        succeeded && delimited_env(stdout@) is None ==> (match r {
            Err(Error::InvalidOutput(o)) => o@ == stdout@,
            _ => false,
        }),
        succeeded && delimited_env(stdout@) is Some ==> (match r {
            Ok(v) => pair_views(v@) == assignments(
                text_lines(escapes_stripped(delimited_env(stdout@)->0)),
            ),
            _ => false,
        }),
{
    if !succeeded {
        return Err(Error::EchoFailed(String::from_str(stderr)));
    }
    let cs = chars_of(stdout);
    let d = delimiter_chars();
    match find_in(&cs, &d, 0) {
        None => Err(Error::InvalidOutput(String::from_str(stdout))),
        Some(first) => {
            assert(occurs_at(cs@, d@, first as int));
            assert(first + d@.len() <= cs@.len());
            let start = first + d.len();
            let end = match find_in(&cs, &d, start) {
                Some(second) => second,
                None => cs.len(),
            };
            let segment = stdout.substring_char(start, end);
            let plain = strip_escapes(segment);
            Ok(env_assignments(plain.as_str()))
        },
    }
}

} // verus!
