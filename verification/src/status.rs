//! The output formatter: captured subprocess output shaped into one
//! report line per path, with the specialized parsing of git's porcelain
//! branch-status header.

use crate::execute::CompletionOutcome;
use crate::execute::ExecutionResult;
use colored::Colorize;
use vstd::prelude::*;
use vstd::string::StrSliceExecFns;
use vstd::string::StringExecFns;

verus! {

// ---------------------------------------------------------------------------
// Lines
// ---------------------------------------------------------------------------
/// The lines of a text, split on the newline character as
/// `str::split('\n')` yields them: one line more than there are newlines,
/// empty lines kept.
pub open spec fn lines_of(s: Seq<char>) -> Seq<Seq<char>>
    decreases s.len(),
{
    if s.len() == 0 {
        seq![Seq::<char>::empty()]
    } else if s.last() == '\n' {
        lines_of(s.drop_last()).push(Seq::<char>::empty())
    } else {
        let prev = lines_of(s.drop_last());
        prev.update(prev.len() - 1, prev.last().push(s.last()))
    }
}

/// A text always has at least one line.
pub proof fn lemma_lines_of_nonempty(s: Seq<char>)
    ensures
        lines_of(s).len() >= 1,
    decreases s.len(),
{
    if s.len() > 0 {
        lemma_lines_of_nonempty(s.drop_last());
    }
}

/// Splits a text into its lines.
pub fn split_lines(s: &str) -> (r: Vec<String>)
    ensures
        r.deep_view() == lines_of(s@),
        r@.len() >= 1,
{
    let n = s.unicode_len();
    let mut done: Vec<String> = Vec::new();
    let mut start: usize = 0;
    let mut i: usize = 0;
    proof {
        assert(s@.take(0) =~= Seq::<char>::empty());
        assert(s@.subrange(0, 0) =~= Seq::<char>::empty());
        assert(done.deep_view().push(s@.subrange(0, 0)) =~= seq![Seq::<char>::empty()]);
        assert(lines_of(s@.take(0)) == seq![Seq::<char>::empty()]);
    }
    while i < n
        invariant
            start <= i <= n,
            n == s@.len(),
            done.deep_view().push(s@.subrange(start as int, i as int)) =~= lines_of(
                s@.take(i as int),
            ),
        decreases n - i,
    {
        let c = s.get_char(i);
        proof {
            assert(s@.take(i + 1).drop_last() =~= s@.take(i as int));
            assert(s@.take(i + 1).last() == s@[i as int]);
        }
        if c == '\n' {
            let ghost pre = done.deep_view();
            done.push(String::from_str(s.substring_char(start, i)));
            proof {
                assert(done.deep_view() =~= pre.push(s@.subrange(start as int, i as int)));
                assert(done.deep_view() == lines_of(s@.take(i as int)));
                assert(s@.subrange(i + 1, i + 1) =~= Seq::<char>::empty());
                assert(lines_of(s@.take(i + 1)) == lines_of(s@.take(i as int)).push(
                    Seq::<char>::empty(),
                ));
                assert(done.deep_view().push(s@.subrange(i + 1, i + 1)) =~= lines_of(
                    s@.take(i + 1),
                ));
            }
            start = i + 1;
        } else {
            proof {
                let prev = lines_of(s@.take(i as int));
                lemma_lines_of_nonempty(s@.take(i as int));
                assert(prev.last() == s@.subrange(start as int, i as int));
                assert(s@.subrange(start as int, i + 1) =~= s@.subrange(
                    start as int,
                    i as int,
                ).push(s@[i as int]));
                assert(prev.update(prev.len() - 1, prev.last().push(s@[i as int]))
                    =~= done.deep_view().push(s@.subrange(start as int, i + 1)));
            }
        }
        i = i + 1;
    }
    proof {
        assert(s@.take(n as int) =~= s@);
    }
    let ghost pre = done.deep_view();
    done.push(String::from_str(s.substring_char(start, n)));
    proof {
        assert(done.deep_view() =~= pre.push(s@.subrange(start as int, n as int)));
    }
    done
}

// ---------------------------------------------------------------------------
// Branch name
// ---------------------------------------------------------------------------
/// Whether a line carries the porcelain branch header marker `## `.
pub open spec fn has_branch_marker(line: Seq<char>) -> bool {
    line.len() >= 3 && line[0] == '#' && line[1] == '#' && line[2] == ' '
}

/// Whether the ellipsis separator `...` stands at position `i`.
pub open spec fn is_ellipsis_at(s: Seq<char>, i: int) -> bool {
    i + 3 <= s.len() && s[i] == '.' && s[i + 1] == '.' && s[i + 2] == '.'
}

/// The positions of the ellipsis separators in `s`, scanning from `from`:
/// leftmost first, matched without overlap.
pub open spec fn ellipsis_positions_from(s: Seq<char>, from: int) -> Seq<int>
    decreases s.len() - from,
    when 0 <= from <= s.len()
{
    if from + 3 > s.len() {
        Seq::empty()
    } else if is_ellipsis_at(s, from) {
        seq![from] + ellipsis_positions_from(s, from + 3)
    } else {
        ellipsis_positions_from(s, from + 1)
    }
}

/// The branch name of a header line: the marker stripped, then the
/// remainder truncated at the midpoint of its ellipsis-separated tokens —
/// the first half of the tokens survives, joined back by the separator.
pub open spec fn branch_of_header(line: Seq<char>) -> Seq<char>
    recommends
        has_branch_marker(line),
{
    let rest = line.subrange(3, line.len() as int);
    let ps = ellipsis_positions_from(rest, 0);
    let k = ps.len() as int;
    if k == 0 {
        Seq::empty()
    } else {
        rest.subrange(0, ps[(k + 1) / 2 - 1])
    }
}

/// The branch field of a result's lines: the first line parsed when it
/// carries the header marker; absent otherwise.
pub open spec fn branch_of_lines(lines: Seq<Seq<char>>) -> Option<Seq<char>> {
    if lines.len() > 0 && has_branch_marker(lines[0]) {
        Some(branch_of_header(lines[0]))
    } else {
        None
    }
}

/// Extracts the branch name from the first line, when that line carries
/// the porcelain branch header marker.
pub fn get_branch(lines: &Vec<String>) -> (r: Option<String>)
    ensures
        r.deep_view() == branch_of_lines(lines.deep_view()),
{
    if lines.len() == 0 {
        return None;
    }
    let line = &lines[0];
    proof {
        assert(lines.deep_view()[0] == line@);
    }
    let n = line.as_str().unicode_len();
    if n < 3 {
        return None;
    }
    let s = line.as_str();
    if !(s.get_char(0) == '#' && s.get_char(1) == '#' && s.get_char(2) == ' ') {
        return None;
    }
    let rest = s.substring_char(3, n);
    let rn = n - 3;
    let mut pos: Vec<usize> = Vec::new();
    let mut i: usize = 0;
    proof {
        assert(pos@.map_values(|p: usize| p as int) =~= Seq::<int>::empty());
    }
    while rn >= 3 && i <= rn - 3
        invariant
            i <= rn,
            rn == rest@.len(),
            rest@ == line@.subrange(3, n as int),
            n == line@.len(),
            ellipsis_positions_from(rest@, 0) =~= pos@.map_values(|p: usize| p as int)
                + ellipsis_positions_from(rest@, i as int),
            forall|t: int| 0 <= t < pos@.len() ==> #[trigger] pos@[t] + 3 <= rn,
            pos@.len() <= i,
        decreases rn - i,
    {
        let ghost mapped = pos@.map_values(|p: usize| p as int);
        if rest.get_char(i) == '.' && rest.get_char(i + 1) == '.' && rest.get_char(i + 2) == '.' {
            proof {
                assert(is_ellipsis_at(rest@, i as int));
                assert(ellipsis_positions_from(rest@, i as int) == seq![i as int]
                    + ellipsis_positions_from(rest@, i + 3));
            }
            pos.push(i);
            proof {
                assert(pos@.map_values(|p: usize| p as int) =~= mapped.push(i as int));
                assert(mapped + (seq![i as int] + ellipsis_positions_from(rest@, i + 3))
                    =~= mapped.push(i as int) + ellipsis_positions_from(rest@, i + 3));
            }
            i = i + 3;
        } else {
            proof {
                assert(!is_ellipsis_at(rest@, i as int));
                assert(ellipsis_positions_from(rest@, i as int) == ellipsis_positions_from(
                    rest@,
                    i + 1,
                ));
            }
            i = i + 1;
        }
    }
    proof {
        assert(i + 3 > rn);
        assert(ellipsis_positions_from(rest@, i as int) =~= Seq::<int>::empty());
        assert(ellipsis_positions_from(rest@, 0) =~= pos@.map_values(|p: usize| p as int));
    }
    let k = pos.len();
    if k == 0 {
        proof {
            assert(branch_of_header(line@) =~= Seq::<char>::empty());
        }
        Some(String::new())
    } else {
        let m = (k + 1) / 2;
        let p = pos[m - 1];
        proof {
            assert(pos@.map_values(|p: usize| p as int)[m - 1] == p as int);
        }
        Some(String::from_str(rest.substring_char(0, p)))
    }
}

// ---------------------------------------------------------------------------
// Divergence marker
// ---------------------------------------------------------------------------
/// Where the text after the last ` [` separator starts; the line's start
/// when the separator does not occur.
pub open spec fn tail_start_after_last_open(s: Seq<char>) -> int
    decreases s.len(),
{
    if s.len() < 2 {
        0
    } else if s[s.len() - 2] == ' ' && s[s.len() - 1] == '[' {
        s.len() as int
    } else {
        tail_start_after_last_open(s.drop_last())
    }
}

/// The separator tail starts inside the line.
pub proof fn lemma_tail_start_bounds(s: Seq<char>)
    ensures
        0 <= tail_start_after_last_open(s) <= s.len(),
    decreases s.len(),
{
    if s.len() >= 2 && !(s[s.len() - 2] == ' ' && s[s.len() - 1] == '[') {
        lemma_tail_start_bounds(s.drop_last());
    }
}

/// The divergence marker of a line: when the line ends with `]`, an
/// opening bracket followed by the text after the last ` [` separator;
/// absent otherwise.
pub open spec fn behindness_of_line(s: Seq<char>) -> Option<Seq<char>> {
    if s.len() > 0 && s[s.len() - 1] == ']' {
        Some(seq!['['] + s.subrange(tail_start_after_last_open(s), s.len() as int))
    } else {
        None
    }
}

/// The divergence field of a result's lines, read from the first line.
pub open spec fn behindness_of_lines(lines: Seq<Seq<char>>) -> Option<Seq<char>> {
    if lines.len() > 0 {
        behindness_of_line(lines[0])
    } else {
        None
    }
}

/// Extracts the upstream divergence marker (such as `[behind 2]`) from
/// the first line, when that line ends with a closing bracket.
pub fn get_behindness(lines: &Vec<String>) -> (r: Option<String>)
    ensures
        r.deep_view() == behindness_of_lines(lines.deep_view()),
{
    if lines.len() == 0 {
        return None;
    }
    let line = &lines[0];
    proof {
        assert(lines.deep_view()[0] == line@);
    }
    let s = line.as_str();
    let n = s.unicode_len();
    if n == 0 || !(s.get_char(n - 1) == ']') {
        return None;
    }
    let mut m: usize = n;
    let mut start: usize = 0;
    let mut found = false;
    proof {
        assert(line@.take(n as int) =~= line@);
    }
    while m >= 2 && !found
        invariant
            m <= n,
            n == line@.len(),
            s@ == line@,
            !found ==> tail_start_after_last_open(line@) == tail_start_after_last_open(
                line@.take(m as int),
            ),
            found ==> tail_start_after_last_open(line@) == start as int,
            !found ==> start == 0,
            start <= n,
        decreases (if found { 0int } else { 1int }), m,
    {
        let ghost prefix = line@.take(m as int);
        proof {
            assert(prefix.len() == m);
            assert(prefix[m - 2] == line@[m - 2]);
            assert(prefix[m - 1] == line@[m - 1]);
            assert(prefix.drop_last() =~= line@.take(m - 1));
        }
        if s.get_char(m - 2) == ' ' && s.get_char(m - 1) == '[' {
            found = true;
            start = m;
        } else {
            m = m - 1;
        }
    }
    proof {
        if !found {
            assert(tail_start_after_last_open(line@.take(m as int)) == 0);
        }
        lemma_tail_start_bounds(line@);
    }
    let mut out = String::from_str("[");
    proof {
        reveal_strlit("[");
        assert(out@ =~= seq!['[']);
    }
    out.append(s.substring_char(start, n));
    proof {
        assert(start as int == tail_start_after_last_open(line@));
        assert(out@ =~= seq!['['] + line@.subrange(tail_start_after_last_open(line@), n as int));
    }
    Some(out)
}

// ---------------------------------------------------------------------------
// The report line
// ---------------------------------------------------------------------------
/// `n` spaces.
pub open spec fn spaces(n: nat) -> Seq<char> {
    Seq::new(n, |i: int| ' ')
}

/// The width of the path column.
pub const PATH_COLUMN_WIDTH: usize = 50;

/// The padding after the path: the path is padded to the fixed column
/// width, with at least one separating space however long the path is.
pub open spec fn path_padding(path_len: nat) -> nat {
    if path_len < PATH_COLUMN_WIDTH { (PATH_COLUMN_WIDTH - path_len) as nat } else { 1 }
}

/// One report line: the path padded to the column, the branch field, and
/// — when present — one space and the divergence field.
pub open spec fn compose_spec(
    path: Seq<char>,
    branch: Seq<char>,
    divergence: Option<Seq<char>>,
) -> Seq<char> {
    let base = path + spaces(path_padding(path.len())) + branch;
    match divergence {
        Some(d) => base + seq![' '] + d,
        None => base,
    }
}

/// Lays one result's fields out as its report line.
pub fn compose_status_line(path: &String, branch: &String, divergence: Option<&String>) -> (r:
    String)
    ensures
        r@ == compose_spec(
            path@,
            branch@,
            match divergence {
                Some(d) => Some(d@),
                None => None,
            },
        ),
{
    let mut r = path.clone();
    let plen = path.as_str().unicode_len();
    let pad: usize = if plen < PATH_COLUMN_WIDTH {
        PATH_COLUMN_WIDTH - plen
    } else {
        1
    };
    let mut i: usize = 0;
    proof {
        assert(r@ + spaces(0) =~= path@);
    }
    while i < pad
        invariant
            i <= pad,
            r@ == path@ + spaces(i as nat),
        decreases pad - i,
    {
        r.append(" ");
        proof {
            reveal_strlit(" ");
            assert(" "@ =~= seq![' ']);
            assert(path@ + spaces((i + 1) as nat) =~= (path@ + spaces(i as nat)) + " "@);
        }
        i = i + 1;
    }
    r.append(branch.as_str());
    let ghost base = path@ + spaces(path_padding(path@.len())) + branch@;
    proof {
        assert(r@ =~= base);
    }
    match divergence {
        Some(d) => {
            r.append(" ");
            proof {
                reveal_strlit(" ");
                assert(" "@ =~= seq![' ']);
            }
            r.append(d.as_str());
            proof {
                assert(r@ =~= base + seq![' '] + d@);
            }
            r
        },
        None => r,
    }
}

// ---------------------------------------------------------------------------
// Formatting a result
// ---------------------------------------------------------------------------
/// What `String::from_utf8_lossy` yields for these bytes: a function of
/// the bytes alone.
pub uninterp spec fn lossy_decode(bytes: Seq<u8>) -> Seq<char>;

/// Relies on `String::from_utf8_lossy` of std: the decoding depends on
/// the bytes alone, and bytes that are valid UTF-8 decode exactly, with
/// no replacement.
#[verifier::external_body]
fn lossy_to_string(bytes: &Vec<u8>) -> (r: String)
    ensures
        r@ == lossy_decode(bytes@),
        vstd::utf8::valid_utf8(bytes@) ==> r@ == vstd::utf8::decode_utf8(bytes@),
{
    String::from_utf8_lossy(bytes.as_slice()).into_owned()
}

/// Relies on `colored::Colorize::yellow` and `ColoredString`'s `Display`:
/// the rendering either hands the text back unchanged or wraps it in
/// escape sequences — inserting, never deleting — so it never shortens
/// the text. Whether color is applied depends on the environment, so no
/// more is assumed of the result.
#[verifier::external_body]
fn style_divergence(s: &String) -> (r: String)
    ensures
        r@.len() >= s@.len(),
{
    s.as_str().yellow().to_string()
}

/// The branch placeholder shown when no header parses.
pub open spec fn unknown_branch_marker() -> Seq<char> {
    "<UNKNOWN>"@
}

/// Shapes one path's captured output into its report line: the path
/// padded to the column, then the branch parsed from the first line — or
/// the placeholder, and then no divergence field, when no header parses —
/// and then the styled divergence marker when one is present.
pub fn format_output(path: &String, out: &Vec<u8>) -> (r: String)
    ensures
        ({
            let lines = lines_of(lossy_decode(out@));
            match branch_of_lines(lines) {
                None => r@ == compose_spec(path@, unknown_branch_marker(), None),
                Some(b) => match behindness_of_lines(lines) {
                    None => r@ == compose_spec(path@, b, None),
                    Some(d) => exists|styled: Seq<char>|
                        #![auto]
                        styled.len() >= d.len() && r@ == compose_spec(path@, b, Some(styled)),
                },
            }
        }),
{
    let decoded = lossy_to_string(out);
    let lines = split_lines(decoded.as_str());
    match get_branch(&lines) {
        Some(b) => {
            match get_behindness(&lines) {
                Some(d) => {
                    let styled = style_divergence(&d);
                    compose_status_line(path, &b, Some(&styled))
                },
                None => compose_status_line(path, &b, None),
            }
        },
        None => {
            let placeholder = String::from_str("<UNKNOWN>");
            compose_status_line(path, &placeholder, None)
        },
    }
}

/// The generic report for one result, used for arbitrary commands: the
/// path on its own line, followed by the decoded captured output streams;
/// for a subprocess that could not be launched, the path and the failure
/// reason on one line.
pub fn format_generic(result: &ExecutionResult) -> (r: String)
    ensures
        match result.outcome {
            CompletionOutcome::LaunchFailed(ref reason) => r@ == result.path@ + seq![' ']
                + reason@,
            _ => r@ == result.path@ + seq!['\n'] + lossy_decode(result.stdout@) + lossy_decode(
                result.stderr@,
            ),
        },
{
    match &result.outcome {
        CompletionOutcome::LaunchFailed(reason) => {
            let mut r = result.path.clone();
            r.append(" ");
            proof {
                reveal_strlit(" ");
                assert(" "@ =~= seq![' ']);
            }
            r.append(reason.as_str());
            proof {
                assert(r@ =~= result.path@ + seq![' '] + reason@);
            }
            r
        },
        _ => {
            let mut r = result.path.clone();
            r.append("\n");
            proof {
                reveal_strlit("\n");
                assert("\n"@ =~= seq!['\n']);
            }
            let stdout_text = lossy_to_string(&result.stdout);
            r.append(stdout_text.as_str());
            let stderr_text = lossy_to_string(&result.stderr);
            r.append(stderr_text.as_str());
            proof {
                assert(r@ =~= result.path@ + seq!['\n'] + lossy_decode(result.stdout@)
                    + lossy_decode(result.stderr@));
            }
            r
        },
    }
}

} // verus!
