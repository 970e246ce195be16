//! Line-level unified diff.
//!
//! The diff is a real LCS-based unified diff: the lines of both inputs are
//! aligned by a longest-common-subsequence edit script, and the changes are
//! grouped into hunks with up to three lines of surrounding context.
use vstd::prelude::*;
use vstd::utf8::*;
use vstd::string::StringSliceAdditionalSpecFns;
use crate::text::{decimal, push_char, push_decimal, str_eq, lemma_view_is_decoded, lemma_boundary_at, lemma_boundary_after_ascii_head};
use vstd::string::StringExecFns;

verus! {

/// One step of the line-level edit script between two files.
#[derive(Clone, Copy, PartialEq, Eq, Structural, Debug)]
pub enum Op {
    Equal,
    Delete,
    Insert,
}

/// The newline byte.
pub const NEWLINE: u8 = 0x0A;

/// The carriage-return byte.
pub const CARRIAGE_RETURN: u8 = 0x0D;

/// Upper bound on the number of cells (`n * m`) of the LCS table. Pairs of
/// inputs with more lines than that get a placeholder hunk instead of a diff.
pub const MAX_DIFF_CELLS: usize = 50_000_000;

/// Lines of context kept around each change.
pub const CONTEXT: usize = 3;

// ---------------------------------------------------------------------------
// Splitting into lines

/// Index of the first occurrence of `x` in `b`, or -1 when there is none.
pub open spec fn index_of_byte(b: Seq<u8>, x: u8) -> int
    decreases b.len(),
{
    if b.len() == 0 {
        -1
    } else if b[0] == x {
        0
    } else {
        let r = index_of_byte(b.drop_first(), x);
        if r < 0 {
            -1
        } else {
            r + 1
        }
    }
}

pub proof fn lemma_index_of_byte(b: Seq<u8>, x: u8)
    ensures
        -1 <= index_of_byte(b, x) < b.len(),
        index_of_byte(b, x) >= 0 ==> b[index_of_byte(b, x)] == x,
        index_of_byte(b, x) >= 0 ==> forall|j: int| 0 <= j < index_of_byte(b, x) ==> b[j] != x,
        index_of_byte(b, x) < 0 ==> forall|j: int| 0 <= j < b.len() ==> b[j] != x,
    decreases b.len(),
{
    if b.len() > 0 && b[0] != x {
        lemma_index_of_byte(b.drop_first(), x);
        assert forall|j: int| 1 <= j < b.len() implies b[j] == b.drop_first()[j - 1] by {}
    }
}

/// The index found by a left-to-right scan is the first occurrence.
pub proof fn lemma_index_of_byte_at(b: Seq<u8>, x: u8, i: int)
    requires
        0 <= i <= b.len(),
        forall|j: int| 0 <= j < i ==> b[j] != x,
        i < b.len() ==> b[i] == x,
    ensures
        index_of_byte(b, x) == if i < b.len() { i } else { -1 },
    decreases b.len(),
{
    if b.len() > 0 && i > 0 {
        assert forall|j: int| 0 <= j < i - 1 implies b.drop_first()[j] != x by {
            assert(b.drop_first()[j] == b[j + 1]);
        }
        lemma_index_of_byte_at(b.drop_first(), x, i - 1);
    }
}

/// `b` split at every occurrence of `sep`, as `str::split` does: `n` separators
/// give `n + 1` pieces, empty pieces included.
pub open spec fn split_on_byte(b: Seq<u8>, sep: u8) -> Seq<Seq<u8>>
    decreases b.len(),
{
    let k = index_of_byte(b, sep);
    if k < 0 {
        seq![b]
    } else {
        proof {
            lemma_index_of_byte(b, sep);
        }
        seq![b.take(k)] + split_on_byte(b.skip(k + 1), sep)
    }
}

/// A line with one trailing carriage return removed, if it has one.
pub open spec fn strip_cr(line: Seq<u8>) -> Seq<u8> {
    if line.len() > 0 && line.last() == CARRIAGE_RETURN {
        line.drop_last()
    } else {
        line
    }
}

/// The lines of `s`: its UTF-8 bytes split at every `\n`, each piece without a
/// trailing `\r`. A final `\n` gives a last, empty line, so `"a\n"` and `"a"`
/// have different lines; `"a\r\n"` and `"a\n"` have the same ones.
pub open spec fn spec_split_lines(s: Seq<char>) -> Seq<Seq<char>> {
    split_on_byte(encode_utf8(s), NEWLINE).map_values(|p: Seq<u8>| decode_utf8(strip_cr(p)))
}

// ---------------------------------------------------------------------------
// The edit script

/// Length of a longest common subsequence of `a[i..]` and `b[j..]`.
pub open spec fn lcs_len<T>(a: Seq<T>, b: Seq<T>, i: nat, j: nat) -> nat
    decreases a.len() - i, b.len() - j,
{
    if i >= a.len() || j >= b.len() {
        0
    } else if a[i as int] == b[j as int] {
        lcs_len(a, b, i + 1, j + 1) + 1
    } else {
        let d = lcs_len(a, b, i + 1, j);
        let r = lcs_len(a, b, i, j + 1);
        if d >= r {
            d
        } else {
            r
        }
    }
}

/// The edit script from `a[i..]` to `b[j..]`: equal lines are kept, and where
/// the lines differ the step that keeps the longer common subsequence is taken,
/// a deletion on a tie. Each step carries the indices into `a` and `b` reached.
pub open spec fn spec_edit_script<T>(a: Seq<T>, b: Seq<T>, i: nat, j: nat) -> Seq<(Op, usize, usize)>
    decreases a.len() - i, b.len() - j,
{
    if i < a.len() && j < b.len() {
        if a[i as int] == b[j as int] {
            seq![(Op::Equal, i as usize, j as usize)] + spec_edit_script(a, b, i + 1, j + 1)
        } else if lcs_len(a, b, i + 1, j) >= lcs_len(a, b, i, j + 1) {
            seq![(Op::Delete, i as usize, j as usize)] + spec_edit_script(a, b, i + 1, j)
        } else {
            seq![(Op::Insert, i as usize, j as usize)] + spec_edit_script(a, b, i, j + 1)
        }
    } else if i < a.len() {
        seq![(Op::Delete, i as usize, j as usize)] + spec_edit_script(a, b, i + 1, j)
    } else if j < b.len() {
        seq![(Op::Insert, i as usize, j as usize)] + spec_edit_script(a, b, i, j + 1)
    } else {
        seq![]
    }
}

/// The lines of `a` that a script keeps or deletes, in script order.
pub open spec fn script_source<T>(a: Seq<T>, s: Seq<(Op, usize, usize)>) -> Seq<T>
    decreases s.len(),
{
    if s.len() == 0 {
        seq![]
    } else {
        let rest = script_source(a, s.drop_first());
        match s[0].0 {
            Op::Insert => rest,
            _ => seq![a[s[0].1 as int]] + rest,
        }
    }
}

/// The lines that a script produces: kept lines of `a` and inserted lines of `b`.
pub open spec fn script_target<T>(a: Seq<T>, b: Seq<T>, s: Seq<(Op, usize, usize)>) -> Seq<T>
    decreases s.len(),
{
    if s.len() == 0 {
        seq![]
    } else {
        let rest = script_target(a, b, s.drop_first());
        match s[0].0 {
            Op::Equal => seq![a[s[0].1 as int]] + rest,
            Op::Delete => rest,
            Op::Insert => seq![b[s[0].2 as int]] + rest,
        }
    }
}

/// Number of kept (`Equal`) steps of a script.
pub open spec fn count_equal(s: Seq<(Op, usize, usize)>) -> nat
    decreases s.len(),
{
    if s.len() == 0 {
        0
    } else {
        count_equal(s.drop_first()) + if s[0].0 == Op::Equal { 1nat } else { 0nat }
    }
}

/// True when every step of the script keeps a line.
pub open spec fn all_equal(s: Seq<(Op, usize, usize)>) -> bool {
    forall|k: int| 0 <= k < s.len() ==> #[trigger] s[k].0 == Op::Equal
}

/// Where the steps of a script point: the indices they carry are in range.
pub open spec fn script_in_bounds(len_a: nat, len_b: nat, s: Seq<(Op, usize, usize)>) -> bool {
    forall|k: int|
        0 <= k < s.len() ==> {
            &&& (#[trigger] s[k]).0 != Op::Insert ==> s[k].1 < len_a
            &&& s[k].0 != Op::Delete ==> s[k].2 < len_b
        }
}

pub proof fn lemma_edit_script<T>(a: Seq<T>, b: Seq<T>, i: nat, j: nat)
    requires
        i <= a.len(),
        j <= b.len(),
        a.len() <= usize::MAX,
        b.len() <= usize::MAX,
    ensures
        script_source(a, spec_edit_script(a, b, i, j)) == a.skip(i as int),
        script_target(a, b, spec_edit_script(a, b, i, j)) == b.skip(j as int),
        count_equal(spec_edit_script(a, b, i, j)) == lcs_len(a, b, i, j),
        script_in_bounds(a.len(), b.len(), spec_edit_script(a, b, i, j)),
        forall|k: int|
            0 <= k < spec_edit_script(a, b, i, j).len() && (#[trigger] spec_edit_script(a, b, i, j)[k]).0 == Op::Equal
                ==> a[spec_edit_script(a, b, i, j)[k].1 as int] == b[spec_edit_script(a, b, i, j)[k].2 as int],
    decreases a.len() - i, b.len() - j,
{
    let s = spec_edit_script(a, b, i, j);
    if i < a.len() || j < b.len() {
        let (ni, nj): (nat, nat) = if i < a.len() && j < b.len() {
            if a[i as int] == b[j as int] {
                (i + 1, j + 1)
            } else if lcs_len(a, b, i + 1, j) >= lcs_len(a, b, i, j + 1) {
                (i + 1, j)
            } else {
                (i, j + 1)
            }
        } else if i < a.len() {
            (i + 1, j)
        } else {
            (i, j + 1)
        };
        lemma_edit_script(a, b, ni, nj);
        assert(s.drop_first() =~= spec_edit_script(a, b, ni, nj));
        lemma_script_cons(a, b, s, i, j);
    } else {
        assert(a.skip(i as int) =~= seq![]);
        assert(b.skip(j as int) =~= seq![]);
    }
}

proof fn lemma_script_cons<T>(a: Seq<T>, b: Seq<T>, s: Seq<(Op, usize, usize)>, i: nat, j: nat)
    requires
        i <= a.len(),
        j <= b.len(),
        a.len() <= usize::MAX,
        b.len() <= usize::MAX,
        s == spec_edit_script(a, b, i, j),
        s.len() > 0,
        s[0].1 == i,
        s[0].2 == j,
        s[0].0 == Op::Equal ==> i < a.len() && j < b.len() && a[i as int] == b[j as int],
        s[0].0 == Op::Delete ==> i < a.len(),
        s[0].0 == Op::Insert ==> j < b.len(),
        ({
            let (ni, nj) = match s[0].0 {
                Op::Equal => (i + 1, j + 1),
                Op::Delete => (i + 1, j),
                Op::Insert => (i, j + 1),
            };
            &&& s.drop_first() == spec_edit_script(a, b, ni, nj)
            &&& script_source(a, s.drop_first()) == a.skip(ni as int)
            &&& script_target(a, b, s.drop_first()) == b.skip(nj as int)
            &&& script_in_bounds(a.len(), b.len(), s.drop_first())
            &&& forall|k: int|
                0 <= k < s.drop_first().len() && (#[trigger] s.drop_first()[k]).0 == Op::Equal
                    ==> a[s.drop_first()[k].1 as int] == b[s.drop_first()[k].2 as int]
        }),
    ensures
        script_source(a, s) == a.skip(i as int),
        script_target(a, b, s) == b.skip(j as int),
        script_in_bounds(a.len(), b.len(), s),
        forall|k: int|
            0 <= k < s.len() && (#[trigger] s[k]).0 == Op::Equal ==> a[s[k].1 as int] == b[s[k].2 as int],
{
    let t = s.drop_first();
    assert forall|k: int| 1 <= k < s.len() implies s[k] == t[k - 1] by {}
    if s[0].0 != Op::Insert {
        assert(a.skip(i as int) =~= seq![a[i as int]] + a.skip(i + 1 as int));
    }
    if s[0].0 != Op::Delete {
        assert(b.skip(j as int) =~= seq![b[j as int]] + b.skip(j + 1 as int));
    }
    assert forall|k: int| 0 <= k < s.len() implies {
        &&& (#[trigger] s[k]).0 != Op::Insert ==> s[k].1 < a.len()
        &&& s[k].0 != Op::Delete ==> s[k].2 < b.len()
    } by {
        if k > 0 {
            assert(s[k] == t[k - 1]);
        }
    }
    assert forall|k: int| 0 <= k < s.len() && (#[trigger] s[k]).0 == Op::Equal implies a[s[k].1 as int] == b[s[k].2 as int] by {
        if k > 0 {
            assert(s[k] == t[k - 1]);
        }
    }
}

/// A script that keeps every line moves nowhere: its source and target agree.
proof fn lemma_all_equal_source_target<T>(a: Seq<T>, b: Seq<T>, s: Seq<(Op, usize, usize)>)
    requires
        all_equal(s),
        forall|k: int|
            0 <= k < s.len() && (#[trigger] s[k]).0 == Op::Equal ==> a[s[k].1 as int] == b[s[k].2 as int],
    ensures
        script_source(a, s) == script_target(a, b, s),
    decreases s.len(),
{
    if s.len() > 0 {
        let t = s.drop_first();
        assert forall|k: int| 0 <= k < t.len() implies #[trigger] t[k].0 == Op::Equal by {
            assert(t[k] == s[k + 1]);
        }
        assert forall|k: int| 0 <= k < t.len() && (#[trigger] t[k]).0 == Op::Equal implies a[t[k].1 as int] == b[t[k].2 as int] by {
            assert(t[k] == s[k + 1]);
        }
        assert(s[0].0 == Op::Equal);
        lemma_all_equal_source_target(a, b, t);
    }
}

/// The script between a sequence and itself keeps every line.
proof fn lemma_edit_script_same<T>(a: Seq<T>, i: nat)
    requires
        i <= a.len(),
    ensures
        all_equal(spec_edit_script(a, a, i, i)),
    decreases a.len() - i,
{
    let s = spec_edit_script(a, a, i, i);
    if i < a.len() {
        lemma_edit_script_same(a, i + 1);
        let t = spec_edit_script(a, a, i + 1, i + 1);
        assert(s == seq![(Op::Equal, i as usize, i as usize)] + t);
        assert forall|k: int| 0 <= k < s.len() implies #[trigger] s[k].0 == Op::Equal by {
            if k > 0 {
                assert(s[k] == t[k - 1]);
            }
        }
    }
}

/// The edit script keeps every line exactly when the two sequences are equal.
pub proof fn lemma_all_equal_iff_same<T>(a: Seq<T>, b: Seq<T>)
    requires
        a.len() <= usize::MAX,
        b.len() <= usize::MAX,
    ensures
        all_equal(spec_edit_script(a, b, 0, 0)) <==> a == b,
{
    lemma_edit_script(a, b, 0, 0);
    assert(a.skip(0) =~= a);
    assert(b.skip(0) =~= b);
    if all_equal(spec_edit_script(a, b, 0, 0)) {
        lemma_all_equal_source_target(a, b, spec_edit_script(a, b, 0, 0));
    }
    if a == b {
        lemma_edit_script_same(a, 0);
    }
}

// ---------------------------------------------------------------------------
// Grouping the script into hunks

/// Start of the hunk whose first change is at `i`: back up over at most
/// `CONTEXT - ctx` more unchanged steps.
pub open spec fn hunk_start(s: Seq<(Op, usize, usize)>, i: int, ctx: int) -> int
    decreases CONTEXT - ctx,
{
    if i > 0 && i <= s.len() && s[i - 1].0 == Op::Equal && ctx < CONTEXT {
        hunk_start(s, i - 1, ctx + 1)
    } else {
        i
    }
}

/// End of the run of unchanged steps that starts at `k`.
pub open spec fn equal_run_end(s: Seq<(Op, usize, usize)>, k: int) -> int
    decreases s.len() - k,
{
    if 0 <= k < s.len() && s[k].0 == Op::Equal {
        equal_run_end(s, k + 1)
    } else {
        k
    }
}

pub proof fn lemma_equal_run_end(s: Seq<(Op, usize, usize)>, k: int)
    requires
        0 <= k <= s.len(),
    ensures
        k <= equal_run_end(s, k) <= s.len(),
        forall|m: int| k <= m < equal_run_end(s, k) ==> #[trigger] s[m].0 == Op::Equal,
        equal_run_end(s, k) < s.len() ==> s[equal_run_end(s, k)].0 != Op::Equal,
    decreases s.len() - k,
{
    if k < s.len() && s[k].0 == Op::Equal {
        lemma_equal_run_end(s, k + 1);
    }
}

/// End (exclusive) of the hunk being extended at `end`: changes separated by at
/// most `2 * CONTEXT` unchanged steps share one hunk, and the hunk closes with
/// at most `CONTEXT` unchanged steps of trailing context.
pub open spec fn hunk_end(s: Seq<(Op, usize, usize)>, end: int) -> int
    decreases s.len() - end,
{
    if end < 0 || end >= s.len() {
        end
    } else if s[end].0 != Op::Equal {
        hunk_end(s, end + 1)
    } else {
        let run = equal_run_end(s, end);
        let run_len = run - end;
        if run < s.len() && run_len <= 2 * CONTEXT {
            proof {
                lemma_equal_run_end(s, end + 1);
            }
            hunk_end(s, run)
        } else if run_len < CONTEXT {
            end + run_len
        } else {
            end + CONTEXT
        }
    }
}

pub proof fn lemma_hunk_end(s: Seq<(Op, usize, usize)>, end: int)
    requires
        0 <= end <= s.len(),
    ensures
        end <= hunk_end(s, end) <= s.len(),
        end < s.len() && s[end].0 != Op::Equal ==> end < hunk_end(s, end),
    decreases s.len() - end,
{
    if end < s.len() {
        if s[end].0 != Op::Equal {
            lemma_hunk_end(s, end + 1);
        } else {
            lemma_equal_run_end(s, end);
            lemma_equal_run_end(s, end + 1);
            let run = equal_run_end(s, end);
            if run < s.len() && run - end <= 2 * CONTEXT {
                lemma_hunk_end(s, run);
            }
        }
    }
}

pub proof fn lemma_hunk_start(s: Seq<(Op, usize, usize)>, i: int, ctx: int)
    requires
        0 <= i <= s.len(),
        0 <= ctx <= CONTEXT,
    ensures
        0 <= hunk_start(s, i, ctx) <= i,
    decreases CONTEXT - ctx,
{
    if i > 0 && s[i - 1].0 == Op::Equal && ctx < CONTEXT {
        lemma_hunk_start(s, i - 1, ctx + 1);
    }
}

/// Number of steps in `s[k..end]` that touch the original (`Equal` or `Delete`).
pub open spec fn count_original(s: Seq<(Op, usize, usize)>, k: int, end: int) -> nat
    decreases end - k,
{
    if k >= end {
        0
    } else {
        count_original(s, k + 1, end) + if s[k].0 != Op::Insert { 1nat } else { 0nat }
    }
}

/// Number of steps in `s[k..end]` that touch the formatted text (`Equal` or `Insert`).
pub open spec fn count_formatted(s: Seq<(Op, usize, usize)>, k: int, end: int) -> nat
    decreases end - k,
{
    if k >= end {
        0
    } else {
        count_formatted(s, k + 1, end) + if s[k].0 != Op::Delete { 1nat } else { 0nat }
    }
}

/// 1-based line of the original where `s[k..end]` starts, 0 when it touches none.
pub open spec fn first_original(s: Seq<(Op, usize, usize)>, k: int, end: int) -> nat
    decreases end - k,
{
    if k >= end {
        0
    } else if s[k].0 != Op::Insert {
        (s[k].1 + 1) as nat
    } else {
        first_original(s, k + 1, end)
    }
}

/// 1-based line of the formatted text where `s[k..end]` starts, 0 when it touches none.
pub open spec fn first_formatted(s: Seq<(Op, usize, usize)>, k: int, end: int) -> nat
    decreases end - k,
{
    if k >= end {
        0
    } else if s[k].0 != Op::Delete {
        (s[k].2 + 1) as nat
    } else {
        first_formatted(s, k + 1, end)
    }
}

/// One output line of a hunk: a space, `-` or `+`, the line, a newline.
pub open spec fn hunk_line(a: Seq<Seq<char>>, b: Seq<Seq<char>>, step: (Op, usize, usize)) -> Seq<char> {
    match step.0 {
        Op::Equal => seq![' '] + a[step.1 as int] + seq!['\n'],
        Op::Delete => seq!['-'] + a[step.1 as int] + seq!['\n'],
        Op::Insert => seq!['+'] + b[step.2 as int] + seq!['\n'],
    }
}

/// The lines of the steps `s[k..end]`.
pub open spec fn hunk_lines(a: Seq<Seq<char>>, b: Seq<Seq<char>>, s: Seq<(Op, usize, usize)>, k: int, end: int) -> Seq<char>
    decreases end - k,
{
    if k >= end {
        seq![]
    } else {
        hunk_line(a, b, s[k]) + hunk_lines(a, b, s, k + 1, end)
    }
}

/// The `@@ -a,n +b,m @@` header of the hunk `s[start..end]`.
pub open spec fn hunk_header(s: Seq<(Op, usize, usize)>, start: int, end: int) -> Seq<char> {
    "@@ -"@ + decimal(first_original(s, start, end)) + ","@ + decimal(count_original(s, start, end))
        + " +"@ + decimal(first_formatted(s, start, end)) + ","@ + decimal(count_formatted(s, start, end))
        + " @@\n"@
}

/// The hunks of the script from step `i` on.
pub open spec fn spec_hunks(a: Seq<Seq<char>>, b: Seq<Seq<char>>, s: Seq<(Op, usize, usize)>, i: int) -> Seq<char>
    decreases s.len() - i,
{
    if i < 0 || i >= s.len() {
        seq![]
    } else if s[i].0 == Op::Equal {
        spec_hunks(a, b, s, i + 1)
    } else {
        let start = hunk_start(s, i, 0);
        let end = hunk_end(s, i);
        proof {
            lemma_hunk_end(s, i);
        }
        hunk_header(s, start, end) + hunk_lines(a, b, s, start, end) + spec_hunks(a, b, s, end)
    }
}

/// The `---`/`+++` file header of a diff of `name`.
pub open spec fn diff_header(name: Seq<char>) -> Seq<char> {
    "--- "@ + name + " (original)\n"@ + "+++ "@ + name + " (formatted)\n"@
}

/// The unified diff of `original` against `formatted`, labelled `name`: empty
/// when the two have the same lines; a placeholder hunk when the LCS table
/// would exceed `MAX_DIFF_CELLS` cells; otherwise the hunks of the edit script.
pub open spec fn spec_unified_diff(name: Seq<char>, original: Seq<char>, formatted: Seq<char>) -> Seq<char> {
    let a = spec_split_lines(original);
    let b = spec_split_lines(formatted);
    if a.len() * b.len() > MAX_DIFF_CELLS {
        if a == b {
            seq![]
        } else {
            diff_header(name) + "@@ files differ (diff too large to display) @@\n"@
        }
    } else {
        let s = spec_edit_script(a, b, 0, 0);
        if all_equal(s) {
            seq![]
        } else {
            diff_header(name) + spec_hunks(a, b, s, 0)
        }
    }
}

// ---------------------------------------------------------------------------
// Executable code

/// The characters of each string of a sequence.
pub open spec fn line_views(v: Seq<&str>) -> Seq<Seq<char>> {
    v.map_values(|l: &str| l@)
}

/// A split line as stored: the piece without its trailing carriage return.
pub open spec fn line_of(piece: Seq<u8>) -> Seq<char> {
    decode_utf8(strip_cr(piece))
}

/// `line` without one trailing `\r`.
fn strip_cr_str(line: &str) -> (r: &str)
    ensures
        r@ == line_of(line.spec_bytes()),
{
    let lb = line.as_bytes();
    let n = lb.len();
    proof {
        lemma_view_is_decoded(line);
    }
    if n > 0 && lb[n - 1] == CARRIAGE_RETURN {
        proof {
            lemma_boundary_at(lb@, n - 1);
        }
        let (head, _tail) = line.split_at(n - 1);
        proof {
            lemma_view_is_decoded(head);
            assert(head.spec_bytes() =~= strip_cr(lb@));
        }
        head
    } else {
        line
    }
}

/// Split `s` into lines, keeping the distinction a trailing newline makes and
/// dropping the `\r` of Windows line endings.
fn split_lines(s: &str) -> (v: Vec<&str>)
    ensures
        line_views(v@) == spec_split_lines(s@),
        v@.len() >= 1,
{
    let mut out: Vec<&str> = Vec::new();
    let mut rest: &str = s;
    loop
        invariant
            line_views(out@) + split_on_byte(rest.spec_bytes(), NEWLINE).map_values(
                |p: Seq<u8>| line_of(p),
            ) == spec_split_lines(s@),
        decreases rest.spec_bytes().len(),
    {
        let ghost old_out = out@;
        let rb = rest.as_bytes();
        let n = rb.len();
        let mut i: usize = 0;
        while i < n && rb[i] != NEWLINE
            invariant
                i <= n,
                n == rb@.len(),
                forall|j: int| 0 <= j < i ==> rb@[j] != NEWLINE,
            decreases n - i,
        {
            i = i + 1;
        }
        proof {
            lemma_index_of_byte_at(rb@, NEWLINE, i as int);
            lemma_view_is_decoded(rest);
        }
        if i == n {
            let line = strip_cr_str(rest);
            out.push(line);
            proof {
                assert(split_on_byte(rb@, NEWLINE) == seq![rb@]);
                assert(line_views(out@) =~= line_views(old_out) + split_on_byte(rb@, NEWLINE).map_values(
                    |p: Seq<u8>| line_of(p),
                ));
            }
            return out;
        }
        proof {
            lemma_boundary_at(rb@, i as int);
        }
        let (head, tail) = rest.split_at(i);
        proof {
            lemma_view_is_decoded(tail);
            lemma_boundary_after_ascii_head(tail.spec_bytes());
        }
        let (_newline, after) = tail.split_at(1);
        let line = strip_cr_str(head);
        out.push(line);
        proof {
            assert(head.spec_bytes() =~= rb@.take(i as int));
            assert(after.spec_bytes() =~= rb@.skip(i + 1));
            let f = |p: Seq<u8>| line_of(p);
            let tailp = split_on_byte(rb@.skip(i + 1), NEWLINE);
            assert(split_on_byte(rb@, NEWLINE) == seq![rb@.take(i as int)] + tailp);
            assert((seq![rb@.take(i as int)] + tailp).map_values(f) =~= seq![line_of(rb@.take(i as int))]
                + tailp.map_values(f));
            assert(line_views(out@) =~= line_views(old_out).push(line@));
        }
        rest = after;
    }
}

/// Whether two line vectors hold the same lines.
fn lines_eq(a: &Vec<&str>, b: &Vec<&str>) -> (r: bool)
    ensures
        r == (line_views(a@) == line_views(b@)),
{
    if a.len() != b.len() {
        assert(line_views(a@).len() != line_views(b@).len());
        return false;
    }
    let n = a.len();
    let mut i: usize = 0;
    while i < n
        invariant
            n == a@.len(),
            n == b@.len(),
            i <= n,
            forall|k: int| 0 <= k < i ==> a@[k]@ == b@[k]@,
        decreases n - i,
    {
        if !str_eq(a[i], b[i]) {
            assert(line_views(a@)[i as int] != line_views(b@)[i as int]);
            return false;
        }
        i = i + 1;
    }
    assert(line_views(a@) =~= line_views(b@));
    true
}

pub proof fn lemma_lcs_bound<T>(a: Seq<T>, b: Seq<T>, i: nat, j: nat)
    ensures
        i <= a.len() ==> lcs_len(a, b, i, j) <= a.len() - i,
    decreases a.len() - i, b.len() - j,
{
    if i < a.len() && j < b.len() {
        lemma_lcs_bound(a, b, i + 1, j + 1);
        lemma_lcs_bound(a, b, i + 1, j);
        lemma_lcs_bound(a, b, i, j + 1);
    }
}

/// The LCS table, one row per line of `a` from the last up: `rows[k][j]` is the
/// LCS length of `a[n - k..]` and `b[j..]`.
fn lcs_table(a: &Vec<&str>, b: &Vec<&str>) -> (rows: Vec<Vec<usize>>)
    requires
        a.len() <= MAX_DIFF_CELLS,
        b.len() <= MAX_DIFF_CELLS,
    ensures
        rows@.len() == a.len() + 1,
        forall|k: int| 0 <= k < rows@.len() ==> (#[trigger] rows@[k])@.len() == b.len() + 1,
        forall|k: int, j: int|
            0 <= k < rows@.len() && 0 <= j <= b.len() ==> (#[trigger] rows@[k]@[j]) == lcs_len(
                line_views(a@),
                line_views(b@),
                (a.len() - k) as nat,
                j as nat,
            ),
{
    let ghost av = line_views(a@);
    let ghost bv = line_views(b@);
    let n = a.len();
    let m = b.len();
    let mut last: Vec<usize> = Vec::new();
    let mut j: usize = 0;
    while j <= m
        invariant
            j <= m + 1,
            m <= MAX_DIFF_CELLS,
            last@.len() == j,
            forall|jj: int| 0 <= jj < j ==> last@[jj] == 0,
        decreases m + 1 - j,
    {
        last.push(0);
        j = j + 1;
    }
    let mut rows: Vec<Vec<usize>> = Vec::new();
    rows.push(last);
    let mut i: usize = n;
    while i > 0
        invariant
            i <= n,
            n == a.len(),
            m == b.len(),
            n <= MAX_DIFF_CELLS,
            m <= MAX_DIFF_CELLS,
            av == line_views(a@),
            bv == line_views(b@),
            rows@.len() == n - i + 1,
            forall|k: int| 0 <= k < rows@.len() ==> (#[trigger] rows@[k])@.len() == m + 1,
            forall|k: int, jj: int|
                0 <= k < rows@.len() && 0 <= jj <= m ==> (#[trigger] rows@[k]@[jj]) == lcs_len(
                    av,
                    bv,
                    (n - k) as nat,
                    jj as nat,
                ),
        decreases i,
    {
        i = i - 1;
        let top = rows.len() - 1;
        let mut row: Vec<usize> = Vec::new();
        let mut z: usize = 0;
        while z <= m
            invariant
                z <= m + 1,
                m <= MAX_DIFF_CELLS,
                row@.len() == z,
                forall|jj: int| 0 <= jj < z ==> row@[jj] == 0,
            decreases m + 1 - z,
        {
            row.push(0);
            z = z + 1;
        }
        proof {
            assert(rows@[top as int]@.len() == m + 1);
        }
        let mut j: usize = m;
        while j > 0
            invariant
                i < n,
                j <= m,
                n == a.len(),
                m == b.len(),
                n <= MAX_DIFF_CELLS,
                m <= MAX_DIFF_CELLS,
                av == line_views(a@),
                bv == line_views(b@),
                top == n - i - 1,
                rows@.len() == n - i,
                row@.len() == m + 1,
                rows@[top as int]@.len() == m + 1,
                forall|jj: int| 0 <= jj <= m ==> #[trigger] rows@[top as int]@[jj] == lcs_len(av, bv, (i + 1) as nat, jj as nat),
                forall|jj: int| j <= jj <= m ==> #[trigger] row@[jj] == lcs_len(av, bv, i as nat, jj as nat),
            decreases j,
        {
            j = j - 1;
            proof {
                lemma_lcs_bound(av, bv, (i + 1) as nat, (j + 1) as nat);
            }
            let v = if str_eq(a[i], b[j]) {
                rows[top][j + 1] + 1
            } else {
                let d = rows[top][j];
                let r = row[j + 1];
                if d >= r {
                    d
                } else {
                    r
                }
            };
            row.set(j, v);
        }
        rows.push(row);
    }
    rows
}

/// The line-level edit script of `a` against `b` (see [`spec_edit_script`]).
fn edit_script(a: &Vec<&str>, b: &Vec<&str>) -> (s: Vec<(Op, usize, usize)>)
    requires
        a.len() <= MAX_DIFF_CELLS,
        b.len() <= MAX_DIFF_CELLS,
    ensures
        s@ == spec_edit_script(line_views(a@), line_views(b@), 0, 0),
{
    let ghost av = line_views(a@);
    let ghost bv = line_views(b@);
    let rows = lcs_table(a, b);
    let n = a.len();
    let m = b.len();
    let mut script: Vec<(Op, usize, usize)> = Vec::new();
    let mut i: usize = 0;
    let mut j: usize = 0;
    while i < n || j < m
        invariant
            i <= n,
            j <= m,
            n == a.len(),
            m == b.len(),
            av == line_views(a@),
            bv == line_views(b@),
            rows@.len() == n + 1,
            forall|k: int| 0 <= k < rows@.len() ==> (#[trigger] rows@[k])@.len() == m + 1,
            forall|k: int, jj: int|
                0 <= k < rows@.len() && 0 <= jj <= m ==> (#[trigger] rows@[k]@[jj]) == lcs_len(
                    av,
                    bv,
                    (n - k) as nat,
                    jj as nat,
                ),
            script@ + spec_edit_script(av, bv, i as nat, j as nat) == spec_edit_script(av, bv, 0, 0),
        decreases n - i + m - j,
    {
        let ghost old_script = script@;
        let op = if i < n && j < m {
            if str_eq(a[i], b[j]) {
                Op::Equal
            } else {
                proof {
                    assert(rows@[(n - (i + 1)) as int]@[j as int] == lcs_len(av, bv, (i + 1) as nat, j as nat));
                    assert(rows@[(n - i) as int]@[(j + 1) as int] == lcs_len(av, bv, i as nat, (j + 1) as nat));
                }
                if rows[n - (i + 1)][j] >= rows[n - i][j + 1] {
                    Op::Delete
                } else {
                    Op::Insert
                }
            }
        } else if i < n {
            Op::Delete
        } else {
            Op::Insert
        };
        script.push((op, i, j));
        let ghost (ni, nj): (nat, nat) = match op {
            Op::Equal => ((i + 1) as nat, (j + 1) as nat),
            Op::Delete => ((i + 1) as nat, j as nat),
            Op::Insert => (i as nat, (j + 1) as nat),
        };
        proof {
            assert(spec_edit_script(av, bv, i as nat, j as nat) == seq![(op, i, j)] + spec_edit_script(av, bv, ni, nj));
            assert(script@ + spec_edit_script(av, bv, ni, nj) =~= old_script + spec_edit_script(av, bv, i as nat, j as nat));
        }
        match op {
            Op::Equal => {
                i = i + 1;
                j = j + 1;
            },
            Op::Delete => {
                i = i + 1;
            },
            Op::Insert => {
                j = j + 1;
            },
        }
    }
    assert(spec_edit_script(av, bv, i as nat, j as nat) == Seq::<(Op, usize, usize)>::empty());
    assert(script@ =~= script@ + Seq::<(Op, usize, usize)>::empty());
    script
}

/// The bounds `[start, end)` of the hunk whose first change is step `i`.
fn hunk_bounds(s: &Vec<(Op, usize, usize)>, i: usize) -> (r: (usize, usize))
    requires
        i < s@.len(),
    ensures
        r.0 == hunk_start(s@, i as int, 0),
        r.1 == hunk_end(s@, i as int),
{
    let len = s.len();
    let mut start = i;
    let mut ctx: usize = 0;
    while start > 0 && s[start - 1].0 == Op::Equal && ctx < CONTEXT
        invariant
            start <= i,
            i < len,
            len == s@.len(),
            ctx <= CONTEXT,
            hunk_start(s@, i as int, 0) == hunk_start(s@, start as int, ctx as int),
        decreases start,
    {
        start = start - 1;
        ctx = ctx + 1;
    }
    let mut end = i;
    loop
        invariant_except_break
            i <= end <= len,
            len == s@.len(),
            hunk_end(s@, end as int) == hunk_end(s@, i as int),
        ensures
            end == hunk_end(s@, i as int),
        decreases len - end,
    {
        if end >= len {
            break;
        }
        if s[end].0 != Op::Equal {
            end = end + 1;
        } else {
            let mut run = end;
            while run < len && s[run].0 == Op::Equal
                invariant
                    end <= run <= len,
                    len == s@.len(),
                    equal_run_end(s@, end as int) == equal_run_end(s@, run as int),
                decreases len - run,
            {
                run = run + 1;
            }
            let run_len = run - end;
            if run < len && run_len <= 2 * CONTEXT {
                end = run;
            } else {
                if run_len < CONTEXT {
                    end = end + run_len;
                } else {
                    end = end + CONTEXT;
                }
                break;
            }
        }
    }
    (start, end)
}

/// Appends the hunk `s[start..end]`: its `@@` header and its lines.
fn push_hunk(out: &mut String, a: &Vec<&str>, b: &Vec<&str>, s: &Vec<(Op, usize, usize)>, start: usize, end: usize)
    requires
        start <= end <= s@.len(),
        script_in_bounds(a@.len() as nat, b@.len() as nat, s@),
    ensures
        final(out)@ == old(out)@ + hunk_header(s@, start as int, end as int) + hunk_lines(
            line_views(a@),
            line_views(b@),
            s@,
            start as int,
            end as int,
        ),
{
    let alen = a.len();
    let blen = b.len();
    let mut a_start: usize = 0;
    let mut b_start: usize = 0;
    let mut a_count: usize = 0;
    let mut b_count: usize = 0;
    let mut k = start;
    while k < end
        invariant
            start <= k <= end,
            end <= s@.len(),
            script_in_bounds(a@.len() as nat, b@.len() as nat, s@),
            a_count + count_original(s@, k as int, end as int) == count_original(s@, start as int, end as int),
            b_count + count_formatted(s@, k as int, end as int) == count_formatted(s@, start as int, end as int),
            a_count <= k - start,
            b_count <= k - start,
            alen == a@.len(),
            blen == b@.len(),
            a_count == 0 ==> a_start == 0,
            b_count == 0 ==> b_start == 0,
            a_count == 0 ==> first_original(s@, start as int, end as int) == first_original(s@, k as int, end as int),
            a_count != 0 ==> a_start == first_original(s@, start as int, end as int),
            b_count == 0 ==> first_formatted(s@, start as int, end as int) == first_formatted(s@, k as int, end as int),
            b_count != 0 ==> b_start == first_formatted(s@, start as int, end as int),
        decreases end - k,
    {
        let (op, ai, bi) = s[k];
        assert(s@[k as int] == (op, ai, bi));
        match op {
            Op::Equal => {
                if a_count == 0 {
                    a_start = ai + 1;
                }
                if b_count == 0 {
                    b_start = bi + 1;
                }
                a_count = a_count + 1;
                b_count = b_count + 1;
            },
            Op::Delete => {
                if a_count == 0 {
                    a_start = ai + 1;
                }
                a_count = a_count + 1;
            },
            Op::Insert => {
                if b_count == 0 {
                    b_start = bi + 1;
                }
                b_count = b_count + 1;
            },
        }
        k = k + 1;
    }
    assert(count_original(s@, end as int, end as int) == 0);
    assert(count_formatted(s@, end as int, end as int) == 0);
    out.append("@@ -");
    push_decimal(out, a_start);
    out.append(",");
    push_decimal(out, a_count);
    out.append(" +");
    push_decimal(out, b_start);
    out.append(",");
    push_decimal(out, b_count);
    out.append(" @@\n");
    let ghost with_header = out@;
    assert(with_header =~= old(out)@ + hunk_header(s@, start as int, end as int));
    let mut k = start;
    while k < end
        invariant
            start <= k <= end,
            end <= s@.len(),
            script_in_bounds(a@.len() as nat, b@.len() as nat, s@),
            out@ + hunk_lines(line_views(a@), line_views(b@), s@, k as int, end as int) == with_header
                + hunk_lines(line_views(a@), line_views(b@), s@, start as int, end as int),
        decreases end - k,
    {
        let ghost before = out@;
        let (op, ai, bi) = s[k];
        assert(s@[k as int] == (op, ai, bi));
        match op {
            Op::Equal => {
                push_char(out, ' ');
                out.append(a[ai]);
            },
            Op::Delete => {
                push_char(out, '-');
                out.append(a[ai]);
            },
            Op::Insert => {
                push_char(out, '+');
                out.append(b[bi]);
            },
        }
        push_char(out, '\n');
        assert(out@ =~= before + hunk_line(line_views(a@), line_views(b@), s@[k as int]));
        assert(out@ + hunk_lines(line_views(a@), line_views(b@), s@, k + 1, end as int) =~= before
            + hunk_lines(line_views(a@), line_views(b@), s@, k as int, end as int));
        k = k + 1;
    }
}

/// Appends the `---`/`+++` header of a diff of `name`.
fn push_diff_header(out: &mut String, name: &str)
    ensures
        final(out)@ == old(out)@ + diff_header(name@),
{
    out.append("--- ");
    out.append(name);
    out.append(" (original)\n");
    out.append("+++ ");
    out.append(name);
    out.append(" (formatted)\n");
    assert(out@ =~= old(out)@ + diff_header(name@));
}

/// Build a unified diff between `original` and `formatted`, grouping edits into
/// hunks with up to three lines of surrounding context. Returns the empty string
/// when the inputs have the same lines (no `---`/`+++` header, no hunks). When
/// the LCS table would exceed [`MAX_DIFF_CELLS`] cells, a single placeholder
/// hunk is returned instead of running the quadratic-memory diff.
pub fn unified_diff(name: &str, original: &str, formatted: &str) -> (r: String)
    ensures
        r@ == spec_unified_diff(name@, original@, formatted@),
{
    let a = split_lines(original);
    let b = split_lines(formatted);
    let ghost av = line_views(a@);
    let ghost bv = line_views(b@);
    let too_big = match a.len().checked_mul(b.len()) {
        Some(p) => p > MAX_DIFF_CELLS,
        None => true,
    };
    assert(av.len() == a@.len() && bv.len() == b@.len());
    if too_big {
        if lines_eq(&a, &b) {
            return String::new();
        }
        let mut out = String::new();
        push_diff_header(&mut out, name);
        out.append("@@ files differ (diff too large to display) @@\n");
        return out;
    }
    proof {
        vstd::arithmetic::mul::lemma_mul_inequality(1, b.len() as int, a.len() as int);
        vstd::arithmetic::mul::lemma_mul_inequality(1, a.len() as int, b.len() as int);
        vstd::arithmetic::mul::lemma_mul_is_commutative(a.len() as int, b.len() as int);
    }
    let script = edit_script(&a, &b);
    proof {
        lemma_edit_script(av, bv, 0, 0);
    }
    let len = script.len();
    let mut k: usize = 0;
    while k < len && script[k].0 == Op::Equal
        invariant
            k <= len,
            len == script@.len(),
            forall|q: int| 0 <= q < k ==> #[trigger] script@[q].0 == Op::Equal,
        decreases len - k,
    {
        k = k + 1;
    }
    if k == len {
        return String::new();
    }
    let mut out = String::new();
    push_diff_header(&mut out, name);
    let ghost header = out@;
    let mut i: usize = 0;
    while i < len
        invariant
            i <= len,
            len == script@.len(),
            script@ == spec_edit_script(av, bv, 0, 0),
            av == line_views(a@),
            bv == line_views(b@),
            script_in_bounds(a@.len() as nat, b@.len() as nat, script@),
            out@ + spec_hunks(av, bv, script@, i as int) == header + spec_hunks(av, bv, script@, 0),
        decreases len - i,
    {
        if script[i].0 == Op::Equal {
            i = i + 1;
        } else {
            let (start, end) = hunk_bounds(&script, i);
            proof {
                lemma_hunk_start(script@, i as int, 0);
                lemma_hunk_end(script@, i as int);
            }
            let ghost before = out@;
            push_hunk(&mut out, &a, &b, &script, start, end);
            assert(out@ + spec_hunks(av, bv, script@, end as int) =~= before + spec_hunks(av, bv, script@, i as int));
            i = end;
        }
    }
    assert(out@ =~= header + spec_hunks(av, bv, script@, 0));
    out
}

// ---------------------------------------------------------------------------
// Laws

proof fn lemma_split_nonempty(b: Seq<u8>, sep: u8)
    ensures
        split_on_byte(b, sep).len() >= 1,
{
}

/// The diff of two texts is empty exactly when they have the same lines: a
/// change of content, or of a trailing newline, always shows, and a change of
/// `\r\n` to `\n` line endings alone never does.
pub proof fn law_diff_empty_iff_same_lines(name: Seq<char>, original: Seq<char>, formatted: Seq<char>)
    ensures
        (spec_unified_diff(name, original, formatted).len() == 0) == (spec_split_lines(original)
            == spec_split_lines(formatted)),
{
    let a = spec_split_lines(original);
    let b = spec_split_lines(formatted);
    lemma_split_nonempty(encode_utf8(original), NEWLINE);
    lemma_split_nonempty(encode_utf8(formatted), NEWLINE);
    reveal_strlit("--- ");
    assert(diff_header(name).len() > 0);
    if !(a.len() * b.len() > MAX_DIFF_CELLS) {
        vstd::arithmetic::mul::lemma_mul_inequality(1, b.len() as int, a.len() as int);
        vstd::arithmetic::mul::lemma_mul_inequality(1, a.len() as int, b.len() as int);
        vstd::arithmetic::mul::lemma_mul_is_commutative(a.len() as int, b.len() as int);
        lemma_all_equal_iff_same(a, b);
    }
}

/// The edit script is a correct edit of the original into the formatted lines:
/// the lines it keeps or deletes are the original's, in order; the lines it
/// keeps or inserts are the formatted text's, in order; a kept line is the same
/// on both sides; and it keeps a longest common subsequence of lines.
pub proof fn law_edit_script_is_lcs_edit(a: Seq<Seq<char>>, b: Seq<Seq<char>>)
    requires
        a.len() <= usize::MAX,
        b.len() <= usize::MAX,
    ensures
        script_source(a, spec_edit_script(a, b, 0, 0)) == a,
        script_target(a, b, spec_edit_script(a, b, 0, 0)) == b,
        forall|k: int|
            0 <= k < spec_edit_script(a, b, 0, 0).len() && (#[trigger] spec_edit_script(a, b, 0, 0)[k]).0
                == Op::Equal ==> a[spec_edit_script(a, b, 0, 0)[k].1 as int] == b[spec_edit_script(
                a,
                b,
                0,
                0,
            )[k].2 as int],
        count_equal(spec_edit_script(a, b, 0, 0)) == lcs_len(a, b, 0, 0),
{
    lemma_edit_script(a, b, 0, 0);
    assert(a.skip(0) =~= a);
    assert(b.skip(0) =~= b);
}


/// `s` with every `\r\n` replaced by `\n`, scanning from the left as
/// `str::replace("\r\n", "\n")` does.
pub open spec fn crlf_to_lf(s: Seq<char>) -> Seq<char>
    decreases s.len(),
{
    if s.len() == 0 {
        s
    } else if s.len() >= 2 && s[0] == '\r' && s[1] == '\n' {
        seq!['\n'] + crlf_to_lf(s.skip(2))
    } else {
        seq![s[0]] + crlf_to_lf(s.drop_first())
    }
}

/// Every `\r` of `s` is immediately followed by `\n`.
pub open spec fn cr_only_before_lf(s: Seq<char>) -> bool {
    forall|i: int| 0 <= i < s.len() && #[trigger] s[i] == '\r' ==> i + 1 < s.len() && s[i + 1] == '\n'
}

/// The pieces of `b` split at `\n`, each without one trailing `\r`.
spec fn stripped_pieces(b: Seq<u8>) -> Seq<Seq<u8>> {
    split_on_byte(b, NEWLINE).map_values(|p: Seq<u8>| strip_cr(p))
}

/// Splitting a sequence that starts with byte `x`: a `\n` opens an empty first
/// piece; any other byte is prepended to the first piece of the rest.
proof fn lemma_split_cons(x: u8, r: Seq<u8>)
    ensures
        x == NEWLINE ==> split_on_byte(seq![x] + r, NEWLINE) == seq![Seq::<u8>::empty()] + split_on_byte(r, NEWLINE),
        x != NEWLINE ==> split_on_byte(seq![x] + r, NEWLINE) == split_on_byte(r, NEWLINE).update(
            0,
            seq![x] + split_on_byte(r, NEWLINE)[0],
        ),
{
    let b = seq![x] + r;
    assert(b.drop_first() =~= r);
    assert(b[0] == x);
    lemma_index_of_byte(r, NEWLINE);
    if x == NEWLINE {
        assert(index_of_byte(b, NEWLINE) == 0);
        assert(b.take(0) =~= Seq::<u8>::empty());
        assert(b.skip(1) =~= r);
    } else {
        let k = index_of_byte(r, NEWLINE);
        if k < 0 {
            assert(index_of_byte(b, NEWLINE) == -1);
            assert(split_on_byte(r, NEWLINE) == seq![r]);
            assert(split_on_byte(r, NEWLINE).update(0, seq![x] + r) =~= seq![b]);
        } else {
            assert(index_of_byte(b, NEWLINE) == k + 1);
            assert(b.take(k + 1) =~= seq![x] + r.take(k));
            assert(b.skip(k + 2) =~= r.skip(k + 1));
            let tail = split_on_byte(r.skip(k + 1), NEWLINE);
            assert(split_on_byte(r, NEWLINE) == seq![r.take(k)] + tail);
            assert((seq![r.take(k)] + tail).update(0, seq![x] + r.take(k)) =~= seq![seq![x] + r.take(k)] + tail);
        }
    }
}

/// The stripped pieces of a sequence that starts with a byte other than `\r`.
proof fn lemma_pieces_cons(x: u8, r: Seq<u8>)
    requires
        x != CARRIAGE_RETURN,
    ensures
        stripped_pieces(seq![x] + r).len() >= 1,
        x == NEWLINE ==> stripped_pieces(seq![x] + r) == seq![Seq::<u8>::empty()] + stripped_pieces(r),
        x != NEWLINE ==> stripped_pieces(seq![x] + r) == stripped_pieces(r).update(
            0,
            seq![x] + stripped_pieces(r)[0],
        ),
{
    lemma_split_cons(x, r);
    lemma_split_nonempty(r, NEWLINE);
    lemma_split_nonempty(seq![x] + r, NEWLINE);
    let sr = split_on_byte(r, NEWLINE);
    if x == NEWLINE {
        assert(strip_cr(Seq::<u8>::empty()) =~= Seq::<u8>::empty());
        assert(stripped_pieces(seq![x] + r) =~= seq![Seq::<u8>::empty()] + stripped_pieces(r));
    } else {
        let p = sr[0];
        if p.len() > 0 {
            assert((seq![x] + p).last() == p.last());
            if p.last() == CARRIAGE_RETURN {
                assert((seq![x] + p).drop_last() =~= seq![x] + p.drop_last());
            }
        } else {
            assert(seq![x] + p =~= seq![x]);
        }
        assert(strip_cr(seq![x] + p) =~= seq![x] + strip_cr(p));
        assert(stripped_pieces(seq![x] + r) =~= stripped_pieces(r).update(0, seq![x] + stripped_pieces(r)[0]));
    }
}

/// A prefix without `\r` bytes keeps equal stripped pieces equal.
proof fn lemma_pieces_prefix(e: Seq<u8>, x: Seq<u8>, y: Seq<u8>)
    requires
        forall|i: int| 0 <= i < e.len() ==> #[trigger] e[i] != CARRIAGE_RETURN,
        stripped_pieces(x) == stripped_pieces(y),
    ensures
        stripped_pieces(e + x) == stripped_pieces(e + y),
    decreases e.len(),
{
    if e.len() > 0 {
        let t = e.drop_first();
        assert forall|i: int| 0 <= i < t.len() implies #[trigger] t[i] != CARRIAGE_RETURN by {
            assert(t[i] == e[i + 1]);
        }
        lemma_pieces_prefix(t, x, y);
        assert(e + x =~= seq![e[0]] + (t + x));
        assert(e + y =~= seq![e[0]] + (t + y));
        lemma_pieces_cons(e[0], t + x);
        lemma_pieces_cons(e[0], t + y);
    } else {
        assert(e + x =~= x);
        assert(e + y =~= y);
    }
}

/// A `\r\n` pair opens the stripped pieces with an empty line.
proof fn lemma_pieces_crlf(x: Seq<u8>)
    ensures
        stripped_pieces(seq![CARRIAGE_RETURN] + (seq![NEWLINE] + x)) == seq![Seq::<u8>::empty()]
            + stripped_pieces(x),
{
    lemma_split_cons(NEWLINE, x);
    lemma_split_cons(CARRIAGE_RETURN, seq![NEWLINE] + x);
    let sx = split_on_byte(x, NEWLINE);
    assert((seq![Seq::<u8>::empty()] + sx)[0] =~= Seq::<u8>::empty());
    assert(seq![CARRIAGE_RETURN] + Seq::<u8>::empty() =~= seq![CARRIAGE_RETURN]);
    assert(strip_cr(seq![CARRIAGE_RETURN]) =~= Seq::<u8>::empty());
    assert(split_on_byte(seq![CARRIAGE_RETURN] + (seq![NEWLINE] + x), NEWLINE) =~= seq![seq![CARRIAGE_RETURN]] + sx);
    assert(stripped_pieces(seq![CARRIAGE_RETURN] + (seq![NEWLINE] + x)) =~= seq![Seq::<u8>::empty()]
        + stripped_pieces(x));
}

/// The encoding of a sequence that starts with `c`.
proof fn lemma_encode_cons(c: char, t: Seq<char>)
    ensures
        encode_utf8(seq![c] + t) == encode_scalar(c as u32) + encode_utf8(t),
{
    let s = seq![c] + t;
    assert(s.drop_first() =~= t);
    assert(s[0] == c);
}

/// Only `\r` itself is encoded with a `\r` byte.
proof fn lemma_encode_scalar_no_cr(c: char)
    requires
        c != '\r',
    ensures
        forall|i: int| 0 <= i < encode_scalar(c as u32).len() ==> #[trigger] encode_scalar(c as u32)[i] != CARRIAGE_RETURN,
{
    let v = c as u32;
    assert(v != 13u32);
    assert((0x80u8 | (v & 0x3F) as u8) != 13u8) by (bit_vector);
    assert((0x80u8 | ((v >> 6) & 0x3F) as u8) != 13u8) by (bit_vector);
    assert((0x80u8 | ((v >> 12) & 0x3F) as u8) != 13u8) by (bit_vector);
    assert((0xC0u8 | ((v >> 6) & 0x1F) as u8) != 13u8) by (bit_vector);
    assert((0xE0u8 | ((v >> 12) & 0x0F) as u8) != 13u8) by (bit_vector);
    assert((0xF0u8 | ((v >> 18) & 0x7) as u8) != 13u8) by (bit_vector);
    if has_width_1_encoding(v) {
        assert((v & 0x7F) as u8 != 13u8) by (bit_vector)
            requires
                v <= 0x7F,
                v != 13u32,
        ;
    }
}

/// Replacing `\r\n` by `\n` keeps the stripped pieces of the encoding.
proof fn lemma_crlf_pieces(s: Seq<char>)
    requires
        cr_only_before_lf(s),
    ensures
        stripped_pieces(encode_utf8(s)) == stripped_pieces(encode_utf8(crlf_to_lf(s))),
    decreases s.len(),
{
    if s.len() > 0 {
        if s[0] == '\r' {
            let rest = s.skip(2);
            assert(s[1] == '\n');
            assert(cr_only_before_lf(rest)) by {
                assert forall|i: int| 0 <= i < rest.len() && #[trigger] rest[i] == '\r' implies i + 1 < rest.len()
                    && rest[i + 1] == '\n' by {
                    assert(rest[i] == s[i + 2]);
                    assert(s[i + 2] == '\r');
                }
            }
            lemma_crlf_pieces(rest);
            assert(s =~= seq!['\r'] + (seq!['\n'] + rest));
            lemma_encode_cons('\r', seq!['\n'] + rest);
            lemma_encode_cons('\n', rest);
            assert(('\r' as u32) == 13u32);
            assert(('\n' as u32) == 10u32);
            assert((13u32 & 0x7F) as u8 == 13u8) by (bit_vector);
            assert((10u32 & 0x7F) as u8 == 10u8) by (bit_vector);
            assert(encode_scalar('\r' as u32) =~= seq![CARRIAGE_RETURN]);
            assert(encode_scalar('\n' as u32) =~= seq![NEWLINE]);
            let x = encode_utf8(rest);
            let t = crlf_to_lf(rest);
            assert(crlf_to_lf(s) == seq!['\n'] + t);
            lemma_encode_cons('\n', t);
            assert(encode_utf8(s) =~= seq![CARRIAGE_RETURN] + (seq![NEWLINE] + x));
            lemma_pieces_crlf(x);
            lemma_pieces_cons(NEWLINE, encode_utf8(t));
        } else {
            let rest = s.drop_first();
            assert(cr_only_before_lf(rest)) by {
                assert forall|i: int| 0 <= i < rest.len() && #[trigger] rest[i] == '\r' implies i + 1 < rest.len()
                    && rest[i + 1] == '\n' by {
                    assert(rest[i] == s[i + 1]);
                    assert(s[i + 1] == '\r');
                }
            }
            lemma_crlf_pieces(rest);
            assert(s =~= seq![s[0]] + rest);
            let t = crlf_to_lf(rest);
            assert(crlf_to_lf(s) == seq![s[0]] + t);
            lemma_encode_cons(s[0], rest);
            lemma_encode_cons(s[0], t);
            lemma_encode_scalar_no_cr(s[0]);
            lemma_pieces_prefix(encode_scalar(s[0] as u32), encode_utf8(rest), encode_utf8(t));
        }
    }
}

/// The lines of a text are those of its copy with `\r\n` replaced by `\n`.
proof fn lemma_split_lines_crlf(s: Seq<char>)
    requires
        cr_only_before_lf(s),
    ensures
        spec_split_lines(s) == spec_split_lines(crlf_to_lf(s)),
{
    lemma_crlf_pieces(s);
    let t = crlf_to_lf(s);
    assert(spec_split_lines(s) =~= stripped_pieces(encode_utf8(s)).map_values(|p: Seq<u8>| decode_utf8(p)));
    assert(spec_split_lines(t) =~= stripped_pieces(encode_utf8(t)).map_values(|p: Seq<u8>| decode_utf8(p)));
}

/// Windows line endings do not change a diff: when every `\r` of both texts
/// starts a `\r\n`, the diff equals the diff of the texts with each `\r\n`
/// replaced by `\n`.
pub proof fn law_diff_ignores_crlf(name: Seq<char>, original: Seq<char>, formatted: Seq<char>)
    requires
        cr_only_before_lf(original),
        cr_only_before_lf(formatted),
    ensures
        spec_unified_diff(name, original, formatted) == spec_unified_diff(
            name,
            crlf_to_lf(original),
            crlf_to_lf(formatted),
        ),
{
    lemma_split_lines_crlf(original);
    lemma_split_lines_crlf(formatted);
}


/// Counting the steps of `s[m + 1..e + 1]` is counting those of the rest of the
/// script after its first step, `s.drop_first()[m..e]`.
proof fn lemma_count_shift(s: Seq<(Op, usize, usize)>, m: int, e: int)
    requires
        0 <= m,
        e + 1 <= s.len(),
    ensures
        count_original(s, m + 1, e + 1) == count_original(s.drop_first(), m, e),
        count_formatted(s, m + 1, e + 1) == count_formatted(s.drop_first(), m, e),
    decreases e - m,
{
    if m < e {
        lemma_count_shift(s, m + 1, e);
        assert(s.drop_first()[m] == s[m + 1]);
    }
}

/// Each step of an edit script points at the line it reaches on each side: the
/// original line after the steps before it that touched the original, and the
/// formatted line after those that touched the formatted text.
proof fn lemma_script_indices<T>(a: Seq<T>, b: Seq<T>, i: nat, j: nat)
    requires
        i <= a.len(),
        j <= b.len(),
        a.len() <= usize::MAX,
        b.len() <= usize::MAX,
    ensures
        forall|k: int|
            0 <= k < spec_edit_script(a, b, i, j).len() ==> {
                &&& (#[trigger] spec_edit_script(a, b, i, j)[k]).1 == i + count_original(spec_edit_script(a, b, i, j), 0, k)
                &&& spec_edit_script(a, b, i, j)[k].2 == j + count_formatted(spec_edit_script(a, b, i, j), 0, k)
            },
    decreases a.len() - i, b.len() - j,
{
    let s = spec_edit_script(a, b, i, j);
    if i < a.len() || j < b.len() {
        let (ni, nj): (nat, nat) = if i < a.len() && j < b.len() {
            if a[i as int] == b[j as int] {
                (i + 1, j + 1)
            } else if lcs_len(a, b, i + 1, j) >= lcs_len(a, b, i, j + 1) {
                (i + 1, j)
            } else {
                (i, j + 1)
            }
        } else if i < a.len() {
            (i + 1, j)
        } else {
            (i, j + 1)
        };
        lemma_script_indices(a, b, ni, nj);
        let t = spec_edit_script(a, b, ni, nj);
        assert(s.drop_first() =~= t);
        assert forall|k: int| 0 <= k < s.len() implies {
            &&& (#[trigger] s[k]).1 == i + count_original(s, 0, k)
            &&& s[k].2 == j + count_formatted(s, 0, k)
        } by {
            if k > 0 {
                lemma_count_shift(s, 0, k - 1);
                assert(s[k] == t[k - 1]);
                assert(count_original(s, 0, k) == count_original(s, 1, k) + if s[0].0 != Op::Insert { 1nat } else { 0nat });
                assert(count_formatted(s, 0, k) == count_formatted(s, 1, k) + if s[0].0 != Op::Delete { 1nat } else { 0nat });
            }
        }
    }
}

/// The first step of `s[k..end]` that touches the formatted text names the
/// start the hunk header gives for that side.
proof fn lemma_first_formatted_at(s: Seq<(Op, usize, usize)>, k: int, end: int, f: int)
    requires
        0 <= k <= f < end,
        s[f].0 != Op::Delete,
        forall|m: int| k <= m < f ==> (#[trigger] s[m]).0 == Op::Delete,
    ensures
        first_formatted(s, k, end) == s[f].2 + 1,
    decreases f - k,
{
    if k < f {
        lemma_first_formatted_at(s, k + 1, end, f);
    }
}

/// The first step of `s[k..end]` that touches the original names the start the
/// hunk header gives for that side.
proof fn lemma_first_original_at(s: Seq<(Op, usize, usize)>, k: int, end: int, g: int)
    requires
        0 <= k <= g < end,
        s[g].0 != Op::Insert,
        forall|m: int| k <= m < g ==> (#[trigger] s[m]).0 == Op::Insert,
    ensures
        first_original(s, k, end) == s[g].1 + 1,
    decreases g - k,
{
    if k < g {
        lemma_first_original_at(s, k + 1, end, g);
    }
}

/// The line numbers of a hunk header are the 1-based positions of the first
/// lines the hunk shows. For a hunk `s[k..end]` of the edit script whose first
/// step touching the formatted text is step `f`, the `+` start is one more than
/// the number of formatted lines before that step, and the formatted line at
/// that start is the line the hunk shows at step `f`. Likewise, with `g` the
/// first step touching the original, for the `-` start and the original lines.
pub proof fn law_hunk_header_line_numbers(a: Seq<Seq<char>>, b: Seq<Seq<char>>, k: int, end: int, f: int, g: int)
    requires
        a.len() <= usize::MAX,
        b.len() <= usize::MAX,
        end <= spec_edit_script(a, b, 0, 0).len(),
        0 <= k <= f < end,
        spec_edit_script(a, b, 0, 0)[f].0 != Op::Delete,
        forall|m: int| k <= m < f ==> (#[trigger] spec_edit_script(a, b, 0, 0)[m]).0 == Op::Delete,
        k <= g < end,
        spec_edit_script(a, b, 0, 0)[g].0 != Op::Insert,
        forall|m: int| k <= m < g ==> (#[trigger] spec_edit_script(a, b, 0, 0)[m]).0 == Op::Insert,
    ensures
        ({
            let s = spec_edit_script(a, b, 0, 0);
            let plus = first_formatted(s, k, end);
            let minus = first_original(s, k, end);
            &&& plus == count_formatted(s, 0, f) + 1
            &&& 1 <= plus <= b.len()
            &&& hunk_line(a, b, s[f]) == seq![if s[f].0 == Op::Equal { ' ' } else { '+' }] + b[plus - 1] + seq!['\n']
            &&& minus == count_original(s, 0, g) + 1
            &&& 1 <= minus <= a.len()
            &&& hunk_line(a, b, s[g]) == seq![if s[g].0 == Op::Equal { ' ' } else { '-' }] + a[minus - 1] + seq!['\n']
        }),
{
    let s = spec_edit_script(a, b, 0, 0);
    lemma_edit_script(a, b, 0, 0);
    lemma_script_indices(a, b, 0, 0);
    lemma_first_formatted_at(s, k, end, f);
    lemma_first_original_at(s, k, end, g);
    assert(s[f].2 == 0 + count_formatted(s, 0, f));
    assert(s[g].1 == 0 + count_original(s, 0, g));
}


/// The counts of a hunk header are the numbers of lines the hunk shows from
/// each side: the `-` count is the number of original lines that the steps
/// `s[k..end]` keep or delete, the `+` count the number of formatted lines they
/// keep or insert.
pub proof fn law_hunk_header_counts(a: Seq<Seq<char>>, b: Seq<Seq<char>>, s: Seq<(Op, usize, usize)>, k: int, end: int)
    requires
        0 <= k <= end <= s.len(),
    ensures
        count_original(s, k, end) == script_source(a, s.subrange(k, end)).len(),
        count_formatted(s, k, end) == script_target(a, b, s.subrange(k, end)).len(),
    decreases end - k,
{
    if k < end {
        law_hunk_header_counts(a, b, s, k + 1, end);
        assert(s.subrange(k, end).drop_first() =~= s.subrange(k + 1, end));
        assert(s.subrange(k, end)[0] == s[k]);
    } else {
        assert(s.subrange(k, end) =~= Seq::<(Op, usize, usize)>::empty());
    }
}

} // verus!
