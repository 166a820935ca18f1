//! Parser for the output of a pgtap run inside a database session: it finds
//! the test plan (`1..N`) and the individual `ok` / `not ok` result lines,
//! skipping subtest lines, which are nested by four spaces.
//!
//! A plan is recognized anywhere in a line as a digit run, two dots and a
//! digit run; a result is recognized as `ok ` or `not ok ` followed by a
//! digit, optionally followed by ` - ` and the test's name. Because several
//! results can share one line of query output, non-plan lines are split on
//! table boundaries (` | `) first.

use vstd::prelude::*;

verus! {

/// Whitespace as the nesting rule counts it.
pub open spec fn is_ws(c: char) -> bool {
    c == ' ' || c == '\t' || c == '\n' || c == '\r' || c == '\u{b}' || c == '\u{c}'
}

pub open spec fn is_digit(c: char) -> bool {
    '0' <= c && c <= '9'
}

/// The first index at or after `q` that does not hold a digit.
pub open spec fn digit_run_end(s: Seq<char>, q: int) -> int
    decreases s.len() - q,
{
    if 0 <= q < s.len() && is_digit(s[q]) {
        digit_run_end(s, q + 1)
    } else {
        q
    }
}

/// How many consecutive whitespace characters end immediately before `q`.
pub open spec fn ws_run_before(s: Seq<char>, q: int) -> int
    decreases q,
{
    if 0 < q <= s.len() && is_ws(s[q - 1]) {
        ws_run_before(s, q - 1) + 1
    } else {
        0
    }
}

/// Whether the characters of `pat` stand at position `q` of `s`.
pub open spec fn has_at(s: Seq<char>, q: int, pat: Seq<char>) -> bool {
    &&& 0 <= q
    &&& q + pat.len() <= s.len()
    &&& forall|k: int| 0 <= k < pat.len() ==> s[q + k] == pat[k]
}

/// A plan fragment starts at `q`: a digit run, two dots, and another digit.
pub open spec fn plan_occ_at(s: Seq<char>, q: int) -> bool {
    &&& 0 <= q < s.len()
    &&& is_digit(s[q])
    &&& ({
        let r = digit_run_end(s, q);
        &&& r + 2 < s.len()
        &&& s[r] == '.'
        &&& s[r + 1] == '.'
        &&& is_digit(s[r + 2])
    })
}

/// The first plan fragment at or after `i`, if any.
pub open spec fn first_plan_occ(s: Seq<char>, i: int) -> Option<int>
    decreases s.len() - i,
{
    if i < 0 || i >= s.len() {
        None
    } else if plan_occ_at(s, i) {
        Some(i)
    } else {
        first_plan_occ(s, i + 1)
    }
}

/// The decimal value of the digit run `[i, j)`, saturated at `usize::MAX`.
pub open spec fn digit_of(c: char) -> nat {
    if is_digit(c) {
        (c as int - '0' as int) as nat
    } else {
        0
    }
}

pub open spec fn dec_val(s: Seq<char>, i: int, j: int) -> nat
    decreases j - i,
{
    if i >= j {
        0
    } else {
        dec_val(s, i, j - 1) * 10 + digit_of(s[j - 1])
    }
}

pub open spec fn dec_val_sat(s: Seq<char>, i: int, j: int) -> nat {
    if dec_val(s, i, j) > usize::MAX as nat {
        usize::MAX as nat
    } else {
        dec_val(s, i, j)
    }
}

/// What a line says as a plan: nothing, or whether the plan is nested (a
/// subtest's plan, to be skipped) and the planned test count. The count is
/// the digit run after the two dots of the first plan fragment; a plan is
/// nested when at least four whitespace characters stand right before it.
pub open spec fn line_plan(s: Seq<char>) -> Option<(bool, nat)> {
    match first_plan_occ(s, 0) {
        None => None,
        Some(q) => {
            let end_start = digit_run_end(s, q) + 2;
            let end_end = digit_run_end(s, end_start);
            Some(((ws_run_before(s, q) >= 4), dec_val_sat(s, end_start, end_end)))
        },
    }
}

pub open spec fn not_ok_pat() -> Seq<char> {
    seq!['n', 'o', 't', ' ', 'o', 'k', ' ']
}

pub open spec fn ok_pat() -> Seq<char> {
    seq!['o', 'k', ' ']
}

pub open spec fn sep_pat() -> Seq<char> {
    seq![' ', '|', ' ']
}

pub open spec fn name_sep_pat() -> Seq<char> {
    seq![' ', '-', ' ']
}

/// A result fragment starts at `q`: `not ok ` or `ok `, then a digit.
pub open spec fn result_occ_at(s: Seq<char>, q: int) -> bool {
    ||| (has_at(s, q, not_ok_pat()) && q + 7 < s.len() && is_digit(s[q + 7]))
    ||| (has_at(s, q, ok_pat()) && q + 3 < s.len() && is_digit(s[q + 3]))
}

/// The first result fragment at or after `i`, if any.
pub open spec fn first_result_occ(s: Seq<char>, i: int) -> Option<int>
    decreases s.len() - i,
{
    if i < 0 || i >= s.len() {
        None
    } else if result_occ_at(s, i) {
        Some(i)
    } else {
        first_result_occ(s, i + 1)
    }
}

/// What one subline says as a result: `None` when it holds no result
/// fragment; `Some(None)` when the fragment is nested (a subtest's result);
/// otherwise the pass flag and the name, which is what follows the test
/// number, after a ` - ` separator when one is present.
pub open spec fn subline_result(s: Seq<char>) -> Option<Option<(Seq<char>, bool)>> {
    match first_result_occ(s, 0) {
        None => None,
        Some(q) => {
            if ws_run_before(s, q) >= 4 {
                Some(None)
            } else {
                let is_fail = has_at(s, q, not_ok_pat());
                let num_start = if is_fail {
                    q + 7
                } else {
                    q + 3
                };
                let num_end = digit_run_end(s, num_start);
                let name = if has_at(s, num_end, name_sep_pat()) {
                    s.skip(num_end + 3)
                } else {
                    s.skip(num_end)
                };
                Some(Some((name, !is_fail)))
            }
        },
    }
}

/// The index of the first `\n` at or after `i`, or the length.
pub open spec fn first_nl(s: Seq<char>, i: int) -> int
    decreases s.len() - i,
{
    if i < 0 || i >= s.len() {
        s.len() as int
    } else if s[i] == '\n' {
        i
    } else {
        first_nl(s, i + 1)
    }
}

/// The start of the first ` | ` table boundary at or after `i`, if any.
pub open spec fn first_sep(s: Seq<char>, i: int) -> Option<int>
    decreases s.len() - i,
{
    if i < 0 || i >= s.len() {
        None
    } else if has_at(s, i, sep_pat()) {
        Some(i)
    } else {
        first_sep(s, i + 1)
    }
}

/// A line without its trailing carriage return, as `str::lines` yields it.
pub open spec fn strip_cr(s: Seq<char>) -> Seq<char> {
    if s.len() > 0 && s.last() == '\r' {
        s.drop_last()
    } else {
        s
    }
}

/// The results found in one non-plan line, one table cell at a time.
pub open spec fn line_results(s: Seq<char>) -> Seq<(Seq<char>, bool)>
    decreases s.len(),
{
    match first_sep(s, 0) {
        None => match subline_result(s) {
            Some(Some(r)) => seq![r],
            _ => Seq::empty(),
        },
        Some(i) => if 0 <= i && i + 3 <= s.len() {
            (match subline_result(s.take(i)) {
                Some(Some(r)) => seq![r],
                _ => Seq::empty(),
            }) + line_results(s.skip(i + 3))
        } else {
            Seq::empty()
        },
    }
}

/// The whole scan: line by line, a line holding a plan fragment sets the
/// planned count (unless nested, in which case it is skipped whole), and any
/// other line contributes its results.
pub open spec fn parse_rec(
    s: Seq<char>,
    planned: Option<nat>,
    results: Seq<(Seq<char>, bool)>,
) -> (Option<nat>, Seq<(Seq<char>, bool)>)
    decreases s.len(),
{
    if s.len() == 0 {
        (planned, results)
    } else {
        let k = first_nl(s, 0);
        let line = strip_cr(s.take(k));
        let planned2 = match line_plan(line) {
            Some(p) => if p.0 {
                planned
            } else {
                Some(p.1)
            },
            None => planned,
        };
        let results2 = match line_plan(line) {
            Some(p) => results,
            None => results + line_results(line),
        };
        if k < 0 || k >= s.len() {
            (planned2, results2)
        } else {
            parse_rec(s.skip(k + 1), planned2, results2)
        }
    }
}

/// How many results of a scan passed.
pub open spec fn count_pass(res: Seq<(Seq<char>, bool)>) -> nat
    decreases res.len(),
{
    if res.len() == 0 {
        0
    } else {
        count_pass(res.drop_last()) + if res.last().1 {
            1nat
        } else {
            0nat
        }
    }
}

/// The parse of a whole pgtap output: nothing unless some top-level plan was
/// seen; otherwise the planned count and the results in order.
pub open spec fn parse_pgtap_spec(s: Seq<char>) -> Option<(nat, Seq<(Seq<char>, bool)>)> {
    let folded = parse_rec(s, None, Seq::empty());
    match folded.0 {
        None => None,
        Some(p) => Some((p, folded.1)),
    }
}

} // verus!

verus! {

/// Outcome of one pgtap test.
#[allow(non_camel_case_types)]
#[derive(Clone, Debug, PartialOrd, PartialEq, Eq, Structural)]
pub enum TestResult {
    PASS,
    FAIL,
}

/// One parsed test line: its name (possibly empty) and outcome.
#[derive(Debug, PartialOrd, PartialEq)]
pub struct PgTapTest {
    pub test_name: String,
    pub test_result: TestResult,
}

/// The parsed summary of a whole pgtap run.
#[derive(Debug, PartialOrd, PartialEq)]
pub struct PgTapResult {
    pub planned_test_count: usize,
    pub executed_test_count: usize,
    pub success_count: usize,
    pub test_results: Vec<PgTapTest>,
}

/// The model of a parsed test list: each test's name and pass flag.
pub open spec fn tests_view(ts: Seq<PgTapTest>) -> Seq<(Seq<char>, bool)> {
    Seq::new(ts.len(), |i: int| (ts[i].test_name@, ts[i].test_result is PASS))
}

fn is_ws_c(c: char) -> (r: bool)
    ensures
        r == is_ws(c),
{
    c == ' ' || c == '\t' || c == '\n' || c == '\r' || c == '\u{b}' || c == '\u{c}'
}

fn is_digit_c(c: char) -> (r: bool)
    ensures
        r == is_digit(c),
{
    '0' <= c && c <= '9'
}

/// Scans to the end of the digit run starting at `q`.
fn digit_run_end_exec(s: &str, q: usize, n: usize) -> (r: usize)
    requires
        n == s@.len(),
        q <= n,
    ensures
        r as int == digit_run_end(s@, q as int),
        q <= r <= n,
{
    let mut i: usize = q;
    while i < n && is_digit_c(s.get_char(i))
        invariant
            n == s@.len(),
            q <= i <= n,
            digit_run_end(s@, q as int) == digit_run_end(s@, i as int),
        decreases n - i,
    {
        i += 1;
    }
    i
}

/// Counts the whitespace run ending immediately before `q`.
fn ws_run_exec(s: &str, q: usize, n: usize) -> (r: usize)
    requires
        n == s@.len(),
        q <= n,
    ensures
        r as int == ws_run_before(s@, q as int),
{
    let mut i: usize = q;
    let mut count: usize = 0;
    while i > 0 && is_ws_c(s.get_char(i - 1))
        invariant
            n == s@.len(),
            0 <= i <= q <= n,
            count == q - i,
            ws_run_before(s@, q as int) == ws_run_before(s@, i as int) + count,
        decreases i,
    {
        i -= 1;
        count += 1;
    }
    count
}

/// Decides whether a plan fragment starts at `q`.
fn plan_occ_check(s: &str, q: usize, n: usize) -> (r: bool)
    requires
        n == s@.len(),
        q < n,
    ensures
        r == plan_occ_at(s@, q as int),
{
    if !is_digit_c(s.get_char(q)) {
        return false;
    }
    let e: usize = digit_run_end_exec(s, q, n);
    if n - e <= 2 {
        return false;
    }
    s.get_char(e) == '.' && s.get_char(e + 1) == '.' && is_digit_c(s.get_char(e + 2))
}

/// Finds the first plan fragment of a line.
fn find_first_plan(s: &str, n: usize) -> (r: Option<usize>)
    requires
        n == s@.len(),
    ensures
        match r {
            Some(q) => first_plan_occ(s@, 0) == Some(q as int) && q < n && plan_occ_at(
                s@,
                q as int,
            ),
            None => first_plan_occ(s@, 0) is None,
        },
{
    let mut i: usize = 0;
    while i < n
        invariant
            n == s@.len(),
            0 <= i <= n,
            first_plan_occ(s@, 0) == first_plan_occ(s@, i as int),
        decreases n - i,
    {
        if plan_occ_check(s, i, n) {
            return Some(i);
        }
        i += 1;
    }
    None
}

/// Reads the decimal value of the digit run `[i, j)`, saturating at
/// `usize::MAX`.
fn parse_dec_sat(s: &str, i: usize, j: usize, n: usize) -> (r: usize)
    requires
        n == s@.len(),
        i <= j <= n,
    ensures
        r as nat == dec_val_sat(s@, i as int, j as int),
{
    let cap: u128 = usize::MAX as u128;
    let mut acc: u128 = 0;
    let mut k: usize = i;
    while k < j
        invariant
            n == s@.len(),
            i <= k <= j <= n,
            cap == usize::MAX as u128,
            acc <= cap + 1,
            acc <= cap ==> acc as nat == dec_val(s@, i as int, k as int),
            acc > cap ==> dec_val(s@, i as int, k as int) > cap as nat && acc == cap + 1,
        decreases j - k,
    {
        let c: char = s.get_char(k);
        let d: u128 = if '0' <= c && c <= '9' {
            (c as u32 - 48) as u128
        } else {
            0
        };
        proof {
            assert(d as nat == digit_of(s@[k as int]));
            assert(d <= 9);
        }
        let ghost prev = acc;
        acc = acc * 10 + d;
        if acc > cap {
            acc = cap + 1;
        }
        proof {
            assert(dec_val(s@, i as int, k as int + 1) == dec_val(s@, i as int, k as int) * 10
                + digit_of(s@[k as int]));
        }
        k += 1;
    }
    if acc > cap {
        usize::MAX
    } else {
        acc as usize
    }
}

/// Reads a line as a plan: the nesting flag and the planned count.
fn parse_plan_line(s: &str, n: usize) -> (r: Option<(bool, usize)>)
    requires
        n == s@.len(),
    ensures
        match r {
            Some(p) => line_plan(s@) == Some((p.0, p.1 as nat)),
            None => line_plan(s@) is None,
        },
{
    let q: usize = match find_first_plan(s, n) {
        Some(q) => q,
        None => { return None },
    };
    let nested: bool = ws_run_exec(s, q, n) >= 4;
    let run_end: usize = digit_run_end_exec(s, q, n);
    proof {
        assert(digit_run_end(s@, q as int) + 2 < n);
    }
    let end_start: usize = run_end + 2;
    let end_end: usize = digit_run_end_exec(s, end_start, n);
    let v: usize = parse_dec_sat(s, end_start, end_end, n);
    Some((nested, v))
}

/// Decides whether a result fragment starts at `q`.
fn result_occ_check(s: &str, q: usize, n: usize) -> (r: bool)
    requires
        n == s@.len(),
        q < n,
    ensures
        r == result_occ_at(s@, q as int),
{
    let not_ok: bool = n - q > 7 && s.get_char(q) == 'n' && s.get_char(q + 1) == 'o'
        && s.get_char(q + 2) == 't' && s.get_char(q + 3) == ' ' && s.get_char(q + 4) == 'o'
        && s.get_char(q + 5) == 'k' && s.get_char(q + 6) == ' ' && is_digit_c(s.get_char(q + 7));
    let ok: bool = n - q > 3 && s.get_char(q) == 'o' && s.get_char(q + 1) == 'k' && s.get_char(
        q + 2,
    ) == ' ' && is_digit_c(s.get_char(q + 3));
    proof {
        if not_ok {
            assert(has_at(s@, q as int, not_ok_pat())) by {
                assert(forall|k: int|
                    0 <= k < 7 ==> s@[q + k] == #[trigger] not_ok_pat()[k]) by {
                    assert(not_ok_pat()[0] == 'n' && not_ok_pat()[1] == 'o' && not_ok_pat()[2]
                        == 't' && not_ok_pat()[3] == ' ' && not_ok_pat()[4] == 'o'
                        && not_ok_pat()[5] == 'k' && not_ok_pat()[6] == ' ');
                }
            }
        }
        if ok {
            assert(has_at(s@, q as int, ok_pat())) by {
                assert(forall|k: int| 0 <= k < 3 ==> s@[q + k] == #[trigger] ok_pat()[k]) by {
                    assert(ok_pat()[0] == 'o' && ok_pat()[1] == 'k' && ok_pat()[2] == ' ');
                }
            }
        }
        if !not_ok {
            assert(!(has_at(s@, q as int, not_ok_pat()) && q + 7 < s@.len() && is_digit(
                s@[q as int + 7],
            ))) by {
                if has_at(s@, q as int, not_ok_pat()) {
                    assert(s@[q as int] == not_ok_pat()[0]);
                    assert(s@[q as int + 1] == not_ok_pat()[1]);
                    assert(s@[q as int + 2] == not_ok_pat()[2]);
                    assert(s@[q as int + 3] == not_ok_pat()[3]);
                    assert(s@[q as int + 4] == not_ok_pat()[4]);
                    assert(s@[q as int + 5] == not_ok_pat()[5]);
                    assert(s@[q as int + 6] == not_ok_pat()[6]);
                }
            }
        }
        if !ok {
            assert(!(has_at(s@, q as int, ok_pat()) && q + 3 < s@.len() && is_digit(
                s@[q as int + 3],
            ))) by {
                if has_at(s@, q as int, ok_pat()) {
                    assert(s@[q as int] == ok_pat()[0]);
                    assert(s@[q as int + 1] == ok_pat()[1]);
                    assert(s@[q as int + 2] == ok_pat()[2]);
                }
            }
        }
    }
    not_ok || ok
}

/// Finds the first result fragment of a subline.
fn find_first_result(s: &str, n: usize) -> (r: Option<usize>)
    requires
        n == s@.len(),
    ensures
        match r {
            Some(q) => first_result_occ(s@, 0) == Some(q as int) && q < n && result_occ_at(
                s@,
                q as int,
            ),
            None => first_result_occ(s@, 0) is None,
        },
{
    let mut i: usize = 0;
    while i < n
        invariant
            n == s@.len(),
            0 <= i <= n,
            first_result_occ(s@, 0) == first_result_occ(s@, i as int),
        decreases n - i,
    {
        if result_occ_check(s, i, n) {
            return Some(i);
        }
        i += 1;
    }
    None
}

/// Reads one subline as a result: `None` without a result fragment,
/// `Some(None)` for a nested (subtest) result, and otherwise the outcome and
/// name.
fn parse_result_subline(s: &str, n: usize) -> (r: Option<Option<(TestResult, String)>>)
    requires
        n == s@.len(),
    ensures
        match r {
            None => subline_result(s@) is None,
            Some(None) => subline_result(s@) == Some(None::<(Seq<char>, bool)>),
            Some(Some(t)) => subline_result(s@) == Some(
                Some((t.1@, t.0 is PASS)),
            ),
        },
{
    let q: usize = match find_first_result(s, n) {
        Some(q) => q,
        None => { return None },
    };
    if ws_run_exec(s, q, n) >= 4 {
        return Some(None);
    }
    let is_fail: bool = n - q > 7 && s.get_char(q) == 'n' && s.get_char(q + 1) == 'o'
        && s.get_char(q + 2) == 't' && s.get_char(q + 3) == ' ' && s.get_char(q + 4) == 'o'
        && s.get_char(q + 5) == 'k' && s.get_char(q + 6) == ' ' && is_digit_c(s.get_char(q + 7));
    proof {
        if is_fail {
            assert(forall|k: int| 0 <= k < 7 ==> s@[q + k] == #[trigger] not_ok_pat()[k]) by {
                assert(not_ok_pat()[0] == 'n' && not_ok_pat()[1] == 'o' && not_ok_pat()[2] == 't'
                    && not_ok_pat()[3] == ' ' && not_ok_pat()[4] == 'o' && not_ok_pat()[5] == 'k'
                    && not_ok_pat()[6] == ' ');
            }
            assert(has_at(s@, q as int, not_ok_pat()));
        } else {
            if has_at(s@, q as int, not_ok_pat()) && q + 7 < s@.len() && is_digit(
                s@[q as int + 7],
            ) {
                assert(s@[q as int] == not_ok_pat()[0]);
                assert(s@[q as int + 1] == not_ok_pat()[1]);
                assert(s@[q as int + 2] == not_ok_pat()[2]);
                assert(s@[q as int + 3] == not_ok_pat()[3]);
                assert(s@[q as int + 4] == not_ok_pat()[4]);
                assert(s@[q as int + 5] == not_ok_pat()[5]);
                assert(s@[q as int + 6] == not_ok_pat()[6]);
                assert(false);
            }
            assert(!(has_at(s@, q as int, not_ok_pat()) && q + 7 < s@.len() && is_digit(
                s@[q as int + 7],
            )));
        }
    }
    let num_start: usize = if is_fail {
        q + 7
    } else {
        q + 3
    };
    let num_end: usize = digit_run_end_exec(s, num_start, n);
    let has_sep: bool = n - num_end >= 3 && s.get_char(num_end) == ' ' && s.get_char(num_end + 1)
        == '-' && s.get_char(num_end + 2) == ' ';
    proof {
        if has_sep {
            assert(forall|k: int| 0 <= k < 3 ==> s@[num_end + k] == #[trigger] name_sep_pat()[k])
                by {
                assert(name_sep_pat()[0] == ' ' && name_sep_pat()[1] == '-' && name_sep_pat()[2]
                    == ' ');
            }
            assert(has_at(s@, num_end as int, name_sep_pat()));
        } else {
            if has_at(s@, num_end as int, name_sep_pat()) {
                assert(s@[num_end as int] == name_sep_pat()[0]);
                assert(s@[num_end as int + 1] == name_sep_pat()[1]);
                assert(s@[num_end as int + 2] == name_sep_pat()[2]);
                assert(false);
            }
        }
    }
    let name_start: usize = if has_sep {
        num_end + 3
    } else {
        num_end
    };
    let name: String = s.substring_char(name_start, n).to_owned();
    proof {
        assert(name@ =~= s@.skip(name_start as int));
    }
    let outcome: TestResult = if is_fail {
        TestResult::FAIL
    } else {
        TestResult::PASS
    };
    Some(Some((outcome, name)))
}

/// Finds the first newline of the remaining input, or its length.
pub fn find_nl(s: &str, n: usize) -> (r: usize)
    requires
        n == s@.len(),
    ensures
        r as int == first_nl(s@, 0),
        r <= n,
{
    let mut i: usize = 0;
    while i < n
        invariant
            n == s@.len(),
            0 <= i <= n,
            first_nl(s@, 0) == first_nl(s@, i as int),
        decreases n - i,
    {
        if s.get_char(i) == '\n' {
            return i;
        }
        i += 1;
    }
    n
}

/// Finds the first ` | ` table boundary of a line, if any.
fn find_sep(s: &str, n: usize) -> (r: Option<usize>)
    requires
        n == s@.len(),
    ensures
        match r {
            Some(i) => first_sep(s@, 0) == Some(i as int) && i + 3 <= n,
            None => first_sep(s@, 0) is None,
        },
{
    let mut i: usize = 0;
    while i < n
        invariant
            n == s@.len(),
            0 <= i <= n,
            first_sep(s@, 0) == first_sep(s@, i as int),
        decreases n - i,
    {
        let here: bool = n - i >= 3 && s.get_char(i) == ' ' && s.get_char(i + 1) == '|'
            && s.get_char(i + 2) == ' ';
        proof {
            if here {
                assert(forall|k: int| 0 <= k < 3 ==> s@[i + k] == #[trigger] sep_pat()[k]) by {
                    assert(sep_pat()[0] == ' ' && sep_pat()[1] == '|' && sep_pat()[2] == ' ');
                }
                assert(has_at(s@, i as int, sep_pat()));
            } else {
                if has_at(s@, i as int, sep_pat()) {
                    assert(s@[i as int] == sep_pat()[0]);
                    assert(s@[i as int + 1] == sep_pat()[1]);
                    assert(s@[i as int + 2] == sep_pat()[2]);
                    assert(false);
                }
            }
        }
        if here {
            return Some(i);
        }
        i += 1;
    }
    None
}

} // verus!

verus! {

/// Parses the output of a pgtap run. Returns `None` when no top-level test
/// plan is found in `pgtap_output`. Subtest plans and results (nested by
/// four spaces) are skipped; when one query line carries several results,
/// each table cell is read on its own. The planned count saturates at
/// `usize::MAX`.
pub fn parse_pgtap_result(pgtap_output: &str) -> (r: Option<PgTapResult>)
    ensures
        r is None <==> parse_pgtap_spec(pgtap_output@) is None,
        r matches Some(pr) ==> parse_pgtap_spec(pgtap_output@) matches Some(out)
            && pr.planned_test_count as nat == out.0 && pr.executed_test_count == out.1.len()
            && pr.success_count as nat == count_pass(out.1) && tests_view(pr.test_results@)
            == out.1,
{
    let s: &str = pgtap_output;
    let n_total: usize = s.unicode_len();
    let mut planned: Option<usize> = None;
    let mut test_results: Vec<PgTapTest> = Vec::new();
    let mut success: usize = 0;
    let mut cur: usize = 0;
    proof {
        assert(s@.skip(0) =~= s@);
        assert(tests_view(test_results@) =~= Seq::<(Seq<char>, bool)>::empty());
    }
    while cur < n_total
        invariant
            n_total == s@.len(),
            0 <= cur <= n_total,
            success <= test_results@.len(),
            success as nat == count_pass(tests_view(test_results@)),
            parse_rec(
                s@.skip(cur as int),
                match planned {
                    Some(p) => Some(p as nat),
                    None => None,
                },
                tests_view(test_results@),
            ) == parse_rec(s@, None, Seq::empty()),
        decreases n_total - cur,
    {
        let ghost rem_view = s@.skip(cur as int);
        let rem: &str = s.substring_char(cur, n_total);
        let rem_len: usize = n_total - cur;
        proof {
            assert(rem@ =~= rem_view);
        }
        let k: usize = find_nl(rem, rem_len);
        let mut line_end: usize = k;
        if line_end > 0 && rem.get_char(line_end - 1) == '\r' {
            line_end -= 1;
        }
        let line: &str = rem.substring_char(0, line_end);
        let line_len: usize = line_end;
        proof {
            assert(line@ =~= strip_cr(rem_view.take(first_nl(rem_view, 0))));
        }
        let ghost planned_before = match planned {
            Some(p) => Some(p as nat),
            None => None,
        };
        let ghost results_before = tests_view(test_results@);
        match parse_plan_line(line, line_len) {
            Some(p) => {
                if !p.0 {
                    planned = Some(p.1);
                }
            },
            None => {
                let mut pos: usize = 0;
                let mut stop: bool = false;
                proof {
                    assert(line@.skip(0) =~= line@);
                }
                while !stop
                    invariant
                        n_total == s@.len(),
                        line_len == line@.len(),
                        0 <= pos <= line_len,
                        line_plan(line@) is None,
                        success <= test_results@.len(),
                        success as nat == count_pass(tests_view(test_results@)),
                        stop ==> tests_view(test_results@) == results_before + line_results(
                            line@,
                        ),
                        !stop ==> results_before + line_results(line@) == tests_view(
                            test_results@,
                        ) + line_results(line@.skip(pos as int)),
                    decreases line_len - pos, (if stop { 0int } else { 1int }),
                {
                    let ghost sub_view = line@.skip(pos as int);
                    let sub_rem: &str = line.substring_char(pos, line_len);
                    let sub_rem_len: usize = line_len - pos;
                    proof {
                        assert(sub_rem@ =~= sub_view);
                    }
                    let (cell, cell_len, next_pos, last): (&str, usize, usize, bool) =
                        match find_sep(sub_rem, sub_rem_len) {
                        Some(i) => {
                            let c: &str = sub_rem.substring_char(0, i);
                            (c, i, pos + i + 3, false)
                        },
                        None => (sub_rem, sub_rem_len, line_len, true),
                    };
                    let ghost prev_tests = tests_view(test_results@);
                    match parse_result_subline(cell, cell_len) {
                        Some(Some(t)) => {
                            let passed: bool = match t.0 {
                                TestResult::PASS => true,
                                TestResult::FAIL => false,
                            };
                            test_results.push(PgTapTest { test_name: t.1, test_result: t.0 });
                            let total: usize = test_results.len();
                            if passed {
                                proof {
                                    assert(success < total);
                                }
                                success += 1;
                            }
                            proof {
                                assert(tests_view(test_results@) =~= prev_tests.push(
                                    (test_results@.last().test_name@, passed),
                                ));
                                assert(tests_view(test_results@).drop_last() =~= prev_tests);
                            }
                        },
                        _ => (),
                    }
                    proof {
                        let ghost cellv = cell@;
                        if last {
                            assert(first_sep(sub_view, 0) is None);
                            assert(cellv == sub_view);
                        } else {
                            assert(cellv =~= sub_view.take(
                                first_sep(sub_view, 0)->0,
                            ));
                            assert(line@.skip(next_pos as int) =~= sub_view.skip(
                                first_sep(sub_view, 0)->0 + 3,
                            ));
                        }
                        assert(prev_tests + line_results(sub_view) =~= tests_view(test_results@)
                            + (if last {
                            Seq::<(Seq<char>, bool)>::empty()
                        } else {
                            line_results(line@.skip(next_pos as int))
                        }));
                        assert(results_before + line_results(line@) =~= tests_view(test_results@)
                            + (if last {
                            Seq::<(Seq<char>, bool)>::empty()
                        } else {
                            line_results(line@.skip(next_pos as int))
                        }));
                        if last {
                            assert(tests_view(test_results@) + Seq::<(Seq<char>, bool)>::empty()
                                =~= tests_view(test_results@));
                        }
                    }
                    pos = next_pos;
                    stop = last;
                }
            },
        }
        let next_cur: usize = if k < rem_len {
            cur + k + 1
        } else {
            n_total
        };
        proof {
            let kk = first_nl(rem_view, 0);
            assert(parse_rec(rem_view, planned_before, results_before) == parse_rec(
                s@,
                None,
                Seq::empty(),
            ));
            if k < rem_len {
                assert(s@.skip(next_cur as int) =~= rem_view.skip(kk + 1));
            }
        }
        cur = next_cur;
    }
    proof {
        assert(s@.skip(n_total as int) =~= Seq::<char>::empty());
    }
    let planned_count: usize = match planned {
        Some(p) => p,
        None => { return None },
    };
    let executed: usize = test_results.len();
    Some(
        PgTapResult {
            planned_test_count: planned_count,
            executed_test_count: executed,
            success_count: success,
            test_results,
        },
    )
}

} // verus!
