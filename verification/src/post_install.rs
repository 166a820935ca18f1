//! The text work of preparing an installed extension: reading fields out of
//! the control file, blanking its `module_pathname` line, and stamping the
//! install script with the versioned module path. The surrounding file
//! handling lives with the installer binary; everything here is a pure
//! transformation of file contents.

use vstd::prelude::*;

use crate::pgtap_parse::{first_nl, has_at, is_ws, strip_cr};

verus! {

/// The index of the first `c` at or after `i`, or the length.
pub open spec fn first_char_at(s: Seq<char>, i: int, c: char) -> int
    decreases s.len() - i,
{
    if i < 0 || i >= s.len() {
        s.len() as int
    } else if s[i] == c {
        i
    } else {
        first_char_at(s, i + 1, c)
    }
}

/// The index of the first character at or after `i` that is not whitespace,
/// or the length.
pub open spec fn first_non_ws(s: Seq<char>, i: int) -> int
    decreases s.len() - i,
{
    if i < 0 || i >= s.len() {
        s.len() as int
    } else if is_ws(s[i]) {
        first_non_ws(s, i + 1)
    } else {
        i
    }
}

/// The index of the first character at or after `i` that is not a single
/// quote, or the length.
pub open spec fn first_non_quote(s: Seq<char>, i: int) -> int
    decreases s.len() - i,
{
    if i < 0 || i >= s.len() {
        s.len() as int
    } else if s[i] == '\'' {
        first_non_quote(s, i + 1)
    } else {
        i
    }
}

/// The value in a `<field> = '<value>'` line: the text between the first and
/// second `=` (or the line's end), leading whitespace dropped, and within
/// that the first run of non-quote characters. Nothing when the line has no
/// `=` or nothing but quotes after it.
pub open spec fn quoted_field(line: Seq<char>) -> Option<Seq<char>> {
    let e1 = first_char_at(line, 0, '=');
    if e1 >= line.len() {
        None
    } else {
        let e2 = first_char_at(line, e1 + 1, '=');
        let seg = line.subrange(e1 + 1, e2);
        let t = seg.skip(first_non_ws(seg, 0));
        let a = first_non_quote(t, 0);
        if a >= t.len() {
            None
        } else {
            Some(t.subrange(a, first_char_at(t, a, '\'')))
        }
    }
}

/// Whether `pat` occurs anywhere in `s`.
pub open spec fn contains_pat(s: Seq<char>, pat: Seq<char>) -> bool {
    exists|q: int| has_at(s, q, pat)
}

/// The value of the first line that mentions `field`, when that line parses
/// as a `<field> = '<value>'` assignment.
pub open spec fn field_val(s: Seq<char>, field: Seq<char>) -> Option<Seq<char>>
    decreases s.len(),
{
    if s.len() == 0 {
        None
    } else {
        let k = first_nl(s, 0);
        let line = strip_cr(s.take(k));
        if contains_pat(line, field) {
            quoted_field(line)
        } else if k < 0 || k >= s.len() {
            None
        } else {
            field_val(s.skip(k + 1), field)
        }
    }
}

/// `s` with leading and trailing whitespace dropped.
pub open spec fn trim_both(s: Seq<char>) -> Seq<char> {
    let t = s.skip(first_non_ws(s, 0));
    let j = last_non_ws(t);
    t.take(j)
}

/// One past the last non-whitespace character of `s`, or zero.
pub open spec fn last_non_ws(s: Seq<char>) -> int
    decreases s.len(),
{
    if s.len() == 0 {
        0
    } else if is_ws(s.last()) {
        last_non_ws(s.drop_last())
    } else {
        s.len() as int
    }
}

/// The comma-separated pieces of a version list, each trimmed; a trailing
/// separator yields no extra piece.
pub open spec fn split_versions(v: Seq<char>) -> Seq<Seq<char>>
    decreases v.len(),
{
    if v.len() == 0 {
        Seq::empty()
    } else {
        let k = first_char_at(v, 0, ',');
        let piece = trim_both(v.take(k));
        if k < 0 || k >= v.len() {
            seq![piece]
        } else {
            seq![piece] + split_versions(v.skip(k + 1))
        }
    }
}

/// The control file with every `module_pathname` line blanked: each line is
/// kept (or emptied when it starts with `module_pathname`) and written back
/// with a newline.
pub open spec fn control_without_module_path(s: Seq<char>) -> Seq<char>
    decreases s.len(),
{
    if s.len() == 0 {
        Seq::empty()
    } else {
        let k = first_nl(s, 0);
        let line = strip_cr(s.take(k));
        let kept: Seq<char> = if has_at(line, 0, ("module_pathname")@) {
            Seq::empty()
        } else {
            line
        };
        kept + seq!['\n'] + if k < 0 || k >= s.len() {
            Seq::empty()
        } else {
            control_without_module_path(s.skip(k + 1))
        }
    }
}

/// The first start of an occurrence of `pat` at or after `i`, if any.
pub open spec fn first_occurrence(s: Seq<char>, i: int, pat: Seq<char>) -> Option<int>
    decreases s.len() - i,
{
    if i < 0 || i > s.len() {
        None
    } else if has_at(s, i, pat) {
        Some(i)
    } else if i == s.len() {
        None
    } else {
        first_occurrence(s, i + 1, pat)
    }
}

/// `s` with every occurrence of `pat` replaced by `repl`, left to right.
pub open spec fn replace_all(s: Seq<char>, pat: Seq<char>, repl: Seq<char>) -> Seq<char>
    decreases s.len(),
{
    if pat.len() == 0 {
        s
    } else {
        match first_occurrence(s, 0, pat) {
            None => s,
            Some(q) => if 0 <= q && q + pat.len() <= s.len() {
                s.take(q) + repl + replace_all(s.skip(q + pat.len()), pat, repl)
            } else {
                s
            },
        }
    }
}

/// The install script with `MODULE_PATHNAME` replaced, on every line, by the
/// versioned module path, each line written back with a newline.
pub open spec fn install_with_version(s: Seq<char>, versioned_path: Seq<char>) -> Seq<char>
    decreases s.len(),
{
    if s.len() == 0 {
        Seq::empty()
    } else {
        let k = first_nl(s, 0);
        let line = strip_cr(s.take(k));
        replace_all(line, ("MODULE_PATHNAME")@, versioned_path) + seq!['\n'] + if k < 0 || k
            >= s.len() {
            Seq::empty()
        } else {
            install_with_version(s.skip(k + 1), versioned_path)
        }
    }
}

} // verus!

verus! {

/// Decides `has_at`: whether `pat` stands at position `q` of `s`.
fn str_has_at(s: &str, q: usize, pat: &str, n: usize, m: usize) -> (r: bool)
    requires
        n == s@.len(),
        m == pat@.len(),
        q <= n,
    ensures
        r == has_at(s@, q as int, pat@),
{
    if n - q < m {
        return false;
    }
    let mut k: usize = 0;
    while k < m
        invariant
            n == s@.len(),
            m == pat@.len(),
            q + m <= n,
            0 <= k <= m,
            forall|x: int| 0 <= x < k ==> s@[q + x] == pat@[x],
        decreases m - k,
    {
        if s.get_char(q + k) != pat.get_char(k) {
            return false;
        }
        k += 1;
    }
    true
}

/// Finds the first `c` at or after `from`, or the length.
fn find_char(s: &str, from: usize, c: char, n: usize) -> (r: usize)
    requires
        n == s@.len(),
        from <= n,
    ensures
        r as int == first_char_at(s@, from as int, c),
        from <= r <= n,
{
    let mut i: usize = from;
    while i < n
        invariant
            n == s@.len(),
            from <= i <= n,
            first_char_at(s@, from as int, c) == first_char_at(s@, i as int, c),
        decreases n - i,
    {
        if s.get_char(i) == c {
            return i;
        }
        i += 1;
    }
    n
}

/// Finds the first non-whitespace character at or after `from`, or the
/// length.
fn find_non_ws(s: &str, from: usize, n: usize) -> (r: usize)
    requires
        n == s@.len(),
        from <= n,
    ensures
        r as int == first_non_ws(s@, from as int),
        from <= r <= n,
{
    let mut i: usize = from;
    while i < n
        invariant
            n == s@.len(),
            from <= i <= n,
            first_non_ws(s@, from as int) == first_non_ws(s@, i as int),
        decreases n - i,
    {
        let c: char = s.get_char(i);
        if !(c == ' ' || c == '\t' || c == '\n' || c == '\r' || c == '\u{b}' || c == '\u{c}') {
            return i;
        }
        i += 1;
    }
    n
}

/// Finds the first non-quote character at or after `from`, or the length.
fn find_non_quote(s: &str, from: usize, n: usize) -> (r: usize)
    requires
        n == s@.len(),
        from <= n,
    ensures
        r as int == first_non_quote(s@, from as int),
        from <= r <= n,
{
    let mut i: usize = from;
    while i < n
        invariant
            n == s@.len(),
            from <= i <= n,
            first_non_quote(s@, from as int) == first_non_quote(s@, i as int),
        decreases n - i,
    {
        if s.get_char(i) != '\'' {
            return i;
        }
        i += 1;
    }
    n
}

/// Decides whether `pat` occurs anywhere in `s`.
fn contains_exec(s: &str, pat: &str, n: usize, m: usize) -> (r: bool)
    requires
        n == s@.len(),
        m == pat@.len(),
    ensures
        r == contains_pat(s@, pat@),
{
    if m == 0 {
        proof {
            assert(has_at(s@, 0, pat@));
        }
        return true;
    }
    let mut q: usize = 0;
    while q < n
        invariant
            n == s@.len(),
            m == pat@.len(),
            m >= 1,
            0 <= q <= n,
            forall|x: int| 0 <= x < q ==> !has_at(s@, x, pat@),
        decreases n - q,
    {
        if str_has_at(s, q, pat, n, m) {
            return true;
        }
        q += 1;
    }
    proof {
        assert forall|x: int| !has_at(s@, x, pat@) by {
            if 0 <= x < n {
            } else {
            }
        }
    }
    false
}

/// Given a `<field name> = '<field value>'` line, extracts `<field value>`:
/// the first unquoted run after the `=`. Nothing when no `=` is present or
/// only quotes follow it.
pub fn get_quoted_field(line: &str) -> (r: Option<String>)
    ensures
        match r {
            Some(v) => quoted_field(line@) == Some(v@),
            None => quoted_field(line@) is None,
        },
{
    let n: usize = line.unicode_len();
    let e1: usize = find_char(line, 0, '=', n);
    if e1 >= n {
        return None;
    }
    let e2: usize = find_char(line, e1 + 1, '=', n);
    let seg: &str = line.substring_char(e1 + 1, e2);
    let seg_len: usize = e2 - (e1 + 1);
    proof {
        assert(seg@ =~= line@.subrange(e1 as int + 1, e2 as int));
    }
    let a0: usize = find_non_ws(seg, 0, seg_len);
    let t: &str = seg.substring_char(a0, seg_len);
    let t_len: usize = seg_len - a0;
    proof {
        assert(t@ =~= seg@.skip(first_non_ws(seg@, 0)));
    }
    let a: usize = find_non_quote(t, 0, t_len);
    if a >= t_len {
        return None;
    }
    let b: usize = find_char(t, a, '\'', t_len);
    let v: String = t.substring_char(a, b).to_owned();
    proof {
        assert(v@ =~= t@.subrange(a as int, first_char_at(t@, a as int, '\'')));
    }
    Some(v)
}

/// Finds the first line of `contents` mentioning `field` and extracts its
/// quoted value. Nothing when no line mentions the field, or the first one
/// that does has no quoted value.
pub fn get_field_val(contents: &str, field: &str) -> (r: Option<String>)
    ensures
        match r {
            Some(v) => field_val(contents@, field@) == Some(v@),
            None => field_val(contents@, field@) is None,
        },
{
    let n_total: usize = contents.unicode_len();
    let m: usize = field.unicode_len();
    let mut cur: usize = 0;
    proof {
        assert(contents@.skip(0) =~= contents@);
    }
    while cur < n_total
        invariant
            n_total == contents@.len(),
            m == field@.len(),
            0 <= cur <= n_total,
            field_val(contents@.skip(cur as int), field@) == field_val(contents@, field@),
        decreases n_total - cur,
    {
        let ghost rem_view = contents@.skip(cur as int);
        let rem: &str = contents.substring_char(cur, n_total);
        let rem_len: usize = n_total - cur;
        proof {
            assert(rem@ =~= rem_view);
        }
        let k: usize = crate::pgtap_parse::find_nl(rem, rem_len);
        let mut line_end: usize = k;
        if line_end > 0 && rem.get_char(line_end - 1) == '\r' {
            line_end -= 1;
        }
        let line: &str = rem.substring_char(0, line_end);
        proof {
            assert(line@ =~= strip_cr(rem_view.take(first_nl(rem_view, 0))));
        }
        if contains_exec(line, field, line_end, m) {
            proof {
                assert(field_val(rem_view, field@) == quoted_field(line@));
                assert(field_val(contents@, field@) == quoted_field(line@));
            }
            match get_quoted_field(line) {
                Some(v) => {
                    proof {
                        assert(quoted_field(line@) == Some(v@));
                        assert(field_val(contents@, field@) == Some(v@));
                    }
                    return Some(v);
                },
                None => {
                    return None;
                },
            }
        }
        let next_cur: usize = if k < rem_len {
            cur + k + 1
        } else {
            n_total
        };
        proof {
            if k < rem_len {
                assert(contents@.skip(next_cur as int) =~= rem_view.skip(
                    first_nl(rem_view, 0) + 1,
                ));
            } else {
                assert(contents@.skip(next_cur as int) =~= Seq::<char>::empty());
            }
        }
        cur = next_cur;
    }
    proof {
        assert(contents@.skip(cur as int) =~= contents@.skip(n_total as int));
        assert(contents@.skip(n_total as int) =~= Seq::<char>::empty());
    }
    None
}

/// The `default_version` field of a control file.
pub fn get_current_version(control_contents: &str) -> (r: Option<String>)
    ensures
        match r {
            Some(v) => field_val(control_contents@, ("default_version")@) == Some(v@),
            None => field_val(control_contents@, ("default_version")@) is None,
        },
{
    get_field_val(control_contents, "default_version")
}

/// The views of a list of owned strings.
pub open spec fn strings_view(v: Seq<String>) -> Seq<Seq<char>> {
    Seq::new(v.len(), |i: int| v[i]@)
}

/// The `upgradeable_from` field of a control file, split on commas into
/// trimmed version names.
pub fn get_upgradeable_from(control_contents: &str) -> (r: Option<Vec<String>>)
    ensures
        match r {
            Some(vs) => field_val(control_contents@, ("upgradeable_from")@) matches Some(v)
                && strings_view(vs@) == split_versions(v),
            None => field_val(control_contents@, ("upgradeable_from")@) is None,
        },
{
    let val: String = match get_field_val(control_contents, "upgradeable_from") {
        Some(v) => v,
        None => { return None },
    };
    let vs: &str = val.as_str();
    let n: usize = vs.unicode_len();
    let mut pieces: Vec<String> = Vec::new();
    let mut cur: usize = 0;
    let mut stop: bool = false;
    proof {
        assert(vs@.skip(0) =~= vs@);
        assert(strings_view(pieces@) =~= Seq::<Seq<char>>::empty());
        assert(Seq::<Seq<char>>::empty() + split_versions(vs@) =~= split_versions(vs@));
        if n == 0 {
            assert(split_versions(vs@) =~= Seq::<Seq<char>>::empty());
        }
    }
    if n == 0 {
        return Some(pieces);
    }
    while !stop
        invariant
            n == vs@.len(),
            0 <= cur <= n,
            stop ==> strings_view(pieces@) == split_versions(vs@),
            !stop ==> strings_view(pieces@) + split_versions(vs@.skip(cur as int))
                == split_versions(vs@),
        decreases n - cur, (if stop { 0int } else { 1int }),
    {
        if cur >= n {
            proof {
                assert(vs@.skip(cur as int) =~= Seq::<char>::empty());
                assert(split_versions(Seq::<char>::empty()) =~= Seq::<Seq<char>>::empty());
                assert(strings_view(pieces@) + Seq::<Seq<char>>::empty() =~= strings_view(
                    pieces@,
                ));
            }
            stop = true;
            continue ;
        }
        let ghost rem_view = vs@.skip(cur as int);
        let k: usize = find_char(vs, cur, ',', n);
        let ghost k_rel = first_char_at(rem_view, 0, ',');
        proof {
            assert(first_char_at(vs@, cur as int, ',') - cur == k_rel) by {
                lemma_first_char_skip(vs@, cur as int, ',');
            }
        }
        let piece: String = trim_piece(vs, cur, k, n);
        let ghost prev = strings_view(pieces@);
        pieces.push(piece);
        proof {
            assert(strings_view(pieces@) =~= prev.push(pieces@.last()@));
            assert(rem_view.take(k_rel) =~= vs@.subrange(cur as int, k as int));
        }
        if k >= n {
            proof {
                assert(prev.push(pieces@.last()@) =~= prev + seq![pieces@.last()@]);
            }
            stop = true;
        } else {
            proof {
                assert(rem_view.skip(k_rel + 1) =~= vs@.skip(k as int + 1));
                assert(prev.push(pieces@.last()@) + split_versions(vs@.skip(k as int + 1)) =~= prev
                    + (seq![pieces@.last()@] + split_versions(vs@.skip(k as int + 1))));
            }
            cur = k + 1;
        }
    }
    Some(pieces)
}

/// `first_char_at` looks only at the suffix it scans.
proof fn lemma_first_char_skip(s: Seq<char>, from: int, c: char)
    requires
        0 <= from <= s.len(),
    ensures
        first_char_at(s, from, c) - from == first_char_at(s.skip(from), 0, c),
    decreases s.len() - from,
{
    let t = s.skip(from);
    if from >= s.len() {
        assert(t.len() == 0);
    } else if s[from] == c {
        assert(t[0] == c);
    } else {
        lemma_first_char_skip(s, from + 1, c);
        assert(s.skip(from + 1) =~= t.skip(1));
        assert(t[0] != c);
        assert(first_char_at(t, 0, c) == first_char_at(t, 1, c));
        lemma_first_char_shift(t, c);
    }
}

/// Scanning a suffix one character in is the same scan shifted by one.
proof fn lemma_first_char_shift(t: Seq<char>, c: char)
    requires
        t.len() >= 1,
    ensures
        first_char_at(t, 1, c) == first_char_at(t.skip(1), 0, c) + 1,
    decreases t.len(),
{
    let u = t.skip(1);
    if t.len() == 1 {
    } else if t[1] == c {
        assert(u[0] == c);
    } else {
        assert(u[0] != c);
        assert(forall|i: int| 0 <= i < u.len() ==> u[i] == t[i + 1]);
        lemma_first_char_shift_at(t, 1, c);
    }
}

/// The general shift: the scan from `i + 1` in `t` is the scan from `i` in
/// `t.skip(1)`, offset by one.
proof fn lemma_first_char_shift_at(t: Seq<char>, i: int, c: char)
    requires
        1 <= i <= t.len(),
    ensures
        first_char_at(t, i, c) == first_char_at(t.skip(1), i - 1, c) + 1,
    decreases t.len() - i,
{
    let u = t.skip(1);
    if i >= t.len() {
    } else {
        assert(u[i - 1] == t[i]);
        if t[i] == c {
        } else {
            lemma_first_char_shift_at(t, i + 1, c);
        }
    }
}

/// The piece `[from, to)` of `s`, trimmed on both sides.
fn trim_piece(s: &str, from: usize, to: usize, n: usize) -> (r: String)
    requires
        n == s@.len(),
        from <= to <= n,
    ensures
        r@ == trim_both(s@.subrange(from as int, to as int)),
{
    let piece: &str = s.substring_char(from, to);
    let piece_len: usize = to - from;
    proof {
        assert(piece@ =~= s@.subrange(from as int, to as int));
    }
    let a: usize = find_non_ws(piece, 0, piece_len);
    let ghost t = piece@.skip(first_non_ws(piece@, 0));
    let mut j: usize = piece_len;
    let mut done: bool = false;
    proof {
        assert(t.take(t.len() as int) =~= t);
    }
    while !done
        invariant
            piece_len == piece@.len(),
            a as int == first_non_ws(piece@, 0),
            a <= j <= piece_len,
            t == piece@.skip(a as int),
            last_non_ws(t) == last_non_ws(t.take(j - a)),
            done ==> j == a || !is_ws(piece@[j - 1]),
        decreases j, (if done { 0int } else { 1int }),
    {
        if j > a {
            let c: char = piece.get_char(j - 1);
            if c == ' ' || c == '\t' || c == '\n' || c == '\r' || c == '\u{b}' || c == '\u{c}' {
                proof {
                    assert(t.take(j - a).last() == piece@[j - 1]);
                    assert(t.take(j - a).drop_last() =~= t.take(j - 1 - a));
                }
                j -= 1;
            } else {
                done = true;
            }
        } else {
            done = true;
        }
    }
    proof {
        if j == a {
            assert(t.take(0) =~= Seq::<char>::empty());
            assert(last_non_ws(t.take(0)) == 0);
        } else {
            assert(t.take(j - a).last() == piece@[j - 1]);
            assert(!is_ws(t.take(j - a).last()));
        }
        assert(t.take(last_non_ws(t)) =~= piece@.subrange(a as int, j as int));
    }
    piece.substring_char(a, j).to_owned()
}

} // verus!

verus! {

/// Blanks every `module_pathname` line of a control file. Each line comes
/// back terminated by a newline, as the installer writes it out.
pub fn remove_module_path_from_control_file(contents: &str) -> (r: String)
    ensures
        r@ == control_without_module_path(contents@),
{
    let n_total: usize = contents.unicode_len();
    let mut out: String = String::new();
    let mut cur: usize = 0;
    proof {
        reveal_strlit("\n");
        reveal_strlit("module_pathname");
        assert(contents@.skip(0) =~= contents@);
        assert(out@ + control_without_module_path(contents@) =~= control_without_module_path(
            contents@,
        ));
    }
    while cur < n_total
        invariant
            n_total == contents@.len(),
            0 <= cur <= n_total,
            out@ + control_without_module_path(contents@.skip(cur as int))
                == control_without_module_path(contents@),
        decreases n_total - cur,
    {
        let ghost rem_view = contents@.skip(cur as int);
        let ghost out_before = out@;
        let rem: &str = contents.substring_char(cur, n_total);
        let rem_len: usize = n_total - cur;
        proof {
            assert(rem@ =~= rem_view);
        }
        let k: usize = crate::pgtap_parse::find_nl(rem, rem_len);
        let mut line_end: usize = k;
        if line_end > 0 && rem.get_char(line_end - 1) == '\r' {
            line_end -= 1;
        }
        let line: &str = rem.substring_char(0, line_end);
        proof {
            reveal_strlit("module_pathname");
            reveal_strlit("\n");
            assert(line@ =~= strip_cr(rem_view.take(first_nl(rem_view, 0))));
            assert(("module_pathname")@.len() == 15);
        }
        if !str_has_at(line, 0, "module_pathname", line_end, 15) {
            out.append(line);
        }
        out.append("\n");
        let next_cur: usize = if k < rem_len {
            cur + k + 1
        } else {
            n_total
        };
        proof {
            let line_spec = strip_cr(rem_view.take(first_nl(rem_view, 0)));
            let kept: Seq<char> = if has_at(line_spec, 0, ("module_pathname")@) {
                Seq::<char>::empty()
            } else {
                line_spec
            };
            assert(("module_pathname")@.len() == 15);
            assert(("\n")@ =~= seq!['\n']);
            assert(out@ =~= out_before + kept + seq!['\n']);
            if k < rem_len {
                assert(contents@.skip(next_cur as int) =~= rem_view.skip(
                    first_nl(rem_view, 0) + 1,
                ));
            } else {
                assert(contents@.skip(next_cur as int) =~= Seq::<char>::empty());
                assert(control_without_module_path(Seq::<char>::empty()) =~= Seq::<char>::empty());
            }
            assert(out_before + (kept + seq!['\n'] + control_without_module_path(
                contents@.skip(next_cur as int),
            )) =~= out@ + control_without_module_path(contents@.skip(next_cur as int)));
        }
        cur = next_cur;
    }
    proof {
        assert(contents@.skip(n_total as int) =~= Seq::<char>::empty());
        assert(control_without_module_path(Seq::<char>::empty()) =~= Seq::<char>::empty());
        assert(out@ + Seq::<char>::empty() =~= out@);
    }
    out
}

/// Finds the first occurrence of `pat` in `s`, if any.
fn find_occurrence(s: &str, pat: &str, n: usize, m: usize) -> (r: Option<usize>)
    requires
        n == s@.len(),
        m == pat@.len(),
        m >= 1,
    ensures
        match r {
            Some(q) => first_occurrence(s@, 0, pat@) == Some(q as int) && has_at(
                s@,
                q as int,
                pat@,
            ) && q + m <= n,
            None => first_occurrence(s@, 0, pat@) is None,
        },
{
    let mut q: usize = 0;
    while q < n
        invariant
            n == s@.len(),
            m == pat@.len(),
            m >= 1,
            0 <= q <= n,
            first_occurrence(s@, 0, pat@) == first_occurrence(s@, q as int, pat@),
        decreases n - q,
    {
        if str_has_at(s, q, pat, n, m) {
            return Some(q);
        }
        q += 1;
    }
    proof {
        assert(!has_at(s@, n as int, pat@));
    }
    None
}

/// `s` with every occurrence of `pat` replaced by `repl`, scanning left to
/// right.
fn replace_all_exec(s: &str, pat: &str, repl: &str) -> (r: String)
    requires
        pat@.len() >= 1,
    ensures
        r@ == replace_all(s@, pat@, repl@),
{
    let n_total: usize = s.unicode_len();
    let m: usize = pat.unicode_len();
    let mut out: String = String::new();
    let mut cur: usize = 0;
    let mut stop: bool = false;
    proof {
        assert(s@.skip(0) =~= s@);
        assert(out@ + replace_all(s@, pat@, repl@) =~= replace_all(s@, pat@, repl@));
    }
    while !stop
        invariant
            n_total == s@.len(),
            m == pat@.len(),
            m >= 1,
            0 <= cur <= n_total,
            stop ==> out@ == replace_all(s@, pat@, repl@),
            !stop ==> out@ + replace_all(s@.skip(cur as int), pat@, repl@) == replace_all(
                s@,
                pat@,
                repl@,
            ),
        decreases n_total - cur, (if stop { 0int } else { 1int }),
    {
        let ghost rem_view = s@.skip(cur as int);
        let ghost out_before = out@;
        let rem: &str = s.substring_char(cur, n_total);
        let rem_len: usize = n_total - cur;
        proof {
            assert(rem@ =~= rem_view);
        }
        match find_occurrence(rem, pat, rem_len, m) {
            None => {
                out.append(rem);
                proof {
                    assert(out@ =~= out_before + rem_view);
                    assert(replace_all(rem_view, pat@, repl@) == rem_view);
                }
                stop = true;
            },
            Some(q) => {
                let chunk: &str = rem.substring_char(0, q);
                out.append(chunk);
                out.append(repl);
                let next_cur: usize = cur + q + m;
                proof {
                    assert(chunk@ =~= rem_view.take(q as int));
                    assert(s@.skip(next_cur as int) =~= rem_view.skip(q as int + m));
                    assert(out@ =~= out_before + rem_view.take(q as int) + repl@);
                    assert(out_before + (rem_view.take(q as int) + repl@ + replace_all(
                        rem_view.skip(q as int + m),
                        pat@,
                        repl@,
                    )) =~= out@ + replace_all(rem_view.skip(q as int + m), pat@, repl@));
                }
                cur = next_cur;
            },
        }
    }
    out
}

/// Stamps an install script: every line's `MODULE_PATHNAME` becomes the
/// versioned module path `$libdir/promscale-<version>`, and each line comes
/// back terminated by a newline.
pub fn add_version_to_install_script(contents: &str, current_version: &str) -> (r: String)
    ensures
        r@ == install_with_version(
            contents@,
            ("$libdir/promscale-")@ + current_version@,
        ),
{
    let versioned: String = String::from_str("$libdir/promscale-").concat(current_version);
    let vp: &str = versioned.as_str();
    let n_total: usize = contents.unicode_len();
    let mut out: String = String::new();
    let mut cur: usize = 0;
    proof {
        reveal_strlit("\n");
        reveal_strlit("MODULE_PATHNAME");
        assert(contents@.skip(0) =~= contents@);
        assert(out@ + install_with_version(contents@, vp@) =~= install_with_version(
            contents@,
            vp@,
        ));
    }
    while cur < n_total
        invariant
            n_total == contents@.len(),
            vp@ == ("$libdir/promscale-")@ + current_version@,
            0 <= cur <= n_total,
            out@ + install_with_version(contents@.skip(cur as int), vp@) == install_with_version(
                contents@,
                vp@,
            ),
        decreases n_total - cur,
    {
        let ghost rem_view = contents@.skip(cur as int);
        let ghost out_before = out@;
        let rem: &str = contents.substring_char(cur, n_total);
        let rem_len: usize = n_total - cur;
        proof {
            assert(rem@ =~= rem_view);
        }
        let k: usize = crate::pgtap_parse::find_nl(rem, rem_len);
        let mut line_end: usize = k;
        if line_end > 0 && rem.get_char(line_end - 1) == '\r' {
            line_end -= 1;
        }
        let line: &str = rem.substring_char(0, line_end);
        proof {
            assert(line@ =~= strip_cr(rem_view.take(first_nl(rem_view, 0))));
            reveal_strlit("MODULE_PATHNAME");
            assert(("MODULE_PATHNAME")@.len() == 15);
        }
        let replaced: String = replace_all_exec(line, "MODULE_PATHNAME", vp);
        out.append(replaced.as_str());
        out.append("\n");
        let next_cur: usize = if k < rem_len {
            cur + k + 1
        } else {
            n_total
        };
        proof {
            reveal_strlit("\n");
            let line_spec = strip_cr(rem_view.take(first_nl(rem_view, 0)));
            assert(("\n")@ =~= seq!['\n']);
            assert(out@ =~= out_before + replace_all(line_spec, ("MODULE_PATHNAME")@, vp@)
                + seq!['\n']);
            if k < rem_len {
                assert(contents@.skip(next_cur as int) =~= rem_view.skip(
                    first_nl(rem_view, 0) + 1,
                ));
            } else {
                assert(contents@.skip(next_cur as int) =~= Seq::<char>::empty());
                assert(install_with_version(Seq::<char>::empty(), vp@) =~= Seq::<char>::empty());
            }
            assert(out_before + (replace_all(line_spec, ("MODULE_PATHNAME")@, vp@) + seq!['\n']
                + install_with_version(contents@.skip(next_cur as int), vp@)) =~= out@
                + install_with_version(contents@.skip(next_cur as int), vp@));
        }
        cur = next_cur;
    }
    proof {
        assert(contents@.skip(n_total as int) =~= Seq::<char>::empty());
        assert(install_with_version(Seq::<char>::empty(), vp@) =~= Seq::<char>::empty());
        assert(out@ + Seq::<char>::empty() =~= out@);
    }
    out
}

} // verus!
