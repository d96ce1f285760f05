//! The markup textifier: parses wiki markup into a node tree (best effort,
//! total over any input), renders the tree back to plain text depth-first,
//! and normalizes the result for indexing — runs of newlines and of mixed
//! whitespace become runs of spaces of the same length, and HTML-style tag
//! spans collapse to a single space.

use vstd::prelude::*;

use crate::chars::{chars_of, is_space, push_all, push_range, space, string_from_chars};

verus! {

// ---- the normalization pass ----

/// End of the newline run starting at `i`.
pub open spec fn nl_run_end(s: Seq<char>, i: int) -> int
    decreases s.len() - i when 0 <= i <= s.len()
{
    if i < s.len() && s[i] == '\n' {
        nl_run_end(s, i + 1)
    } else {
        i
    }
}

/// End of the whitespace run starting at `i`.
pub open spec fn ws_run_end(s: Seq<char>, i: int) -> int
    decreases s.len() - i when 0 <= i <= s.len()
{
    if i < s.len() && is_space(s[i]) {
        ws_run_end(s, i + 1)
    } else {
        i
    }
}

/// The first `>` at or after `i`, if any.
pub open spec fn first_gt(s: Seq<char>, i: int) -> Option<int>
    decreases s.len() - i when 0 <= i <= s.len()
{
    if i >= s.len() {
        None
    } else if s[i] == '>' {
        Some(i)
    } else {
        first_gt(s, i + 1)
    }
}

/// A run of `n` spaces.
pub open spec fn spaces(n: int) -> Seq<char> {
    Seq::new(n as nat, |i: int| ' ')
}

proof fn lemma_nl_run_end(s: Seq<char>, i: int)
    requires
        0 <= i <= s.len(),
    ensures
        i <= nl_run_end(s, i) <= s.len(),
        i < s.len() && s[i] == '\n' ==> nl_run_end(s, i) > i,
    decreases s.len() - i,
{
    if i < s.len() && s[i] == '\n' {
        lemma_nl_run_end(s, i + 1);
    }
}

proof fn lemma_ws_run_end(s: Seq<char>, i: int)
    requires
        0 <= i <= s.len(),
    ensures
        i <= ws_run_end(s, i) <= s.len(),
        i < s.len() && is_space(s[i]) ==> ws_run_end(s, i) > i,
    decreases s.len() - i,
{
    if i < s.len() && is_space(s[i]) {
        lemma_ws_run_end(s, i + 1);
    }
}

proof fn lemma_first_gt(s: Seq<char>, i: int)
    requires
        0 <= i <= s.len(),
    ensures
        match first_gt(s, i) {
            Some(j) => i <= j < s.len() && s[j] == '>',
            None => true,
        },
    decreases s.len() - i,
{
    if i < s.len() && s[i] != '>' {
        lemma_first_gt(s, i + 1);
    }
}

/// The normalization applied to rendered text before indexing: a run of
/// newlines becomes as many spaces; any other whitespace run of length at
/// least two becomes as many spaces; a `<...>` span with at least one
/// character between the brackets becomes one space; everything else is
/// kept.
pub open spec fn spec_normalize(s: Seq<char>, i: int) -> Seq<char>
    decreases s.len() - i when 0 <= i <= s.len() via spec_normalize_dec
{
    if i >= s.len() {
        Seq::<char>::empty()
    } else if s[i] == '\n' {
        spaces(nl_run_end(s, i) - i) + spec_normalize(s, nl_run_end(s, i))
    } else if is_space(s[i]) && i + 1 < s.len() && is_space(s[i + 1]) {
        spaces(ws_run_end(s, i) - i) + spec_normalize(s, ws_run_end(s, i))
    } else if s[i] == '<' {
        match first_gt(s, i + 1) {
            Some(j) => if j >= i + 2 {
                seq![' '] + spec_normalize(s, j + 1)
            } else {
                seq![s[i]] + spec_normalize(s, i + 1)
            },
            None => seq![s[i]] + spec_normalize(s, i + 1),
        }
    } else {
        seq![s[i]] + spec_normalize(s, i + 1)
    }
}

#[via_fn]
proof fn spec_normalize_dec(s: Seq<char>, i: int) {
    if 0 <= i < s.len() {
        lemma_nl_run_end(s, i);
        lemma_ws_run_end(s, i);
        if s[i] == '<' && i + 1 <= s.len() {
            lemma_first_gt(s, i + 1);
        }
    }
}

fn nl_end(v: &Vec<char>, i: usize) -> (r: usize)
    requires
        i <= v@.len(),
    ensures
        r == nl_run_end(v@, i as int),
        i <= r <= v@.len(),
        i < v@.len() && v@[i as int] == '\n' ==> r > i,
{
    proof {
        lemma_nl_run_end(v@, i as int);
    }
    let mut k: usize = i;
    while k < v.len() && v[k] == '\n'
        invariant
            i <= k <= v@.len(),
            nl_run_end(v@, i as int) == nl_run_end(v@, k as int),
        decreases v@.len() - k,
    {
        k = k + 1;
    }
    k
}

fn ws_end(v: &Vec<char>, i: usize) -> (r: usize)
    requires
        i <= v@.len(),
    ensures
        r == ws_run_end(v@, i as int),
        i <= r <= v@.len(),
        i < v@.len() && is_space(v@[i as int]) ==> r > i,
{
    proof {
        lemma_ws_run_end(v@, i as int);
    }
    let mut k: usize = i;
    while k < v.len() && space(v[k])
        invariant
            i <= k <= v@.len(),
            ws_run_end(v@, i as int) == ws_run_end(v@, k as int),
        decreases v@.len() - k,
    {
        k = k + 1;
    }
    k
}

fn find_gt(v: &Vec<char>, i: usize) -> (r: Option<usize>)
    requires
        i <= v@.len(),
    ensures
        match r {
            Some(j) => first_gt(v@, i as int) == Some(j as int) && i <= j < v@.len(),
            None => first_gt(v@, i as int) is None,
        },
{
    let mut k: usize = i;
    while k < v.len() && v[k] != '>'
        invariant
            i <= k <= v@.len(),
            first_gt(v@, i as int) == first_gt(v@, k as int),
        decreases v@.len() - k,
    {
        k = k + 1;
    }
    if k < v.len() {
        Some(k)
    } else {
        None
    }
}

fn push_spaces(out: &mut Vec<char>, n: usize)
    ensures
        final(out)@ == old(out)@ + spaces(n as int),
{
    let mut k: usize = 0;
    while k < n
        invariant
            0 <= k <= n,
            out@ == old(out)@ + spaces(k as int),
        decreases n - k,
    {
        out.push(' ');
        proof {
            assert(out@ =~= old(out)@ + spaces(k + 1));
        }
        k = k + 1;
    }
}

/// Normalizes rendered text for indexing; the exact statement is
/// `spec_normalize`.
pub fn normalize_ws(s: &str) -> (r: String)
    ensures
        r@ == spec_normalize(s@, 0),
{
    let v = chars_of(s);
    let mut out: Vec<char> = Vec::new();
    let mut i: usize = 0;
    while i < v.len()
        invariant
            0 <= i <= v@.len(),
            out@ + spec_normalize(v@, i as int) == spec_normalize(v@, 0),
        decreases v@.len() - i,
    {
        let ghost pre = out@;
        let c = v[i];
        if c == '\n' {
            let j = nl_end(&v, i);
            push_spaces(&mut out, j - i);
            proof {
                assert(out@ + spec_normalize(v@, j as int) =~= pre + (spaces(j - i)
                    + spec_normalize(v@, j as int)));
            }
            i = j;
        } else if space(c) && i + 1 < v.len() && space(v[i + 1]) {
            let j = ws_end(&v, i);
            push_spaces(&mut out, j - i);
            proof {
                assert(out@ + spec_normalize(v@, j as int) =~= pre + (spaces(j - i)
                    + spec_normalize(v@, j as int)));
            }
            i = j;
        } else if c == '<' {
            match find_gt(&v, i + 1) {
                Some(j) => {
                    if j >= i + 2 {
                        out.push(' ');
                        proof {
                            assert(out@ + spec_normalize(v@, j + 1) =~= pre + (seq![' ']
                                + spec_normalize(v@, j + 1)));
                        }
                        i = j + 1;
                    } else {
                        out.push(c);
                        proof {
                            assert(out@ + spec_normalize(v@, i as int + 1) =~= pre + (seq![c]
                                + spec_normalize(v@, i as int + 1)));
                        }
                        i = i + 1;
                    }
                },
                None => {
                    out.push(c);
                    proof {
                        assert(out@ + spec_normalize(v@, i as int + 1) =~= pre + (seq![c]
                            + spec_normalize(v@, i as int + 1)));
                    }
                    i = i + 1;
                },
            }
        } else {
            out.push(c);
            proof {
                assert(out@ + spec_normalize(v@, i as int + 1) =~= pre + (seq![c]
                    + spec_normalize(v@, i as int + 1)));
            }
            i = i + 1;
        }
    }
    string_from_chars(&out)
}

/// Text with no newline, no double whitespace, and no angle bracket passes
/// normalization unchanged.
pub proof fn lemma_normalize_plain(s: Seq<char>, i: int)
    requires
        0 <= i <= s.len(),
        forall|k: int| 0 <= k < s.len() ==> s[k] != '\n',
        forall|k: int| 0 <= k < s.len() ==> s[k] != '<',
        forall|k: int|
            0 <= k + 1 < s.len() ==> !(is_space(#[trigger] s[k]) && is_space(s[k + 1])),
    ensures
        spec_normalize(s, i) == s.subrange(i, s.len() as int),
    decreases s.len() - i,
{
    if i >= s.len() {
        assert(spec_normalize(s, i) =~= s.subrange(i, s.len() as int));
    } else {
        lemma_normalize_plain(s, i + 1);
        assert(s[i] != '\n');
        assert(s[i] != '<');
        if i + 1 < s.len() {
            assert(!(is_space(s[i]) && is_space(s[i + 1])));
        }
        assert(spec_normalize(s, i) == seq![s[i]] + spec_normalize(s, i + 1));
        assert(seq![s[i]] + s.subrange(i + 1, s.len() as int) =~= s.subrange(i, s.len() as int));
    }
}


// ---- the parse specification ----
// Index recursions over the input that mirror the executable parser step
// for step; `spec_textify` below composes them with the whitespace
// normalization into the exact meaning of `textify`.

/// Bounds of a segment list: every piece lies within `[lo, hi]`.
pub open spec fn seg_views(s: Seq<(usize, usize)>) -> Seq<(int, int)> {
    s.map_values(|p: (usize, usize)| (p.0 as int, p.1 as int))
}

/// First newline at or after `i`, or the end of input.
pub open spec fn spec_line_end(s: Seq<char>, i: int) -> int
    decreases s.len() - i when 0 <= i <= s.len()
{
    if i < s.len() && s[i] != '\n' {
        spec_line_end(s, i + 1)
    } else {
        i
    }
}

proof fn lemma_spec_line_end(s: Seq<char>, i: int)
    requires
        0 <= i <= s.len(),
    ensures
        i <= spec_line_end(s, i) <= s.len(),
    decreases s.len() - i,
{
    if i < s.len() && s[i] != '\n' {
        lemma_spec_line_end(s, i + 1);
    }
}

/// The start of the line after the one ending at `e`.
pub open spec fn spec_next_line(s: Seq<char>, e: int) -> int {
    if e < s.len() {
        e + 1
    } else {
        s.len() as int
    }
}

/// Nothing but whitespace on `[i, e)`.
pub open spec fn spec_blank_range(s: Seq<char>, i: int, e: int) -> bool {
    forall|k: int| i <= k < e ==> is_space(#[trigger] s[k])
}

/// A plain paragraph line: non-blank and opening no block construct.
pub open spec fn spec_para_line(s: Seq<char>, i: int, e: int) -> bool {
    &&& i < e <= s.len()
    &&& !spec_blank_range(s, i, e)
    &&& s[i] != '=' && s[i] != '*' && s[i] != '#' && s[i] != ';' && s[i] != ':' && s[i] != ' '
        && s[i] != '\t'
    &&& !(s[i] == '{' && e - i > 1 && s[i + 1] == '|')
}

/// The matching doubled closer for a doubled opener, nesting-aware.
pub open spec fn spec_find_pair_close(
    s: Seq<char>,
    j: int,
    to: int,
    depth: int,
    oc: char,
    cc: char,
) -> Option<int>
    decreases to - j when 0 <= j <= to <= s.len()
{
    if to - j <= 1 {
        None
    } else if s[j] == oc && s[j + 1] == oc {
        spec_find_pair_close(s, j + 2, to, depth + 1, oc, cc)
    } else if s[j] == cc && s[j + 1] == cc {
        if depth == 0 {
            Some(j)
        } else {
            spec_find_pair_close(s, j + 2, to, depth - 1, oc, cc)
        }
    } else {
        spec_find_pair_close(s, j + 1, to, depth, oc, cc)
    }
}

proof fn lemma_spec_find_pair_close(s: Seq<char>, j: int, to: int, depth: int, oc: char, cc: char)
    requires
        0 <= j <= to <= s.len(),
    ensures
        spec_find_pair_close(s, j, to, depth, oc, cc) matches Some(k) ==> j <= k && k + 2 <= to,
    decreases to - j,
{
    if to - j > 1 {
        lemma_spec_find_pair_close(s, j + 2, to, depth + 1, oc, cc);
        lemma_spec_find_pair_close(s, j + 2, to, depth - 1, oc, cc);
        lemma_spec_find_pair_close(s, j + 1, to, depth, oc, cc);
    }
}

/// The first run of three closing braces.
pub open spec fn spec_find_triple(s: Seq<char>, j: int, to: int) -> Option<int>
    decreases to - j when 0 <= j <= to <= s.len()
{
    if to - j <= 2 {
        None
    } else if s[j] == '}' && s[j + 1] == '}' && s[j + 2] == '}' {
        Some(j)
    } else {
        spec_find_triple(s, j + 1, to)
    }
}

proof fn lemma_spec_find_triple(s: Seq<char>, j: int, to: int)
    requires
        0 <= j <= to <= s.len(),
    ensures
        spec_find_triple(s, j, to) matches Some(k) ==> j <= k && k + 3 <= to,
    decreases to - j,
{
    if to - j > 2 {
        lemma_spec_find_triple(s, j + 1, to);
    }
}

/// Where a comment opened before `j` closes.
pub open spec fn spec_find_comment(s: Seq<char>, j: int, to: int) -> Option<int>
    decreases to - j when 0 <= j <= to <= s.len()
{
    if to - j <= 2 {
        None
    } else if s[j] == '-' && s[j + 1] == '-' && s[j + 2] == '>' {
        Some(j)
    } else {
        spec_find_comment(s, j + 1, to)
    }
}

proof fn lemma_spec_find_comment(s: Seq<char>, j: int, to: int)
    requires
        0 <= j <= to <= s.len(),
    ensures
        spec_find_comment(s, j, to) matches Some(k) ==> j <= k && k + 3 <= to,
    decreases to - j,
{
    if to - j > 2 {
        lemma_spec_find_comment(s, j + 1, to);
    }
}

/// Top-level split on `sep`, nesting-aware for braces and brackets; always
/// at least one segment.
pub open spec fn spec_split_top(
    s: Seq<char>,
    start: int,
    j: int,
    to: int,
    depth: int,
    sep: char,
) -> Seq<(int, int)>
    decreases to - j when 0 <= start <= j <= to <= s.len()
{
    if j >= to {
        seq![(start, to)]
    } else if depth == 0 && s[j] == sep {
        seq![(start, j)] + spec_split_top(s, j + 1, j + 1, to, depth, sep)
    } else if to - j > 1 && ((s[j] == '{' && s[j + 1] == '{') || (s[j] == '[' && s[j + 1] == '[')) {
        spec_split_top(s, start, j + 2, to, depth + 1, sep)
    } else if to - j > 1 && ((s[j] == '}' && s[j + 1] == '}') || (s[j] == ']' && s[j + 1] == ']')) {
        spec_split_top(s, start, j + 2, to, if depth > 0 {
            depth - 1
        } else {
            depth
        }, sep)
    } else {
        spec_split_top(s, start, j + 1, to, depth, sep)
    }
}

proof fn lemma_spec_split_top(s: Seq<char>, start: int, j: int, to: int, depth: int, sep: char)
    requires
        0 <= start <= j <= to <= s.len(),
    ensures
        ({
            let segs = spec_split_top(s, start, j, to, depth, sep);
            &&& segs.len() >= 1
            &&& forall|t: int|
                0 <= t < segs.len() ==> start <= (#[trigger] segs[t]).0 <= segs[t].1 <= to
        }),
    decreases to - j,
{
    if j >= to {
    } else if depth == 0 && s[j] == sep {
        lemma_spec_split_top(s, j + 1, j + 1, to, depth, sep);
        let segs = spec_split_top(s, start, j, to, depth, sep);
        let rest = spec_split_top(s, j + 1, j + 1, to, depth, sep);
        assert forall|t: int| 0 <= t < segs.len() implies start <= (#[trigger] segs[t]).0
            <= segs[t].1 <= to by {
            if t > 0 {
                assert(segs[t] == rest[t - 1]);
            }
        }
    } else if to - j > 1 && ((s[j] == '{' && s[j + 1] == '{') || (s[j] == '[' && s[j + 1] == '[')) {
        lemma_spec_split_top(s, start, j + 2, to, depth + 1, sep);
    } else if to - j > 1 && ((s[j] == '}' && s[j + 1] == '}') || (s[j] == ']' && s[j + 1] == ']')) {
        lemma_spec_split_top(s, start, j + 2, to, if depth > 0 {
            depth - 1
        } else {
            depth
        }, sep);
    } else {
        lemma_spec_split_top(s, start, j + 1, to, depth, sep);
    }
}

/// A table line's cells, split on a doubled separator.
pub open spec fn spec_split_cells(s: Seq<char>, start: int, j: int, to: int, m: char) -> Seq<
    (int, int),
>
    decreases to - j when 0 <= start <= j <= to <= s.len()
{
    if j >= to {
        seq![(start, to)]
    } else if to - j > 1 && s[j] == m && s[j + 1] == m {
        seq![(start, j)] + spec_split_cells(s, j + 2, j + 2, to, m)
    } else {
        spec_split_cells(s, start, j + 1, to, m)
    }
}

proof fn lemma_spec_split_cells(s: Seq<char>, start: int, j: int, to: int, m: char)
    requires
        0 <= start <= j <= to <= s.len(),
    ensures
        ({
            let segs = spec_split_cells(s, start, j, to, m);
            &&& segs.len() >= 1
            &&& forall|t: int|
                0 <= t < segs.len() ==> start <= (#[trigger] segs[t]).0 <= segs[t].1 <= to
        }),
    decreases to - j,
{
    if j >= to {
    } else if to - j > 1 && s[j] == m && s[j + 1] == m {
        lemma_spec_split_cells(s, j + 2, j + 2, to, m);
        let segs = spec_split_cells(s, start, j, to, m);
        let rest = spec_split_cells(s, j + 2, j + 2, to, m);
        assert forall|t: int| 0 <= t < segs.len() implies start <= (#[trigger] segs[t]).0
            <= segs[t].1 <= to by {
            if t > 0 {
                assert(segs[t] == rest[t - 1]);
            }
        }
    } else {
        lemma_spec_split_cells(s, start, j + 1, to, m);
    }
}

/// A named character entity at `i`: the decoded character and the position
/// just past the `;`.
pub open spec fn spec_entity(s: Seq<char>, i: int, to: int) -> Option<(char, int)> {
    if to - i > 4 && s[i + 1] == 'a' && s[i + 2] == 'm' && s[i + 3] == 'p' && s[i + 4] == ';' {
        Some(('&', i + 5))
    } else if to - i > 3 && s[i + 1] == 'l' && s[i + 2] == 't' && s[i + 3] == ';' {
        Some(('<', i + 4))
    } else if to - i > 3 && s[i + 1] == 'g' && s[i + 2] == 't' && s[i + 3] == ';' {
        Some(('>', i + 4))
    } else if to - i > 5 && s[i + 1] == 'q' && s[i + 2] == 'u' && s[i + 3] == 'o' && s[i + 4] == 't'
        && s[i + 5] == ';' {
        Some(('"', i + 6))
    } else if to - i > 5 && s[i + 1] == 'a' && s[i + 2] == 'p' && s[i + 3] == 'o' && s[i + 4] == 's'
        && s[i + 5] == ';' {
        Some(('\'', i + 6))
    } else if to - i > 5 && s[i + 1] == 'n' && s[i + 2] == 'b' && s[i + 3] == 's' && s[i + 4] == 'p'
        && s[i + 5] == ';' {
        Some((' ', i + 6))
    } else {
        None
    }
}

/// Where `prefix` read case-insensitively ends at `i`, if it is there.
pub open spec fn spec_prefix_end(s: Seq<char>, i: int, to: int, p: Seq<char>) -> Option<int> {
    if to - i >= p.len() && (forall|u: int|
        0 <= u < p.len() ==> crate::chars::lower_char(#[trigger] s[i + u])
            == crate::chars::lower_char(p[u])) {
        Some(i + p.len())
    } else {
        None
    }
}

/// End of the literal text run starting at `i`: the next markup opener, or
/// `to`.
pub open spec fn spec_text_end(s: Seq<char>, i: int, to: int) -> int
    decreases to - i when 0 <= i <= to <= s.len()
{
    if i < to && s[i] != '{' && s[i] != '[' && s[i] != '&' && s[i] != '<' {
        spec_text_end(s, i + 1, to)
    } else {
        i
    }
}

proof fn lemma_spec_text_end(s: Seq<char>, i: int, to: int)
    requires
        0 <= i <= to <= s.len(),
    ensures
        i <= spec_text_end(s, i, to) <= to,
    decreases to - i,
{
    if i < to && s[i] != '{' && s[i] != '[' && s[i] != '&' && s[i] != '<' {
        lemma_spec_text_end(s, i + 1, to);
    }
}

/// Scan of a redirect line for an opening doubled bracket.
pub open spec fn spec_rd_scan(s: Seq<char>, p: int, e: int) -> int
    decreases e - p when 0 <= p <= e <= s.len()
{
    if p < e && !(e - p > 1 && s[p] == '[' && s[p + 1] == '[') {
        spec_rd_scan(s, p + 1, e)
    } else {
        p
    }
}

proof fn lemma_spec_rd_scan(s: Seq<char>, p: int, e: int)
    requires
        0 <= p <= e <= s.len(),
    ensures
        p <= spec_rd_scan(s, p, e) <= e,
    decreases e - p,
{
    if p < e && !(e - p > 1 && s[p] == '[' && s[p + 1] == '[') {
        lemma_spec_rd_scan(s, p + 1, e);
    }
}

/// The target of a redirect line: the bracketed title if one is there, the
/// rest of the line otherwise.
pub open spec fn spec_redirect_target(s: Seq<char>, from: int, e: int) -> Seq<char> {
    let p = spec_rd_scan(s, from, e);
    if p < e {
        match spec_find_pair_close(s, p + 2, e, 0, '[', ']') {
            Some(k) => s.subrange(p + 2, k),
            None => s.subrange(from, e),
        }
    } else {
        s.subrange(from, e)
    }
}

// ---- fused rendering of inline markup ----

/// What the inline markup of `[from, to)` flattens to, construct by
/// construct: exactly what rendering the parsed inline nodes yields.
pub open spec fn spec_inline_text(s: Seq<char>, from: int, to: int) -> Seq<char>
    decreases to - from, 0int when 0 <= from <= to <= s.len() via spec_inline_text_dec
{
    if from >= to {
        Seq::<char>::empty()
    } else {
        let c = s[from];
        if c == '{' && to - from > 2 && s[from + 1] == '{' && s[from + 2] == '{' {
            match spec_find_triple(s, from + 3, to) {
                Some(k) => spec_inline_text(s, k + 3, to),
                None => seq!['{'] + spec_inline_text(s, from + 1, to),
            }
        } else if c == '{' && to - from > 1 && s[from + 1] == '{' {
            match spec_find_pair_close(s, from + 2, to, 0, '{', '}') {
                Some(k) => "{{"@ + spec_segs_text(
                    s,
                    spec_split_top(s, from + 2, from + 2, k, 0, '|'),
                    "|"@,
                    k - from - 1,
                ) + "}}"@ + spec_inline_text(s, k + 2, to),
                None => seq!['{'] + spec_inline_text(s, from + 1, to),
            }
        } else if c == '[' && to - from > 1 && s[from + 1] == '[' {
            match spec_find_pair_close(s, from + 2, to, 0, '[', ']') {
                Some(k) => {
                    let segs = spec_split_top(s, from + 2, from + 2, k, 0, '|');
                    let a0 = segs[0].0;
                    let b0 = segs[0].1;
                    let last = segs[segs.len() - 1];
                    let caption = if segs.len() > 1 {
                        spec_inline_text(s, last.0, last.1)
                    } else {
                        Seq::<char>::empty()
                    };
                    let inner = if spec_prefix_end(s, a0, b0, "Category:"@) is Some {
                        Seq::<char>::empty()
                    } else {
                        match spec_prefix_end(s, a0, b0, "File:"@) {
                            Some(p) => "IMAGE: "@ + s.subrange(p, b0) + seq![' '] + caption,
                            None => match spec_prefix_end(s, a0, b0, "Image:"@) {
                                Some(p) => "IMAGE: "@ + s.subrange(p, b0) + seq![' '] + caption,
                                None => (if segs.len() > 1 {
                                    spec_inline_text(s, segs[1].0, segs[1].1)
                                } else {
                                    Seq::<char>::empty()
                                }) + "("@ + s.subrange(a0, b0) + ")"@,
                            },
                        }
                    };
                    inner + spec_inline_text(s, k + 2, to)
                },
                None => seq!['['] + spec_inline_text(s, from + 1, to),
            }
        } else if c == '&' {
            match spec_entity(s, from, to) {
                Some((e2, nx)) => seq![e2] + spec_inline_text(s, nx, to),
                None => seq!['&'] + spec_inline_text(s, from + 1, to),
            }
        } else if c == '<' && to - from > 3 && s[from + 1] == '!' && s[from + 2] == '-' && s[from
            + 3] == '-' {
            match spec_find_comment(s, from + 4, to) {
                Some(k) => s.subrange(from, k + 3) + spec_inline_text(s, k + 3, to),
                None => s.subrange(from, to) + spec_inline_text(s, to, to),
            }
        } else if c == '<' {
            match first_gt(s, from + 1) {
                Some(j) => if j - from >= 2 && j < to {
                    spec_inline_text(s, j + 1, to)
                } else {
                    seq!['<'] + spec_inline_text(s, from + 1, to)
                },
                None => seq!['<'] + spec_inline_text(s, from + 1, to),
            }
        } else {
            s.subrange(from, spec_text_end(s, from + 1, to)) + spec_inline_text(
                s,
                spec_text_end(s, from + 1, to),
                to,
            )
        }
    }
}

/// What a separator-joined list of inline segments flattens to; `hi`
/// bounds every segment's width for termination.
pub open spec fn spec_segs_text(s: Seq<char>, segs: Seq<(int, int)>, sep: Seq<char>, hi: int) -> Seq<
    char,
>
    decreases hi, segs.len() when (hi >= 0 && forall|t: int|
        0 <= t < segs.len() ==> 0 <= (#[trigger] segs[t]).0 <= segs[t].1 <= s.len() && segs[t].1
            - segs[t].0 < hi) via spec_segs_text_dec
{
    if segs.len() == 0 {
        Seq::<char>::empty()
    } else if segs.len() == 1 {
        spec_inline_text(s, segs[0].0, segs[0].1)
    } else {
        spec_segs_text(s, segs.drop_last(), sep, hi) + sep + spec_inline_text(
            s,
            segs.last().0,
            segs.last().1,
        )
    }
}

#[via_fn]
proof fn spec_inline_text_dec(s: Seq<char>, from: int, to: int) {
    if 0 <= from && from < to && to <= s.len() {
        let c = s[from];
        if c == '{' && to - from > 2 && s[from + 1] == '{' && s[from + 2] == '{' {
            lemma_spec_find_triple(s, from + 3, to);
        } else if c == '{' && to - from > 1 && s[from + 1] == '{' {
            lemma_spec_find_pair_close(s, from + 2, to, 0, '{', '}');
            match spec_find_pair_close(s, from + 2, to, 0, '{', '}') {
                Some(k) => {
                    lemma_spec_split_top(s, from + 2, from + 2, k, 0, '|');
                },
                None => {},
            }
        } else if c == '[' && to - from > 1 && s[from + 1] == '[' {
            lemma_spec_find_pair_close(s, from + 2, to, 0, '[', ']');
            match spec_find_pair_close(s, from + 2, to, 0, '[', ']') {
                Some(k) => {
                    lemma_spec_split_top(s, from + 2, from + 2, k, 0, '|');
                },
                None => {},
            }
        } else if c == '<' && !(to - from > 3 && s[from + 1] == '!' && s[from + 2] == '-' && s[from
            + 3] == '-') {
            lemma_first_gt(s, from + 1);
        } else if c == '<' {
            lemma_spec_find_comment(s, from + 4, to);
        } else {
            lemma_spec_text_end(s, from + 1, to);
        }
    }
}

#[via_fn]
proof fn spec_segs_text_dec(s: Seq<char>, segs: Seq<(int, int)>, sep: Seq<char>, hi: int) {
    if segs.len() >= 1 {
        assert(0 <= (segs[0]).0 <= segs[0].1 <= s.len());
        assert(0 <= (segs[segs.len() - 1]).0 <= segs[segs.len() - 1].1 <= s.len());
        assert forall|t: int| 0 <= t < segs.drop_last().len() implies 0 <= (
        #[trigger] segs.drop_last()[t]).0 <= segs.drop_last()[t].1 <= s.len()
            && segs.drop_last()[t].1 - segs.drop_last()[t].0 < hi by {
            assert(segs.drop_last()[t] == segs[t]);
        }
    }
}


// ---- fused rendering of block structure ----

/// Past the run of blank lines starting at line `i`.
pub open spec fn spec_skip_blank_lines(s: Seq<char>, i: int) -> int
    decreases s.len() - i when 0 <= i <= s.len() via spec_skip_blank_lines_dec
{
    if i >= s.len() {
        i
    } else {
        let e = spec_line_end(s, i);
        if spec_blank_range(s, i, e) {
            spec_skip_blank_lines(s, spec_next_line(s, e))
        } else {
            i
        }
    }
}

#[via_fn]
proof fn spec_skip_blank_lines_dec(s: Seq<char>, i: int) {
    if 0 <= i < s.len() {
        lemma_spec_line_end(s, i);
    }
}

proof fn lemma_spec_skip_blank_lines(s: Seq<char>, i: int)
    requires
        0 <= i <= s.len(),
    ensures
        i <= spec_skip_blank_lines(s, i) <= s.len(),
        i < s.len() && spec_blank_range(s, i, spec_line_end(s, i)) ==> spec_skip_blank_lines(s, i)
            > i,
    decreases s.len() - i,
{
    if i < s.len() {
        lemma_spec_line_end(s, i);
        if spec_blank_range(s, i, spec_line_end(s, i)) {
            lemma_spec_skip_blank_lines(s, spec_next_line(s, spec_line_end(s, i)));
        }
    }
}

/// Past the run of preformatted (indented, non-blank) lines starting at
/// line `i`.
pub open spec fn spec_skip_pre_lines(s: Seq<char>, i: int) -> int
    decreases s.len() - i when 0 <= i <= s.len() via spec_skip_pre_lines_dec
{
    if i >= s.len() {
        i
    } else {
        let e = spec_line_end(s, i);
        if !spec_blank_range(s, i, e) && (s[i] == ' ' || s[i] == '\t') {
            spec_skip_pre_lines(s, spec_next_line(s, e))
        } else {
            i
        }
    }
}

#[via_fn]
proof fn spec_skip_pre_lines_dec(s: Seq<char>, i: int) {
    if 0 <= i < s.len() {
        lemma_spec_line_end(s, i);
    }
}

proof fn lemma_spec_skip_pre_lines(s: Seq<char>, i: int)
    requires
        0 <= i <= s.len(),
    ensures
        i <= spec_skip_pre_lines(s, i) <= s.len(),
        i < s.len() && !spec_blank_range(s, i, spec_line_end(s, i)) && (s[i] == ' ' || s[i]
            == '\t') ==> spec_skip_pre_lines(s, i) > i,
    decreases s.len() - i,
{
    if i < s.len() {
        lemma_spec_line_end(s, i);
        if !spec_blank_range(s, i, spec_line_end(s, i)) && (s[i] == ' ' || s[i] == '\t') {
            lemma_spec_skip_pre_lines(s, spec_next_line(s, spec_line_end(s, i)));
        }
    }
}

/// The end of the paragraph whose first line ends at `pe`: extends while
/// the following lines are plain paragraph lines.
pub open spec fn spec_para_close(s: Seq<char>, pe: int) -> int
    decreases s.len() - pe when 0 <= pe <= s.len() via spec_para_close_dec
{
    if pe >= s.len() {
        pe
    } else {
        let e2 = spec_line_end(s, pe + 1);
        if spec_para_line(s, pe + 1, e2) {
            spec_para_close(s, e2)
        } else {
            pe
        }
    }
}

#[via_fn]
proof fn spec_para_close_dec(s: Seq<char>, pe: int) {
    if 0 <= pe < s.len() {
        lemma_spec_line_end(s, pe + 1);
    }
}

proof fn lemma_spec_para_close(s: Seq<char>, pe: int)
    requires
        0 <= pe <= s.len(),
    ensures
        pe <= spec_para_close(s, pe) <= s.len(),
    decreases s.len() - pe,
{
    if pe < s.len() {
        lemma_spec_line_end(s, pe + 1);
        if spec_para_line(s, pe + 1, spec_line_end(s, pe + 1)) {
            lemma_spec_para_close(s, spec_line_end(s, pe + 1));
        }
    }
}

/// Past the run of list markers at the head of a list line.
pub open spec fn spec_markers_end(s: Seq<char>, k: int, e: int) -> int
    decreases e - k when 0 <= k <= e <= s.len()
{
    if k < e && (s[k] == '*' || s[k] == '#' || s[k] == ';' || s[k] == ':') {
        spec_markers_end(s, k + 1, e)
    } else {
        k
    }
}

/// Past the spaces after the list markers.
pub open spec fn spec_pad_end(s: Seq<char>, k: int, e: int) -> int
    decreases e - k when 0 <= k <= e <= s.len()
{
    if k < e && (s[k] == ' ' || s[k] == '\t') {
        spec_pad_end(s, k + 1, e)
    } else {
        k
    }
}

proof fn lemma_spec_markers_end(s: Seq<char>, k: int, e: int)
    requires
        0 <= k <= e <= s.len(),
    ensures
        k <= spec_markers_end(s, k, e) <= e,
    decreases e - k,
{
    if k < e && (s[k] == '*' || s[k] == '#' || s[k] == ';' || s[k] == ':') {
        lemma_spec_markers_end(s, k + 1, e);
    }
}

proof fn lemma_spec_pad_end(s: Seq<char>, k: int, e: int)
    requires
        0 <= k <= e <= s.len(),
    ensures
        k <= spec_pad_end(s, k, e) <= e,
    decreases e - k,
{
    if k < e && (s[k] == ' ' || s[k] == '\t') {
        lemma_spec_pad_end(s, k + 1, e);
    }
}

/// Where a list item's content starts: markers, then padding, stripped.
pub open spec fn spec_item_start(s: Seq<char>, i: int, e: int) -> int {
    spec_pad_end(s, spec_markers_end(s, i, e), e)
}

/// The flattened texts of a line's cells.
pub open spec fn spec_cells_text(s: Seq<char>, segs: Seq<(int, int)>) -> Seq<Seq<char>>
    decreases segs.len() when forall|t: int|
        0 <= t < segs.len() ==> 0 <= (#[trigger] segs[t]).0 <= segs[t].1 <= s.len()
    via spec_cells_text_dec
{
    if segs.len() == 0 {
        Seq::<Seq<char>>::empty()
    } else {
        spec_cells_text(s, segs.drop_last()) + seq![
            spec_inline_text(s, segs.last().0, segs.last().1),
        ]
    }
}

#[via_fn]
proof fn spec_cells_text_dec(s: Seq<char>, segs: Seq<(int, int)>) {
    if segs.len() > 0 {
        assert forall|t: int| 0 <= t < segs.drop_last().len() implies 0 <= (
        #[trigger] segs.drop_last()[t]).0 <= segs.drop_last()[t].1 <= s.len() by {
            assert(segs.drop_last()[t] == segs[t]);
        }
    }
}

/// Cell texts joined with a separator.
pub open spec fn spec_join_cells(rs: Seq<Seq<char>>, sep: Seq<char>) -> Seq<char>
    decreases rs.len(),
{
    if rs.len() == 0 {
        Seq::<char>::empty()
    } else if rs.len() == 1 {
        rs[0]
    } else {
        spec_join_cells(rs.drop_last(), sep) + sep + rs.last()
    }
}

/// What flushing the pending row emits: the joined cells and a newline,
/// or nothing for an empty row.
pub open spec fn spec_row_flush(racc: Seq<Seq<char>>) -> Seq<char> {
    if racc.len() > 0 {
        spec_join_cells(racc, " | "@) + seq!['\n']
    } else {
        Seq::<char>::empty()
    }
}

/// What the table body from line `i` flattens to, with the cell texts of
/// the unflushed row carried along, and where the table ends.
pub open spec fn spec_table_text(s: Seq<char>, i: int, racc: Seq<Seq<char>>) -> (Seq<char>, int)
    decreases s.len() - i when 0 <= i <= s.len() via spec_table_text_dec
{
    if i >= s.len() {
        (spec_row_flush(racc), s.len() as int)
    } else {
        let e2 = spec_line_end(s, i);
        let nx = spec_next_line(s, e2);
        if e2 - i > 1 && s[i] == '|' && s[i + 1] == '}' {
            (spec_row_flush(racc), nx)
        } else if e2 - i > 1 && s[i] == '|' && s[i + 1] == '+' {
            let rest = spec_table_text(s, nx, racc);
            (spec_inline_text(s, i + 2, e2) + seq!['\n'] + rest.0, rest.1)
        } else if e2 - i > 1 && s[i] == '|' && s[i + 1] == '-' {
            let rest = spec_table_text(s, nx, Seq::<Seq<char>>::empty());
            (spec_row_flush(racc) + rest.0, rest.1)
        } else if e2 - i > 0 && (s[i] == '|' || s[i] == '!') {
            let m = if s[i] == '|' {
                '|'
            } else {
                '!'
            };
            spec_table_text(s, nx, racc + spec_cells_text(s, spec_split_cells(s, i + 1, i + 1, e2, m)))
        } else {
            spec_table_text(s, nx, racc.push(spec_inline_text(s, i, e2)))
        }
    }
}

#[via_fn]
proof fn spec_table_text_dec(s: Seq<char>, i: int, racc: Seq<Seq<char>>) {
    if 0 <= i < s.len() {
        lemma_spec_line_end(s, i);
    }
}

proof fn lemma_spec_table_text(s: Seq<char>, i: int, racc: Seq<Seq<char>>)
    requires
        0 <= i <= s.len(),
    ensures
        i <= spec_table_text(s, i, racc).1 <= s.len(),
    decreases s.len() - i,
{
    if i < s.len() {
        lemma_spec_line_end(s, i);
        let e2 = spec_line_end(s, i);
        let nx = spec_next_line(s, e2);
        if e2 - i > 1 && s[i] == '|' && s[i + 1] == '}' {
        } else if e2 - i > 1 && s[i] == '|' && s[i + 1] == '+' {
            lemma_spec_table_text(s, nx, racc);
        } else if e2 - i > 1 && s[i] == '|' && s[i + 1] == '-' {
            lemma_spec_table_text(s, nx, Seq::<Seq<char>>::empty());
        } else if e2 - i > 0 && (s[i] == '|' || s[i] == '!') {
            let m = if s[i] == '|' {
                '|'
            } else {
                '!'
            };
            lemma_spec_table_text(
                s,
                nx,
                racc + spec_cells_text(s, spec_split_cells(s, i + 1, i + 1, e2, m)),
            );
        } else {
            lemma_spec_table_text(s, nx, racc.push(spec_inline_text(s, i, e2)));
        }
    }
}

/// What the whole markup from line `i` flattens to, block by block.
pub open spec fn spec_blocks_text(s: Seq<char>, i: int) -> Seq<char>
    decreases s.len() - i when 0 <= i <= s.len() via spec_blocks_text_dec
{
    if i >= s.len() {
        Seq::<char>::empty()
    } else {
        let e = spec_line_end(s, i);
        let nx = spec_next_line(s, e);
        if spec_blank_range(s, i, e) {
            seq!['\n', '\n'] + spec_blocks_text(s, spec_skip_blank_lines(s, i))
        } else if s[i] == '=' {
            s.subrange(i, e) + seq!['\n'] + spec_blocks_text(s, nx)
        } else if s[i] == '*' || s[i] == '#' || s[i] == ';' || s[i] == ':' {
            match spec_prefix_end(s, i, e, "#REDIRECT"@) {
                Some(p) => "REDIRECT: "@ + spec_redirect_target(s, p, e) + spec_blocks_text(s, nx),
                None => spec_inline_text(s, spec_item_start(s, i, e), e) + seq!['\n']
                    + spec_blocks_text(s, nx),
            }
        } else if s[i] == '{' && e - i > 1 && s[i + 1] == '|' {
            let t = spec_table_text(s, nx, Seq::<Seq<char>>::empty());
            t.0 + spec_blocks_text(s, t.1)
        } else if s[i] == ' ' || s[i] == '\t' {
            spec_blocks_text(s, spec_skip_pre_lines(s, i))
        } else {
            match spec_prefix_end(s, i, e, "#REDIRECT"@) {
                Some(p) => "REDIRECT: "@ + spec_redirect_target(s, p, e) + spec_blocks_text(s, nx),
                None => {
                    let pe = spec_para_close(s, e);
                    let keep = pe < s.len() && !spec_blank_range(
                        s,
                        pe + 1,
                        spec_line_end(s, pe + 1),
                    );
                    let stop = if keep {
                        pe + 1
                    } else {
                        pe
                    };
                    spec_inline_text(s, i, stop) + spec_blocks_text(s, spec_next_line(s, pe))
                },
            }
        }
    }
}

#[via_fn]
proof fn spec_blocks_text_dec(s: Seq<char>, i: int) {
    if 0 <= i < s.len() {
        lemma_spec_line_end(s, i);
        let e = spec_line_end(s, i);
        let nx = spec_next_line(s, e);
        if spec_blank_range(s, i, e) {
            lemma_spec_skip_blank_lines(s, i);
        } else if s[i] == '=' {
        } else if s[i] == '*' || s[i] == '#' || s[i] == ';' || s[i] == ':' {
        } else if s[i] == '{' && e - i > 1 && s[i + 1] == '|' {
            lemma_spec_table_text(s, nx, Seq::<Seq<char>>::empty());
        } else if s[i] == ' ' || s[i] == '\t' {
            lemma_spec_skip_pre_lines(s, i);
        } else {
            lemma_spec_para_close(s, e);
        }
    }
}

/// The exact meaning of `textify`: the block rendering of the markup,
/// normalized for indexing.
pub open spec fn spec_textify(s: Seq<char>) -> Seq<char> {
    spec_normalize(spec_blocks_text(s, 0), 0)
}

// ---- bridges between node rendering and the fused specification ----

proof fn lemma_render_push(ns: Seq<Node>, n: Node)
    ensures
        render_nodes(ns.push(n)) == render_nodes(ns) + render_node(n),
{
    assert(ns.push(n).drop_last() =~= ns);
    assert(ns.push(n).last() == n);
}

proof fn lemma_render_concat(a: Seq<Node>, b: Seq<Node>)
    ensures
        render_nodes(a + b) == render_nodes(a) + render_nodes(b),
    decreases b.len(),
{
    if b.len() == 0 {
        assert(a + b =~= a);
        assert(render_nodes(a) + render_nodes(b) =~= render_nodes(a));
    } else {
        lemma_render_concat(a, b.drop_last());
        assert((a + b).drop_last() =~= a + b.drop_last());
        assert((a + b).len() > 0);
        assert((a + b).last() == b.last());
        assert(render_nodes(a) + render_nodes(b) =~= render_nodes(a) + (render_nodes(b.drop_last())
            + render_node(b.last())));
    }
}

proof fn lemma_parts_join(ps: Seq<Vec<Node>>, rs: Seq<Seq<char>>, sep: Seq<char>)
    requires
        ps.len() == rs.len(),
        forall|k: int| 0 <= k < ps.len() ==> rs[k] == render_nodes((#[trigger] ps[k])@),
    ensures
        render_parts(ps, sep) == spec_join_cells(rs, sep),
    decreases ps.len(),
{
    if ps.len() > 1 {
        assert forall|k: int| 0 <= k < ps.drop_last().len() implies rs.drop_last()[k]
            == render_nodes((#[trigger] ps.drop_last()[k])@) by {
            assert(ps.drop_last()[k] == ps[k]);
            assert(rs.drop_last()[k] == rs[k]);
        }
        lemma_parts_join(ps.drop_last(), rs.drop_last(), sep);
        assert(rs.last() == render_nodes(ps[ps.len() - 1]@));
    } else if ps.len() == 1 {
        assert(rs[0] == render_nodes(ps[0]@));
    }
}

// ---- the node tree ----

/// One node of the parsed markup tree. The grammar's node kinds are closed:
/// literal text (bold/italic markup, magic words and horizontal rules stay
/// literal), decoded character entities, comments kept literally, tag
/// markers, standalone template-parameter references, category links and
/// preformatted blocks (all three render to nothing), paragraph breaks,
/// headings, redirects, templates, links, images, list items, and table
/// captions and rows.
pub enum Node {
    Text(Vec<char>),
    Entity(char),
    Comment(Vec<char>),
    Tag,
    ParamRef,
    Category,
    Pre,
    ParaBreak,
    Heading(Vec<char>),
    Redirect(Vec<char>),
    Template(Vec<Vec<Node>>),
    Link(Vec<char>, Vec<Node>),
    Image(Vec<char>, Vec<Node>),
    ListItem(Vec<Node>),
    TableCaption(Vec<Node>),
    TableRow(Vec<Vec<Node>>),
}

/// Depth-first rendering of one node, as the textifier flattens it.
pub open spec fn render_node(n: Node) -> Seq<char>
    decreases n,
{
    match n {
        Node::Text(t) => t@,
        Node::Entity(c) => seq![c],
        Node::Comment(t) => t@,
        Node::Tag => Seq::<char>::empty(),
        Node::ParamRef => Seq::<char>::empty(),
        Node::Category => Seq::<char>::empty(),
        Node::Pre => Seq::<char>::empty(),
        Node::ParaBreak => seq!['\n', '\n'],
        Node::Heading(l) => l@ + seq!['\n'],
        Node::Redirect(t) => "REDIRECT: "@ + t@,
        Node::Template(parts) => "{{"@ + render_parts(parts@, "|"@) + "}}"@,
        Node::Link(target, display) => render_nodes(display@) + "("@ + target@ + ")"@,
        Node::Image(target, caption) => "IMAGE: "@ + target@ + seq![' '] + render_nodes(caption@),
        Node::ListItem(ns) => render_nodes(ns@) + seq!['\n'],
        Node::TableCaption(ns) => render_nodes(ns@) + seq!['\n'],
        Node::TableRow(cells) => render_parts(cells@, " | "@) + seq!['\n'],
    }
}

/// Depth-first rendering of a node list.
pub open spec fn render_nodes(ns: Seq<Node>) -> Seq<char>
    decreases ns,
{
    if ns.len() == 0 {
        Seq::<char>::empty()
    } else {
        render_nodes(ns.drop_last()) + render_node(ns.last())
    }
}

/// Rendering of template parameters or table cells, joined by `sep`.
pub open spec fn render_parts(ps: Seq<Vec<Node>>, sep: Seq<char>) -> Seq<char>
    decreases ps,
{
    if ps.len() == 0 {
        Seq::<char>::empty()
    } else if ps.len() == 1 {
        render_nodes(ps[0]@)
    } else {
        render_parts(ps.drop_last(), sep) + sep + render_nodes(ps.last()@)
    }
}

fn push_str_chars(out: &mut Vec<char>, s: &str)
    ensures
        final(out)@ == old(out)@ + s@,
{
    let v = chars_of(s);
    push_all(out, &v);
}

fn render_node_into(n: &Node, out: &mut Vec<char>)
    ensures
        final(out)@ == old(out)@ + render_node(*n),
    decreases *n,
{
    match n {
        Node::Text(t) => {
            push_all(out, t);
        },
        Node::Entity(c) => {
            out.push(*c);
            proof {
                assert(out@ =~= old(out)@ + seq![*c]);
            }
        },
        Node::Comment(t) => {
            push_all(out, t);
        },
        Node::Tag => {
            proof {
                assert(out@ =~= old(out)@ + Seq::<char>::empty());
            }
        },
        Node::ParamRef => {
            proof {
                assert(out@ =~= old(out)@ + Seq::<char>::empty());
            }
        },
        Node::Category => {
            proof {
                assert(out@ =~= old(out)@ + Seq::<char>::empty());
            }
        },
        Node::Pre => {
            proof {
                assert(out@ =~= old(out)@ + Seq::<char>::empty());
            }
        },
        Node::ParaBreak => {
            out.push('\n');
            out.push('\n');
            proof {
                assert(out@ =~= old(out)@ + seq!['\n', '\n']);
            }
        },
        Node::Heading(l) => {
            push_all(out, l);
            out.push('\n');
            proof {
                assert(out@ =~= old(out)@ + (l@ + seq!['\n']));
            }
        },
        Node::Redirect(t) => {
            push_str_chars(out, "REDIRECT: ");
            push_all(out, t);
            proof {
                assert(out@ =~= old(out)@ + ("REDIRECT: "@ + t@));
            }
        },
        Node::Template(parts) => {
            push_str_chars(out, "{{");
            render_parts_into(parts, "|", out);
            push_str_chars(out, "}}");
            proof {
                assert(out@ =~= old(out)@ + ("{{"@ + render_parts(parts@, "|"@) + "}}"@));
            }
        },
        Node::Link(target, display) => {
            render_nodes_into(display, out);
            push_str_chars(out, "(");
            push_all(out, target);
            push_str_chars(out, ")");
            proof {
                assert(out@ =~= old(out)@ + (render_nodes(display@) + "("@ + target@ + ")"@));
            }
        },
        Node::Image(target, caption) => {
            push_str_chars(out, "IMAGE: ");
            push_all(out, target);
            out.push(' ');
            render_nodes_into(caption, out);
            proof {
                assert(out@ =~= old(out)@ + ("IMAGE: "@ + target@ + seq![' '] + render_nodes(
                    caption@,
                )));
            }
        },
        Node::ListItem(ns) => {
            render_nodes_into(ns, out);
            out.push('\n');
            proof {
                assert(out@ =~= old(out)@ + (render_nodes(ns@) + seq!['\n']));
            }
        },
        Node::TableCaption(ns) => {
            render_nodes_into(ns, out);
            out.push('\n');
            proof {
                assert(out@ =~= old(out)@ + (render_nodes(ns@) + seq!['\n']));
            }
        },
        Node::TableRow(cells) => {
            render_parts_into(cells, " | ", out);
            out.push('\n');
            proof {
                assert(out@ =~= old(out)@ + (render_parts(cells@, " | "@) + seq!['\n']));
            }
        },
    }
}

fn render_nodes_into(ns: &Vec<Node>, out: &mut Vec<char>)
    ensures
        final(out)@ == old(out)@ + render_nodes(ns@),
    decreases *ns,
{
    let mut k: usize = 0;
    proof {
        assert(ns@.take(0) =~= Seq::<Node>::empty());
        assert(out@ =~= old(out)@ + render_nodes(ns@.take(0)));
    }
    while k < ns.len()
        invariant
            0 <= k <= ns@.len(),
            out@ == old(out)@ + render_nodes(ns@.take(k as int)),
        decreases ns@.len() - k,
    {
        render_node_into(&ns[k], out);
        proof {
            assert(ns@.take(k + 1).drop_last() =~= ns@.take(k as int));
            assert(ns@.take(k + 1).last() == ns@[k as int]);
            assert(out@ =~= old(out)@ + render_nodes(ns@.take(k + 1)));
        }
        k = k + 1;
    }
    proof {
        assert(ns@.take(ns@.len() as int) =~= ns@);
    }
}

fn render_parts_into(ps: &Vec<Vec<Node>>, sep: &str, out: &mut Vec<char>)
    ensures
        final(out)@ == old(out)@ + render_parts(ps@, sep@),
    decreases *ps,
{
    let mut k: usize = 0;
    proof {
        assert(ps@.take(0) =~= Seq::<Vec<Node>>::empty());
        assert(out@ =~= old(out)@ + render_parts(ps@.take(0), sep@));
    }
    while k < ps.len()
        invariant
            0 <= k <= ps@.len(),
            out@ == old(out)@ + render_parts(ps@.take(k as int), sep@),
        decreases ps@.len() - k,
    {
        if k > 0 {
            push_str_chars(out, sep);
        }
        render_nodes_into(&ps[k], out);
        proof {
            assert(ps@.take(k + 1).drop_last() =~= ps@.take(k as int));
            assert(ps@.take(k + 1).last() == ps@[k as int]);
            if k == 0 {
                assert(ps@.take(1).len() == 1);
                assert(ps@.take(1)[0] == ps@[0]);
                assert(out@ =~= old(out)@ + render_parts(ps@.take(1), sep@));
            } else {
                assert(out@ =~= old(out)@ + render_parts(ps@.take(k + 1), sep@));
            }
        }
        k = k + 1;
    }
    proof {
        assert(ps@.take(ps@.len() as int) =~= ps@);
    }
}

/// Renders a parsed tree back to flattened plain text; the exact statement
/// is `render_nodes`.
pub fn render_markup(ns: &Vec<Node>) -> (r: String)
    ensures
        r@ == render_nodes(ns@),
{
    let mut out: Vec<char> = Vec::new();
    render_nodes_into(ns, &mut out);
    string_from_chars(&out)
}

// ---- the parser ----
// Best-effort and total: malformed markup never aborts parsing; whatever
// cannot be read as a construct is kept as literal text.

fn find_close_braces(v: &Vec<char>, from: usize, to: usize) -> (r: Option<usize>)
    requires
        from <= to <= v@.len(),
    ensures
        match r {
            Some(k) => spec_find_pair_close(v@, from as int, to as int, 0, '{', '}') == Some(
                k as int,
            ) && from <= k && k + 2 <= to,
            None => spec_find_pair_close(v@, from as int, to as int, 0, '{', '}') is None,
        },
{
    let mut j: usize = from;
    let mut depth: usize = 0;
    while j < to && to - j > 1
        invariant
            from <= j <= to <= v@.len(),
            depth <= j,
            spec_find_pair_close(v@, from as int, to as int, 0, '{', '}') == spec_find_pair_close(
                v@,
                j as int,
                to as int,
                depth as int,
                '{',
                '}',
            ),
        decreases to - j,
    {
        if v[j] == '{' && v[j + 1] == '{' {
            depth = depth + 1;
            j = j + 2;
        } else if v[j] == '}' && v[j + 1] == '}' {
            if depth == 0 {
                return Some(j);
            }
            depth = depth - 1;
            j = j + 2;
        } else {
            j = j + 1;
        }
    }
    None
}

fn find_close_brackets(v: &Vec<char>, from: usize, to: usize) -> (r: Option<usize>)
    requires
        from <= to <= v@.len(),
    ensures
        match r {
            Some(k) => spec_find_pair_close(v@, from as int, to as int, 0, '[', ']') == Some(
                k as int,
            ) && from <= k && k + 2 <= to,
            None => spec_find_pair_close(v@, from as int, to as int, 0, '[', ']') is None,
        },
{
    let mut j: usize = from;
    let mut depth: usize = 0;
    while j < to && to - j > 1
        invariant
            from <= j <= to <= v@.len(),
            depth <= j,
            spec_find_pair_close(v@, from as int, to as int, 0, '[', ']') == spec_find_pair_close(
                v@,
                j as int,
                to as int,
                depth as int,
                '[',
                ']',
            ),
        decreases to - j,
    {
        if v[j] == '[' && v[j + 1] == '[' {
            depth = depth + 1;
            j = j + 2;
        } else if v[j] == ']' && v[j + 1] == ']' {
            if depth == 0 {
                return Some(j);
            }
            depth = depth - 1;
            j = j + 2;
        } else {
            j = j + 1;
        }
    }
    None
}

/// Finds the first occurrence of three closing braces at or after `from`.
fn find_triple_close(v: &Vec<char>, from: usize, to: usize) -> (r: Option<usize>)
    requires
        from <= to <= v@.len(),
    ensures
        match r {
            Some(k) => spec_find_triple(v@, from as int, to as int) == Some(k as int) && from <= k
                && k + 3 <= to,
            None => spec_find_triple(v@, from as int, to as int) is None,
        },
{
    let mut j: usize = from;
    while j < to && to - j > 2
        invariant
            from <= j <= to <= v@.len(),
            spec_find_triple(v@, from as int, to as int) == spec_find_triple(
                v@,
                j as int,
                to as int,
            ),
        decreases to - j,
    {
        if v[j] == '}' && v[j + 1] == '}' && v[j + 2] == '}' {
            return Some(j);
        }
        j = j + 1;
    }
    None
}

/// Finds the end of a comment opened at `from` (the position just after
/// `-->`), if the comment is closed before `to`.
fn find_comment_close(v: &Vec<char>, from: usize, to: usize) -> (r: Option<usize>)
    requires
        from <= to <= v@.len(),
    ensures
        match r {
            Some(k) => spec_find_comment(v@, from as int, to as int) == Some(k as int) && from <= k
                && k + 3 <= to,
            None => spec_find_comment(v@, from as int, to as int) is None,
        },
{
    let mut j: usize = from;
    while j < to && to - j > 2
        invariant
            from <= j <= to <= v@.len(),
            spec_find_comment(v@, from as int, to as int) == spec_find_comment(
                v@,
                j as int,
                to as int,
            ),
        decreases to - j,
    {
        if v[j] == '-' && v[j + 1] == '-' && v[j + 2] == '>' {
            return Some(j);
        }
        j = j + 1;
    }
    None
}

/// Splits `[from, to)` on top-level `sep` characters, nesting-aware for
/// braces and brackets; always yields at least one segment.
fn split_top(v: &Vec<char>, from: usize, to: usize, sep: char) -> (r: Vec<(usize, usize)>)
    requires
        from <= to <= v@.len(),
    ensures
        r@.len() >= 1,
        forall|t: int|
            0 <= t < r@.len() ==> from <= (#[trigger] r@[t]).0 && r@[t].0 <= r@[t].1 && r@[t].1
                <= to,
        seg_views(r@) == spec_split_top(v@, from as int, from as int, to as int, 0, sep),
{
    let mut segs: Vec<(usize, usize)> = Vec::new();
    let mut start: usize = from;
    let mut j: usize = from;
    let mut depth: usize = 0;
    proof {
        assert(seg_views(segs@) + spec_split_top(v@, from as int, from as int, to as int, 0, sep)
            =~~= spec_split_top(v@, from as int, from as int, to as int, 0, sep));
    }
    while j < to
        invariant
            from <= start <= j <= to <= v@.len(),
            depth <= j,
            forall|t: int|
                0 <= t < segs@.len() ==> from <= (#[trigger] segs@[t]).0 && segs@[t].0
                    <= segs@[t].1 && segs@[t].1 <= to,
            seg_views(segs@) + spec_split_top(
                v@,
                start as int,
                j as int,
                to as int,
                depth as int,
                sep,
            ) =~~= spec_split_top(v@, from as int, from as int, to as int, 0, sep),
        decreases to - j,
    {
        let c = v[j];
        if depth == 0 && c == sep {
            let ghost pre = seg_views(segs@);
            segs.push((start, j));
            proof {
                assert(seg_views(segs@) =~~= pre + seq![(start as int, j as int)]);
                assert(seg_views(segs@) + spec_split_top(
                    v@,
                    j + 1,
                    j + 1,
                    to as int,
                    depth as int,
                    sep,
                ) =~~= pre + (seq![(start as int, j as int)] + spec_split_top(
                    v@,
                    j + 1,
                    j + 1,
                    to as int,
                    depth as int,
                    sep,
                )));
            }
            start = j + 1;
            j = j + 1;
        } else if to - j > 1 && ((c == '{' && v[j + 1] == '{') || (c == '[' && v[j + 1] == '[')) {
            depth = depth + 1;
            j = j + 2;
        } else if to - j > 1 && ((c == '}' && v[j + 1] == '}') || (c == ']' && v[j + 1] == ']')) {
            if depth > 0 {
                depth = depth - 1;
            }
            j = j + 2;
        } else {
            j = j + 1;
        }
    }
    let ghost pre = seg_views(segs@);
    segs.push((start, to));
    proof {
        assert(seg_views(segs@) =~~= pre + seq![(start as int, to as int)]);
        assert(spec_split_top(v@, start as int, j as int, to as int, depth as int, sep) =~= seq![
            (start as int, to as int),
        ]);
    }
    segs
}

/// Decodes a named character entity at `i` (`&` already seen there);
/// returns the character and the position just past the `;`.
fn parse_entity(v: &Vec<char>, i: usize, to: usize) -> (r: Option<(char, usize)>)
    requires
        i < to <= v@.len(),
        v@[i as int] == '&',
    ensures
        match r {
            Some(p) => spec_entity(v@, i as int, to as int) == Some((p.0, p.1 as int)) && i < p.1
                <= to,
            None => spec_entity(v@, i as int, to as int) is None,
        },
{
    if to - i > 4 && v[i + 1] == 'a' && v[i + 2] == 'm' && v[i + 3] == 'p' && v[i + 4] == ';' {
        return Some(('&', i + 5));
    }
    if to - i > 3 && v[i + 1] == 'l' && v[i + 2] == 't' && v[i + 3] == ';' {
        return Some(('<', i + 4));
    }
    if to - i > 3 && v[i + 1] == 'g' && v[i + 2] == 't' && v[i + 3] == ';' {
        return Some(('>', i + 4));
    }
    if to - i > 5 && v[i + 1] == 'q' && v[i + 2] == 'u' && v[i + 3] == 'o' && v[i + 4] == 't'
        && v[i + 5] == ';' {
        return Some(('"', i + 6));
    }
    if to - i > 5 && v[i + 1] == 'a' && v[i + 2] == 'p' && v[i + 3] == 'o' && v[i + 4] == 's'
        && v[i + 5] == ';' {
        return Some(('\'', i + 6));
    }
    if to - i > 5 && v[i + 1] == 'n' && v[i + 2] == 'b' && v[i + 3] == 's' && v[i + 4] == 'p'
        && v[i + 5] == ';' {
        return Some((' ', i + 6));
    }
    None
}

/// Reads the characters of `[from, to)` into a fresh vector.
fn slice_chars(v: &Vec<char>, from: usize, to: usize) -> (r: Vec<char>)
    requires
        from <= to <= v@.len(),
    ensures
        r@ == v@.subrange(from as int, to as int),
{
    let mut out: Vec<char> = Vec::new();
    push_range(&mut out, v, from, to);
    proof {
        assert(out@ =~= v@.subrange(from as int, to as int));
    }
    out
}

/// If the characters at `i` spell `prefix` (case-insensitively over ASCII),
/// the position just past it.
fn strip_prefix_ci(v: &Vec<char>, i: usize, to: usize, prefix: &Vec<char>) -> (r: Option<usize>)
    requires
        i <= to <= v@.len(),
    ensures
        match r {
            Some(p) => spec_prefix_end(v@, i as int, to as int, prefix@) == Some(p as int) && i <= p
                <= to,
            None => spec_prefix_end(v@, i as int, to as int, prefix@) is None,
        },
{
    if to - i < prefix.len() {
        return None;
    }
    let mut k: usize = 0;
    while k < prefix.len()
        invariant
            0 <= k <= prefix@.len(),
            i + prefix@.len() <= to <= v@.len(),
            forall|u: int|
                0 <= u < k ==> crate::chars::lower_char(#[trigger] v@[i + u])
                    == crate::chars::lower_char(prefix@[u]),
        decreases prefix@.len() - k,
    {
        if crate::chars::to_lower(v[i + k]) != crate::chars::to_lower(prefix[k]) {
            proof {
                assert(crate::chars::lower_char(v@[i + k as int]) != crate::chars::lower_char(
                    prefix@[k as int],
                ));
            }
            return None;
        }
        k = k + 1;
    }
    Some(i + prefix.len())
}


/// End of the literal text run starting at `i`.
fn text_end(v: &Vec<char>, i: usize, to: usize) -> (r: usize)
    requires
        i <= to <= v@.len(),
    ensures
        r == spec_text_end(v@, i as int, to as int),
        i <= r <= to,
{
    let mut k: usize = i;
    while k < to && v[k] != '{' && v[k] != '[' && v[k] != '&' && v[k] != '<'
        invariant
            i <= k <= to <= v@.len(),
            spec_text_end(v@, i as int, to as int) == spec_text_end(v@, k as int, to as int),
        decreases to - k,
    {
        k = k + 1;
    }
    k
}

/// Where a list item's content starts: list markers and padding stripped.
fn item_start(v: &Vec<char>, i: usize, e: usize) -> (r: usize)
    requires
        i <= e <= v@.len(),
    ensures
        r == spec_item_start(v@, i as int, e as int),
        i <= r <= e,
{
    let mut k: usize = i;
    while k < e && (v[k] == '*' || v[k] == '#' || v[k] == ';' || v[k] == ':')
        invariant
            i <= k <= e <= v@.len(),
            spec_markers_end(v@, i as int, e as int) == spec_markers_end(v@, k as int, e as int),
        decreases e - k,
    {
        k = k + 1;
    }
    let ghost mk = k as int;
    let mut k2: usize = k;
    while k2 < e && (v[k2] == ' ' || v[k2] == '\t')
        invariant
            mk <= k2 <= e <= v@.len(),
            spec_pad_end(v@, mk, e as int) == spec_pad_end(v@, k2 as int, e as int),
        decreases e - k2,
    {
        k2 = k2 + 1;
    }
    k2
}

/// Past the run of blank lines starting at line `i`.
fn skip_blanks(v: &Vec<char>, i: usize) -> (r: usize)
    requires
        i <= v@.len(),
    ensures
        r == spec_skip_blank_lines(v@, i as int),
        i <= r <= v@.len(),
{
    proof {
        lemma_spec_skip_blank_lines(v@, i as int);
    }
    let mut k: usize = i;
    loop
        invariant
            i <= k <= v@.len(),
            spec_skip_blank_lines(v@, i as int) == spec_skip_blank_lines(v@, k as int),
        decreases v@.len() - k,
    {
        if k >= v.len() {
            return k;
        }
        let e = line_end(v, k);
        if !is_blank_line(v, k, e) {
            return k;
        }
        k = if e < v.len() {
            e + 1
        } else {
            v.len()
        };
    }
}

/// Past the run of preformatted lines starting at line `i`.
fn skip_pres(v: &Vec<char>, i: usize) -> (r: usize)
    requires
        i <= v@.len(),
    ensures
        r == spec_skip_pre_lines(v@, i as int),
        i <= r <= v@.len(),
{
    proof {
        lemma_spec_skip_pre_lines(v@, i as int);
    }
    let mut k: usize = i;
    loop
        invariant
            i <= k <= v@.len(),
            spec_skip_pre_lines(v@, i as int) == spec_skip_pre_lines(v@, k as int),
        decreases v@.len() - k,
    {
        if k >= v.len() {
            return k;
        }
        let e = line_end(v, k);
        if is_blank_line(v, k, e) || !(v[k] == ' ' || v[k] == '\t') {
            return k;
        }
        k = if e < v.len() {
            e + 1
        } else {
            v.len()
        };
    }
}

/// The end of the paragraph whose first line ends at `pe0`.
fn para_close(v: &Vec<char>, pe0: usize) -> (r: usize)
    requires
        pe0 <= v@.len(),
    ensures
        r == spec_para_close(v@, pe0 as int),
        pe0 <= r <= v@.len(),
{
    let mut pe: usize = pe0;
    loop
        invariant
            pe0 <= pe <= v@.len(),
            spec_para_close(v@, pe0 as int) == spec_para_close(v@, pe as int),
        decreases v@.len() - pe,
    {
        if pe >= v.len() {
            return pe;
        }
        let e2 = line_end(v, pe + 1);
        if !is_para_line(v, pe + 1, e2) {
            return pe;
        }
        pe = e2;
    }
}

/// A literal one-character text node.
fn one_char_text(c: char) -> (r: Node)
    ensures
        render_node(r) == seq![c],
{
    let mut t: Vec<char> = Vec::new();
    t.push(c);
    proof {
        assert(t@ =~= seq![c]);
    }
    Node::Text(t)
}

/// Inline markup of `[from, to)`: templates, parameter references, links,
/// images, categories, entities, comments and tag markers; everything else
/// is literal text. The tree renders to exactly `spec_inline_text` of the
/// range.
#[verifier::rlimit(100)]
fn parse_inline(v: &Vec<char>, from: usize, to: usize) -> (r: Vec<Node>)
    requires
        from <= to <= v@.len(),
    ensures
        render_nodes(r@) == spec_inline_text(v@, from as int, to as int),
    decreases to - from,
{
    let mut nodes: Vec<Node> = Vec::new();
    let mut i: usize = from;
    proof {
        assert(render_nodes(nodes@) + spec_inline_text(v@, from as int, to as int)
            =~= spec_inline_text(v@, from as int, to as int));
    }
    while i < to
        invariant
            from <= i <= to <= v@.len(),
            render_nodes(nodes@) + spec_inline_text(v@, i as int, to as int) == spec_inline_text(
                v@,
                from as int,
                to as int,
            ),
        decreases to - i,
    {
        let ghost pre = render_nodes(nodes@);
        let ghost spec_here = spec_inline_text(v@, i as int, to as int);
        let c = v[i];
        if c == '{' && to - i > 2 && v[i + 1] == '{' && v[i + 2] == '{' {
            match find_triple_close(v, i + 3, to) {
                Some(k) => {
                    proof {
                        lemma_render_push(nodes@, Node::ParamRef);
                    }
                    nodes.push(Node::ParamRef);
                    proof {
                        assert(render_nodes(nodes@) + spec_inline_text(v@, k + 3, to as int)
                            =~= pre + spec_here);
                    }
                    i = k + 3;
                },
                None => {
                    let t = one_char_text(c);
                    proof {
                        lemma_render_push(nodes@, t);
                    }
                    nodes.push(t);
                    proof {
                        assert(render_nodes(nodes@) + spec_inline_text(v@, i + 1, to as int)
                            =~= pre + (seq!['{'] + spec_inline_text(v@, i + 1, to as int)));
                    }
                    i = i + 1;
                },
            }
        } else if c == '{' && to - i > 1 && v[i + 1] == '{' {
            match find_close_braces(v, i + 2, to) {
                Some(k) => {
                    let segs = split_top(v, i + 2, k, '|');
                    let ghost gsegs = seg_views(segs@);
                    let ghost hi = k - i - 1;
                    proof {
                        lemma_spec_split_top(v@, i + 2, i + 2, k as int, 0, '|');
                        assert forall|t: int| 0 <= t < gsegs.len() implies 0 <= (
                        #[trigger] gsegs[t]).0 <= gsegs[t].1 <= v@.len() && gsegs[t].1 - gsegs[t].0
                            < hi by {}
                        assert(gsegs.take(0) =~~= Seq::<(int, int)>::empty());
                    }
                    let mut parts: Vec<Vec<Node>> = Vec::new();
                    let mut t: usize = 0;
                    while t < segs.len()
                        invariant
                            0 <= t <= segs@.len(),
                            parts@.len() == t,
                            from <= i,
                            i + 2 <= k,
                            k + 2 <= to <= v@.len(),
                            hi == k - i - 1,
                            gsegs == seg_views(segs@),
                            gsegs.len() == segs@.len(),
                            forall|u: int|
                                0 <= u < segs@.len() ==> i + 2 <= (#[trigger] segs@[u]).0
                                    && segs@[u].0 <= segs@[u].1 && segs@[u].1 <= k,
                            forall|u: int|
                                0 <= u < gsegs.len() ==> 0 <= (#[trigger] gsegs[u]).0
                                    <= gsegs[u].1 <= v@.len() && gsegs[u].1 - gsegs[u].0 < hi,
                            render_parts(parts@, "|"@) == spec_segs_text(
                                v@,
                                gsegs.take(t as int),
                                "|"@,
                                hi,
                            ),
                        decreases segs@.len() - t,
                    {
                        let (a, b) = segs[t];
                        let ghost parts_pre = parts@;
                        proof {
                            assert(gsegs[t as int] == (a as int, b as int));
                        }
                        let part = parse_inline(v, a, b);
                        parts.push(part);
                        proof {
                            assert(parts@.drop_last() =~= parts_pre);
                            assert(parts@.last() == part);
                            assert(gsegs.take(t + 1).drop_last() =~~= gsegs.take(t as int));
                            assert(gsegs.take(t + 1).last() == gsegs[t as int]);
                            if t == 0 {
                                assert(gsegs.take(1).len() == 1);
                                assert(gsegs.take(1)[0] == gsegs[0]);
                                assert(render_parts(parts@, "|"@) == render_nodes(parts@[0]@));
                            } else {
                                assert(render_parts(parts@, "|"@) == render_parts(
                                    parts_pre,
                                    "|"@,
                                ) + "|"@ + render_nodes(part@));
                            }
                        }
                        t = t + 1;
                    }
                    proof {
                        assert(gsegs.take(gsegs.len() as int) =~~= gsegs);
                    }
                    let node = Node::Template(parts);
                    proof {
                        lemma_render_push(nodes@, node);
                    }
                    nodes.push(node);
                    proof {
                        assert(render_nodes(nodes@) + spec_inline_text(v@, k + 2, to as int)
                            =~= pre + (("{{"@ + spec_segs_text(
                            v@,
                            spec_split_top(v@, i + 2, i + 2, k as int, 0, '|'),
                            "|"@,
                            k - i - 1,
                        ) + "}}"@) + spec_inline_text(v@, k + 2, to as int)));
                    }
                    i = k + 2;
                },
                None => {
                    let t = one_char_text(c);
                    proof {
                        lemma_render_push(nodes@, t);
                    }
                    nodes.push(t);
                    proof {
                        assert(render_nodes(nodes@) + spec_inline_text(v@, i + 1, to as int)
                            =~= pre + (seq!['{'] + spec_inline_text(v@, i + 1, to as int)));
                    }
                    i = i + 1;
                },
            }
        } else if c == '[' && to - i > 1 && v[i + 1] == '[' {
            match find_close_brackets(v, i + 2, to) {
                Some(k) => {
                    let segs = split_top(v, i + 2, k, '|');
                    let ghost gsegs = seg_views(segs@);
                    proof {
                        lemma_spec_split_top(v@, i + 2, i + 2, k as int, 0, '|');
                        assert(gsegs[0] == (segs@[0].0 as int, segs@[0].1 as int));
                        assert(gsegs[gsegs.len() - 1] == (
                            segs@[segs@.len() - 1].0 as int,
                            segs@[segs@.len() - 1].1 as int,
                        ));
                        if gsegs.len() > 1 {
                            assert(gsegs[1] == (segs@[1].0 as int, segs@[1].1 as int));
                        }
                    }
                    let (a0, b0) = segs[0];
                    let target = slice_chars(v, a0, b0);
                    let cat_prefix = chars_of("Category:");
                    let file_prefix = chars_of("File:");
                    let image_prefix = chars_of("Image:");
                    let as_cat = strip_prefix_ci(v, a0, b0, &cat_prefix);
                    let as_file = strip_prefix_ci(v, a0, b0, &file_prefix);
                    let as_image = strip_prefix_ci(v, a0, b0, &image_prefix);
                    let node: Node = if as_cat.is_some() {
                        Node::Category
                    } else if let Some(p) = as_file {
                        let name = slice_chars(v, p, b0);
                        let caption: Vec<Node> = if segs.len() > 1 {
                            let (a1, b1) = segs[segs.len() - 1];
                            parse_inline(v, a1, b1)
                        } else {
                            Vec::new()
                        };
                        proof {
                            if segs@.len() <= 1 {
                                assert(render_nodes(caption@) =~= Seq::<char>::empty());
                            }
                        }
                        Node::Image(name, caption)
                    } else if let Some(p) = as_image {
                        let name = slice_chars(v, p, b0);
                        let caption: Vec<Node> = if segs.len() > 1 {
                            let (a1, b1) = segs[segs.len() - 1];
                            parse_inline(v, a1, b1)
                        } else {
                            Vec::new()
                        };
                        proof {
                            if segs@.len() <= 1 {
                                assert(render_nodes(caption@) =~= Seq::<char>::empty());
                            }
                        }
                        Node::Image(name, caption)
                    } else {
                        let display: Vec<Node> = if segs.len() > 1 {
                            let (a1, b1) = segs[1];
                            parse_inline(v, a1, b1)
                        } else {
                            Vec::new()
                        };
                        proof {
                            if segs@.len() <= 1 {
                                assert(render_nodes(display@) =~= Seq::<char>::empty());
                            }
                        }
                        Node::Link(target, display)
                    };
                    proof {
                        lemma_render_push(nodes@, node);
                    }
                    nodes.push(node);
                    proof {
                        assert(render_nodes(nodes@) + spec_inline_text(v@, k + 2, to as int)
                            =~= pre + spec_here);
                    }
                    i = k + 2;
                },
                None => {
                    let t = one_char_text(c);
                    proof {
                        lemma_render_push(nodes@, t);
                    }
                    nodes.push(t);
                    proof {
                        assert(render_nodes(nodes@) + spec_inline_text(v@, i + 1, to as int)
                            =~= pre + (seq!['['] + spec_inline_text(v@, i + 1, to as int)));
                    }
                    i = i + 1;
                },
            }
        } else if c == '&' {
            match parse_entity(v, i, to) {
                Some((e2, next)) => {
                    let node = Node::Entity(e2);
                    proof {
                        lemma_render_push(nodes@, node);
                    }
                    nodes.push(node);
                    proof {
                        assert(render_nodes(nodes@) + spec_inline_text(v@, next as int, to as int)
                            =~= pre + (seq![e2] + spec_inline_text(v@, next as int, to as int)));
                    }
                    i = next;
                },
                None => {
                    let t = one_char_text(c);
                    proof {
                        lemma_render_push(nodes@, t);
                    }
                    nodes.push(t);
                    proof {
                        assert(render_nodes(nodes@) + spec_inline_text(v@, i + 1, to as int)
                            =~= pre + (seq!['&'] + spec_inline_text(v@, i + 1, to as int)));
                    }
                    i = i + 1;
                },
            }
        } else if c == '<' && to - i > 3 && v[i + 1] == '!' && v[i + 2] == '-' && v[i + 3] == '-' {
            match find_comment_close(v, i + 4, to) {
                Some(k) => {
                    let node = Node::Comment(slice_chars(v, i, k + 3));
                    proof {
                        lemma_render_push(nodes@, node);
                    }
                    nodes.push(node);
                    proof {
                        assert(render_nodes(nodes@) + spec_inline_text(v@, k + 3, to as int)
                            =~= pre + (v@.subrange(i as int, k + 3) + spec_inline_text(
                            v@,
                            k + 3,
                            to as int,
                        )));
                    }
                    i = k + 3;
                },
                None => {
                    let node = Node::Comment(slice_chars(v, i, to));
                    proof {
                        lemma_render_push(nodes@, node);
                    }
                    nodes.push(node);
                    proof {
                        assert(render_nodes(nodes@) + spec_inline_text(v@, to as int, to as int)
                            =~= pre + (v@.subrange(i as int, to as int) + spec_inline_text(
                            v@,
                            to as int,
                            to as int,
                        )));
                    }
                    i = to;
                },
            }
        } else if c == '<' {
            let mut plain: bool = true;
            match find_gt(v, i + 1) {
                Some(j) => {
                    if j - i >= 2 && j < to {
                        plain = false;
                        proof {
                            lemma_render_push(nodes@, Node::Tag);
                        }
                        nodes.push(Node::Tag);
                        proof {
                            assert(render_nodes(nodes@) + spec_inline_text(v@, j + 1, to as int)
                                =~= pre + spec_here);
                        }
                        i = j + 1;
                    }
                },
                None => {},
            }
            if plain {
                let t = one_char_text(c);
                proof {
                    lemma_render_push(nodes@, t);
                }
                nodes.push(t);
                proof {
                    assert(render_nodes(nodes@) + spec_inline_text(v@, i + 1, to as int)
                        =~= pre + (seq!['<'] + spec_inline_text(v@, i + 1, to as int)));
                }
                i = i + 1;
            }
        } else {
            let e = text_end(v, i + 1, to);
            let node = Node::Text(slice_chars(v, i, e));
            proof {
                lemma_render_push(nodes@, node);
            }
            nodes.push(node);
            proof {
                assert(render_nodes(nodes@) + spec_inline_text(v@, e as int, to as int)
                    =~= pre + (v@.subrange(i as int, e as int) + spec_inline_text(
                    v@,
                    e as int,
                    to as int,
                )));
            }
            i = e;
        }
    }
    proof {
        assert(spec_inline_text(v@, to as int, to as int) =~= Seq::<char>::empty());
        assert(render_nodes(nodes@) =~= spec_inline_text(v@, from as int, to as int));
    }
    nodes
}

// ---- block structure ----

/// End of the line starting at `i`: the next newline, or the end of input.
fn line_end(v: &Vec<char>, i: usize) -> (r: usize)
    requires
        i <= v@.len(),
    ensures
        r == spec_line_end(v@, i as int),
        i <= r <= v@.len(),
{
    let mut k: usize = i;
    while k < v.len() && v[k] != '\n'
        invariant
            i <= k <= v@.len(),
            spec_line_end(v@, i as int) == spec_line_end(v@, k as int),
        decreases v@.len() - k,
    {
        k = k + 1;
    }
    k
}

fn is_blank_line(v: &Vec<char>, i: usize, e: usize) -> (r: bool)
    requires
        i <= e <= v@.len(),
    ensures
        r == spec_blank_range(v@, i as int, e as int),
        !r ==> i < e,
{
    let mut k: usize = i;
    while k < e
        invariant
            i <= k <= e <= v@.len(),
            forall|u: int| i <= u < k ==> is_space(#[trigger] v@[u]),
        decreases e - k,
    {
        if !space(v[k]) {
            proof {
                assert(!is_space(v@[k as int]));
            }
            return false;
        }
        k = k + 1;
    }
    true
}

/// Whether the line belongs to a plain paragraph: non-blank and opening no
/// block construct.
fn is_para_line(v: &Vec<char>, i: usize, e: usize) -> (r: bool)
    requires
        i <= e <= v@.len(),
    ensures
        r == spec_para_line(v@, i as int, e as int),
{
    if is_blank_line(v, i, e) {
        return false;
    }
    let c = v[i];
    if c == '=' || c == '*' || c == '#' || c == ';' || c == ':' || c == ' ' || c == '\t' {
        return false;
    }
    if c == '{' && e - i > 1 && v[i + 1] == '|' {
        return false;
    }
    true
}

/// Splits a table line's content on doubled `m` separators (`||` or `!!`).
fn split_cells(v: &Vec<char>, from: usize, to: usize, m: char) -> (r: Vec<(usize, usize)>)
    requires
        from <= to <= v@.len(),
    ensures
        r@.len() >= 1,
        forall|t: int|
            0 <= t < r@.len() ==> from <= (#[trigger] r@[t]).0 && r@[t].0 <= r@[t].1 && r@[t].1
                <= to,
        seg_views(r@) == spec_split_cells(v@, from as int, from as int, to as int, m),
{
    let mut segs: Vec<(usize, usize)> = Vec::new();
    let mut start: usize = from;
    let mut j: usize = from;
    proof {
        assert(seg_views(segs@) + spec_split_cells(v@, from as int, from as int, to as int, m)
            =~~= spec_split_cells(v@, from as int, from as int, to as int, m));
    }
    while j < to
        invariant
            from <= start <= j <= to <= v@.len(),
            forall|t: int|
                0 <= t < segs@.len() ==> from <= (#[trigger] segs@[t]).0 && segs@[t].0
                    <= segs@[t].1 && segs@[t].1 <= to,
            seg_views(segs@) + spec_split_cells(v@, start as int, j as int, to as int, m)
                =~~= spec_split_cells(v@, from as int, from as int, to as int, m),
        decreases to - j,
    {
        if to - j > 1 && v[j] == m && v[j + 1] == m {
            let ghost pre = seg_views(segs@);
            segs.push((start, j));
            proof {
                assert(seg_views(segs@) =~~= pre + seq![(start as int, j as int)]);
                assert(seg_views(segs@) + spec_split_cells(v@, j + 2, j + 2, to as int, m)
                    =~~= pre + (seq![(start as int, j as int)] + spec_split_cells(
                    v@,
                    j + 2,
                    j + 2,
                    to as int,
                    m,
                )));
            }
            start = j + 2;
            j = j + 2;
        } else {
            j = j + 1;
        }
    }
    let ghost pre = seg_views(segs@);
    segs.push((start, to));
    proof {
        assert(seg_views(segs@) =~~= pre + seq![(start as int, to as int)]);
        assert(spec_split_cells(v@, start as int, j as int, to as int, m) =~= seq![
            (start as int, to as int),
        ]);
    }
    segs
}

/// Parses wiki markup into its node tree. Total over any input: malformed
/// markup is kept as literal text, never an error. The tree renders to
/// exactly `spec_blocks_text` of the whole input.
#[verifier::rlimit(100)]
pub fn parse_markup(s: &str) -> (r: Vec<Node>)
    ensures
        s@.len() == 0 ==> r@.len() == 0,
        render_nodes(r@) == spec_blocks_text(s@, 0),
{
    let v = chars_of(s);
    let mut nodes: Vec<Node> = Vec::new();
    let mut i: usize = 0;
    proof {
        assert(render_nodes(nodes@) + spec_blocks_text(v@, 0) =~= spec_blocks_text(v@, 0));
    }
    while i < v.len()
        invariant
            0 <= i <= v@.len(),
            v@ == s@,
            v@.len() == 0 ==> nodes@.len() == 0,
            render_nodes(nodes@) + spec_blocks_text(v@, i as int) == spec_blocks_text(v@, 0),
        decreases v@.len() - i,
    {
        let ghost pre = render_nodes(nodes@);
        let ghost spec_here = spec_blocks_text(v@, i as int);
        let e = line_end(&v, i);
        let nx: usize = if e < v.len() {
            e + 1
        } else {
            v.len()
        };
        if is_blank_line(&v, i, e) {
            let j = skip_blanks(&v, i);
            proof {
                lemma_spec_skip_blank_lines(v@, i as int);
            }
            let node = Node::ParaBreak;
            proof {
                lemma_render_push(nodes@, node);
            }
            nodes.push(node);
            proof {
                assert(render_nodes(nodes@) + spec_blocks_text(v@, j as int) =~= pre + (seq![
                    '\n',
                    '\n',
                ] + spec_blocks_text(v@, j as int)));
            }
            i = j;
        } else if v[i] == '=' {
            let node = Node::Heading(slice_chars(&v, i, e));
            proof {
                lemma_render_push(nodes@, node);
            }
            nodes.push(node);
            proof {
                assert(render_nodes(nodes@) + spec_blocks_text(v@, nx as int) =~= pre + ((
                v@.subrange(i as int, e as int) + seq!['\n']) + spec_blocks_text(v@, nx as int)));
            }
            i = nx;
        } else if v[i] == '*' || v[i] == '#' || v[i] == ';' || v[i] == ':' {
            let redirect_prefix = chars_of("#REDIRECT");
            match strip_prefix_ci(&v, i, e, &redirect_prefix) {
                Some(p) => {
                    let target = redirect_target(&v, p, e);
                    let node = Node::Redirect(target);
                    proof {
                        lemma_render_push(nodes@, node);
                    }
                    nodes.push(node);
                    proof {
                        assert(render_nodes(nodes@) + spec_blocks_text(v@, nx as int) =~= pre + ((
                        "REDIRECT: "@ + spec_redirect_target(v@, p as int, e as int))
                            + spec_blocks_text(v@, nx as int)));
                    }
                    i = nx;
                },
                None => {
                    let k = item_start(&v, i, e);
                    let node = Node::ListItem(parse_inline(&v, k, e));
                    proof {
                        lemma_render_push(nodes@, node);
                    }
                    nodes.push(node);
                    proof {
                        assert(render_nodes(nodes@) + spec_blocks_text(v@, nx as int) =~= pre + ((
                        spec_inline_text(v@, k as int, e as int) + seq!['\n']) + spec_blocks_text(
                            v@,
                            nx as int,
                        )));
                    }
                    i = nx;
                },
            }
        } else if v[i] == '{' && e - i > 1 && v[i + 1] == '|' {
            // table: the opening line renders nothing
            let ghost i0 = i as int;
            proof {
                assert(e as int == spec_line_end(v@, i0));
                assert(!spec_blank_range(v@, i0, e as int));
                assert(v@[i0] == '{' && v@[i0 + 1] == '|');
                assert(nx as int == spec_next_line(v@, e as int));
                lemma_spec_line_end(v@, i0);
                lemma_spec_table_text(v@, nx as int, Seq::<Seq<char>>::empty());
            }
            i = nx;
            let ghost floor = i as int;
            let mut row: Vec<Vec<Node>> = Vec::new();
            let ghost mut racc: Seq<Seq<char>> = Seq::<Seq<char>>::empty();
            let mut tdone: bool = false;
            proof {
                assert(floor > i0);
                assert(racc =~~= Seq::<Seq<char>>::empty());
                assert(spec_here == spec_table_text(
                    v@,
                    i as int,
                    Seq::<Seq<char>>::empty(),
                ).0 + spec_blocks_text(
                    v@,
                    spec_table_text(v@, i as int, Seq::<Seq<char>>::empty()).1,
                ));
                assert(spec_here == spec_table_text(v@, i as int, racc).0 + spec_blocks_text(
                    v@,
                    spec_table_text(v@, i as int, racc).1,
                ));
            }
            while i < v.len() && !tdone
                invariant
                    floor <= i as int,
                    i0 < floor,
                    0 <= i <= v@.len(),
                    racc.len() == row@.len(),
                    forall|u: int| 0 <= u < racc.len() ==> racc[u] == render_nodes(
                        (#[trigger] row@[u])@,
                    ),
                    !tdone ==> render_nodes(nodes@) + spec_table_text(v@, i as int, racc).0
                        + spec_blocks_text(v@, spec_table_text(v@, i as int, racc).1)
                        == spec_blocks_text(v@, 0),
                    tdone ==> render_nodes(nodes@) + spec_row_flush(racc) + spec_blocks_text(
                        v@,
                        i as int,
                    ) == spec_blocks_text(v@, 0),
                decreases v@.len() - i,
            {
                let ghost tpre = render_nodes(nodes@);
                let ghost tspec = spec_table_text(v@, i as int, racc);
                let e2 = line_end(&v, i);
                let nx2: usize = if e2 < v.len() {
                    e2 + 1
                } else {
                    v.len()
                };
                if e2 - i > 1 && v[i] == '|' && v[i + 1] == '}' {
                    proof {
                        assert(tspec.0 == spec_row_flush(racc));
                        assert(tspec.1 == nx2 as int);
                    }
                    i = nx2;
                    tdone = true;
                } else if e2 - i > 1 && v[i] == '|' && v[i + 1] == '+' {
                    let node = Node::TableCaption(parse_inline(&v, i + 2, e2));
                    proof {
                        lemma_render_push(nodes@, node);
                    }
                    nodes.push(node);
                    proof {
                        let rest = spec_table_text(v@, nx2 as int, racc);
                        assert(tspec.0 == spec_inline_text(v@, i + 2, e2 as int) + seq!['\n']
                            + rest.0);
                        assert(tspec.1 == rest.1);
                        assert(render_nodes(nodes@) + rest.0 + spec_blocks_text(v@, rest.1)
                            =~= tpre + tspec.0 + spec_blocks_text(v@, tspec.1));
                    }
                    i = nx2;
                } else if e2 - i > 1 && v[i] == '|' && v[i + 1] == '-' {
                    if row.len() > 0 {
                        proof {
                            lemma_parts_join(row@, racc, " | "@);
                        }
                        let node = Node::TableRow(row);
                        proof {
                            lemma_render_push(nodes@, node);
                        }
                        nodes.push(node);
                        row = Vec::new();
                    }
                    proof {
                        let rest = spec_table_text(v@, nx2 as int, Seq::<Seq<char>>::empty());
                        assert(tspec.0 == spec_row_flush(racc) + rest.0);
                        assert(tspec.1 == rest.1);
                        assert(render_nodes(nodes@) + rest.0 + spec_blocks_text(v@, rest.1)
                            =~= tpre + tspec.0 + spec_blocks_text(v@, tspec.1));
                    }
                    proof {
                        racc = Seq::<Seq<char>>::empty();
                    }
                    i = nx2;
                } else if e2 - i > 0 && (v[i] == '|' || v[i] == '!') {
                    let m = if v[i] == '|' {
                        '|'
                    } else {
                        '!'
                    };
                    let cells = split_cells(&v, i + 1, e2, m);
                    let ghost gcells = seg_views(cells@);
                    let ghost racc0 = racc;
                    proof {
                        lemma_spec_split_cells(v@, i + 1, i + 1, e2 as int, m);
                        assert(gcells.take(0) =~~= Seq::<(int, int)>::empty());
                        assert(spec_cells_text(v@, gcells.take(0)) =~~= Seq::<Seq<char>>::empty());
                        assert(racc =~~= racc0 + spec_cells_text(v@, gcells.take(0)));
                    }
                    let mut t: usize = 0;
                    while t < cells.len()
                        invariant
                            0 <= t <= cells@.len(),
                            gcells == seg_views(cells@),
                            gcells.len() == cells@.len(),
                            i + 1 <= e2 <= v@.len(),
                            forall|u: int|
                                0 <= u < cells@.len() ==> i + 1 <= (#[trigger] cells@[u]).0
                                    && cells@[u].0 <= cells@[u].1 && cells@[u].1 <= e2,
                            forall|u: int|
                                0 <= u < gcells.len() ==> 0 <= (#[trigger] gcells[u]).0
                                    <= gcells[u].1 <= v@.len(),
                            racc.len() == row@.len(),
                            forall|u: int| 0 <= u < racc.len() ==> racc[u] == render_nodes(
                                (#[trigger] row@[u])@,
                            ),
                            racc =~~= racc0 + spec_cells_text(v@, gcells.take(t as int)),
                        decreases cells@.len() - t,
                    {
                        let (a, b) = cells[t];
                        proof {
                            assert(gcells[t as int] == (a as int, b as int));
                        }
                        let cell = parse_inline(&v, a, b);
                        row.push(cell);
                        proof {
                            racc = racc.push(spec_inline_text(v@, a as int, b as int));
                            assert(gcells.take(t + 1).drop_last() =~~= gcells.take(t as int));
                            assert(gcells.take(t + 1).last() == gcells[t as int]);
                            assert(racc =~~= racc0 + spec_cells_text(v@, gcells.take(t + 1)));
                        }
                        t = t + 1;
                    }
                    proof {
                        assert(gcells.take(gcells.len() as int) =~~= gcells);
                        assert(racc =~~= racc0 + spec_cells_text(v@, gcells));
                        let rest = spec_table_text(v@, nx2 as int, racc0 + spec_cells_text(
                            v@,
                            gcells,
                        ));
                        assert(tspec.0 == rest.0);
                        assert(tspec.1 == rest.1);
                        assert(spec_table_text(v@, nx2 as int, racc) == rest);
                    }
                    i = nx2;
                } else {
                    let cell = parse_inline(&v, i, e2);
                    row.push(cell);
                    proof {
                        racc = racc.push(spec_inline_text(v@, i as int, e2 as int));
                        let rest = spec_table_text(v@, nx2 as int, racc);
                        assert(tspec.0 == rest.0);
                        assert(tspec.1 == rest.1);
                    }
                    i = nx2;
                }
            }
            proof {
                if !tdone {
                    assert(i as int == v@.len());
                    assert(spec_table_text(v@, i as int, racc).0 == spec_row_flush(racc));
                    assert(spec_table_text(v@, i as int, racc).1 == v@.len() as int);
                }
            }
            if row.len() > 0 {
                proof {
                    lemma_parts_join(row@, racc, " | "@);
                }
                let node = Node::TableRow(row);
                proof {
                    lemma_render_push(nodes@, node);
                }
                nodes.push(node);
                proof {
                    assert(render_nodes(nodes@) + spec_blocks_text(v@, i as int)
                        =~= spec_blocks_text(v@, 0));
                }
            } else {
                proof {
                    assert(spec_row_flush(racc) =~= Seq::<char>::empty());
                    assert(render_nodes(nodes@) + spec_blocks_text(v@, i as int)
                        =~= spec_blocks_text(v@, 0));
                }
            }
        } else if v[i] == ' ' || v[i] == '\t' {
            // preformatted block: consecutive indented lines, no output
            let j = skip_pres(&v, i);
            proof {
                lemma_spec_skip_pre_lines(v@, i as int);
            }
            let node = Node::Pre;
            proof {
                lemma_render_push(nodes@, node);
            }
            nodes.push(node);
            proof {
                assert(render_nodes(nodes@) + spec_blocks_text(v@, j as int) =~= pre
                    + spec_blocks_text(v@, j as int));
            }
            i = j;
        } else {
            let redirect_prefix = chars_of("#REDIRECT");
            match strip_prefix_ci(&v, i, e, &redirect_prefix) {
                Some(p) => {
                    let target = redirect_target(&v, p, e);
                    let node = Node::Redirect(target);
                    proof {
                        lemma_render_push(nodes@, node);
                    }
                    nodes.push(node);
                    proof {
                        assert(render_nodes(nodes@) + spec_blocks_text(v@, nx as int) =~= pre + ((
                        "REDIRECT: "@ + spec_redirect_target(v@, p as int, e as int))
                            + spec_blocks_text(v@, nx as int)));
                    }
                    i = nx;
                },
                None => {
                    // paragraph: this line and the following plain lines
                    let pe = para_close(&v, e);
                    let keep_nl: bool = if pe < v.len() {
                        let e2 = line_end(&v, pe + 1);
                        !is_blank_line(&v, pe + 1, e2)
                    } else {
                        false
                    };
                    let stop: usize = if keep_nl {
                        pe + 1
                    } else {
                        pe
                    };
                    let mut para = parse_inline(&v, i, stop);
                    proof {
                        lemma_render_concat(nodes@, para@);
                    }
                    let ghost para_view = para@;
                    nodes.append(&mut para);
                    let after: usize = if pe < v.len() {
                        pe + 1
                    } else {
                        v.len()
                    };
                    proof {
                        assert(render_nodes(nodes@) == pre + spec_inline_text(
                            v@,
                            i as int,
                            stop as int,
                        ));
                        assert(render_nodes(nodes@) + spec_blocks_text(v@, after as int)
                            =~= pre + (spec_inline_text(v@, i as int, stop as int)
                            + spec_blocks_text(v@, after as int)));
                    }
                    i = after;
                },
            }
        }
    }
    proof {
        assert(spec_blocks_text(v@, i as int) =~= Seq::<char>::empty());
        assert(render_nodes(nodes@) =~= spec_blocks_text(v@, 0));
    }
    nodes
}

/// The target of a redirect line: the text between `[[` and `]]` if both
/// appear, otherwise the rest of the line.
fn redirect_target(v: &Vec<char>, from: usize, e: usize) -> (r: Vec<char>)
    requires
        from <= e <= v@.len(),
    ensures
        r@ == spec_redirect_target(v@, from as int, e as int),
{
    let mut p: usize = from;
    while p < e && !(e - p > 1 && v[p] == '[' && v[p + 1] == '[')
        invariant
            from <= p <= e <= v@.len(),
            spec_rd_scan(v@, from as int, e as int) == spec_rd_scan(v@, p as int, e as int),
        decreases e - p,
    {
        p = p + 1;
    }
    if p < e {
        match find_close_brackets(v, p + 2, e) {
            Some(k) => slice_chars(v, p + 2, k),
            None => slice_chars(v, from, e),
        }
    } else {
        slice_chars(v, from, e)
    }
}

/// Flattens wiki markup to plain indexable text: parse, render depth-first,
/// normalize whitespace and tag spans. Total over any input; the result is
/// exactly `spec_textify` of the input, and the empty string yields the
/// empty string.
pub fn textify(s: &str) -> (r: String)
    ensures
        r@ == spec_textify(s@),
        s@.len() == 0 ==> r@.len() == 0,
{
    let nodes = parse_markup(s);
    let rendered = render_markup(&nodes);
    let out = normalize_ws(rendered.as_str());
    proof {
        if s@.len() == 0 {
            assert(render_nodes(nodes@) =~= Seq::<char>::empty());
            assert(spec_normalize(rendered@, 0) =~= Seq::<char>::empty());
        }
    }
    out
}

} // verus!
