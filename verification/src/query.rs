//! The query planner: structured options, the query-string parser
//! (terms, quoted phrases, `+`/`-` prefixes), and the match predicate a
//! document is tested against, including edit-distance-one fuzzy matching
//! and the inclusive date-range filter.

use vstd::prelude::*;

use crate::analyze::spec_analyze;
use crate::chars::{chars_of, is_space, str_eq, str_views};
use crate::date::skip_ws_spec;
use crate::error::Error;
use crate::index::Doc;

verus! {

/// Structured query options. When neither date bound is set no date filter
/// is applied at all, which is not the same as a maximally wide range: a
/// document without a title date matches only in the unfiltered case.
#[derive(Debug, Clone)]
pub struct QueryOptions {
    pub offset: usize,
    pub count: usize,
    pub snippet_length: usize,
    pub date_before: Option<i64>,
    pub date_after: Option<i64>,
    pub fuzzy: bool,
}

impl Default for QueryOptions {
    fn default() -> (r: Self)
        ensures
            r.offset == 0,
            r.count == 10,
            r.snippet_length == 100,
            r.date_before is None,
            r.date_after is None,
            !r.fuzzy,
    {
        QueryOptions {
            offset: 0,
            count: 10,
            snippet_length: 100,
            date_before: None,
            date_after: None,
            fuzzy: false,
        }
    }
}

impl QueryOptions {
    /// Whether any date bound was supplied.
    pub fn date_specified(&self) -> (r: bool)
        ensures
            r == (self.date_before is Some || self.date_after is Some),
    {
        self.date_before.is_some() || self.date_after.is_some()
    }
}

/// How a clause takes part in the boolean query.
#[derive(Clone, Copy, Debug, PartialEq, Eq, Structural)]
pub enum ClauseKind {
    Should,
    Must,
    MustNot,
}

/// One parsed clause: its raw text and its analyzed terms (several terms
/// make a phrase).
pub struct Clause {
    pub kind: ClauseKind,
    pub text: String,
    pub terms: Vec<String>,
}

/// A clause at the specification level.
pub ghost struct SpecClause {
    pub kind: ClauseKind,
    pub text: Seq<char>,
    pub terms: Seq<Seq<char>>,
}

pub open spec fn clause_view(c: Clause) -> SpecClause {
    SpecClause { kind: c.kind, text: c.text@, terms: str_views(c.terms@) }
}

pub open spec fn spec_clauses(cs: Seq<Clause>) -> Seq<SpecClause> {
    cs.map_values(|c: Clause| clause_view(c))
}

// ---- the lexer ----

/// End of the unquoted piece starting at `i`: the next whitespace, or the
/// end of input.
pub open spec fn piece_end(s: Seq<char>, i: int) -> int
    decreases s.len() - i when 0 <= i <= s.len()
{
    if i < s.len() && !is_space(s[i]) {
        piece_end(s, i + 1)
    } else {
        i
    }
}

/// The first `"` at or after `i`, if any.
pub open spec fn first_quote(s: Seq<char>, i: int) -> Option<int>
    decreases s.len() - i when 0 <= i <= s.len()
{
    if i >= s.len() {
        None
    } else if s[i] == '"' {
        Some(i)
    } else {
        first_quote(s, i + 1)
    }
}

proof fn lemma_piece_end(s: Seq<char>, i: int)
    requires
        0 <= i <= s.len(),
    ensures
        i <= piece_end(s, i) <= s.len(),
        i < s.len() && !is_space(s[i]) ==> piece_end(s, i) > i,
    decreases s.len() - i,
{
    if i < s.len() && !is_space(s[i]) {
        lemma_piece_end(s, i + 1);
    }
}

proof fn lemma_first_quote(s: Seq<char>, i: int)
    requires
        0 <= i <= s.len(),
    ensures
        match first_quote(s, i) {
            Some(j) => i <= j < s.len() && s[j] == '"',
            None => true,
        },
    decreases s.len() - i,
{
    if i < s.len() && s[i] != '"' {
        lemma_first_quote(s, i + 1);
    }
}

proof fn lemma_skip_ws(s: Seq<char>, i: int)
    requires
        0 <= i <= s.len(),
    ensures
        i <= skip_ws_spec(s, i) <= s.len(),
        skip_ws_spec(s, i) < s.len() ==> !is_space(s[skip_ws_spec(s, i)]),
    decreases s.len() - i,
{
    if i < s.len() && is_space(s[i]) {
        lemma_skip_ws(s, i + 1);
    }
}

/// The raw pieces of a query string from position `i` on, each with its
/// clause kind; `None` on an unclosed quote. Empty pieces (a bare sign, an
/// empty quotation) are dropped.
pub open spec fn spec_lex(s: Seq<char>, i: int) -> Option<Seq<(ClauseKind, Seq<char>)>>
    decreases s.len() - i when 0 <= i <= s.len() via spec_lex_dec
{
    let j = skip_ws_spec(s, i);
    if j >= s.len() {
        Some(Seq::<(ClauseKind, Seq<char>)>::empty())
    } else {
        let kind = if s[j] == '+' {
            ClauseKind::Must
        } else if s[j] == '-' {
            ClauseKind::MustNot
        } else {
            ClauseKind::Should
        };
        let j2 = if s[j] == '+' || s[j] == '-' {
            j + 1
        } else {
            j
        };
        if j2 < s.len() && s[j2] == '"' {
            match first_quote(s, j2 + 1) {
                None => None,
                Some(q) => {
                    let piece = s.subrange(j2 + 1, q);
                    match spec_lex(s, q + 1) {
                        None => None,
                        Some(rest) => if piece.len() == 0 {
                            Some(rest)
                        } else {
                            Some(seq![(kind, piece)] + rest)
                        },
                    }
                },
            }
        } else {
            let e = piece_end(s, j2);
            let piece = s.subrange(j2, e);
            match spec_lex(s, e) {
                None => None,
                Some(rest) => if piece.len() == 0 {
                    Some(rest)
                } else {
                    Some(seq![(kind, piece)] + rest)
                },
            }
        }
    }
}

#[via_fn]
proof fn spec_lex_dec(s: Seq<char>, i: int) {
    if 0 <= i <= s.len() {
        lemma_skip_ws(s, i);
        let j = skip_ws_spec(s, i);
        if j < s.len() {
            let j2 = if s[j] == '+' || s[j] == '-' {
                j + 1
            } else {
                j
            };
            if j2 < s.len() && s[j2] == '"' {
                lemma_first_quote(s, j2 + 1);
            } else if j2 <= s.len() {
                lemma_piece_end(s, j2);
            }
        }
    }
}

/// Pieces become clauses: each analyzed through the same chain as the
/// indexed text; pieces whose analysis leaves no term are dropped.
pub open spec fn spec_build_clauses(ps: Seq<(ClauseKind, Seq<char>)>) -> Seq<SpecClause>
    decreases ps.len(),
{
    if ps.len() == 0 {
        Seq::<SpecClause>::empty()
    } else {
        spec_build_clauses(ps.drop_last()) + (if spec_analyze(ps.last().1).len() >= 1 {
            seq![
                SpecClause {
                    kind: ps.last().0,
                    text: ps.last().1,
                    terms: spec_analyze(ps.last().1),
                },
            ]
        } else {
            Seq::<SpecClause>::empty()
        })
    }
}

/// Every built clause has at least one term, and its terms are the
/// analysis of its text.
pub proof fn lemma_build_clauses_props(ps: Seq<(ClauseKind, Seq<char>)>)
    ensures
        forall|k: int|
            0 <= k < spec_build_clauses(ps).len() ==> (#[trigger] spec_build_clauses(
                ps,
            )[k]).terms.len() >= 1 && spec_build_clauses(ps)[k].terms == spec_analyze(
                spec_build_clauses(ps)[k].text,
            ),
    decreases ps.len(),
{
    if ps.len() > 0 {
        lemma_build_clauses_props(ps.drop_last());
    }
}

/// What a query string parses to: its clauses, or nothing when the syntax
/// is malformed (an unclosed quotation).
pub open spec fn spec_parse_query(s: Seq<char>) -> Option<Seq<SpecClause>> {
    match spec_lex(s, 0) {
        None => None,
        Some(ps) => Some(spec_build_clauses(ps)),
    }
}

pub open spec fn piece_views(ps: Seq<(ClauseKind, Vec<char>)>) -> Seq<(ClauseKind, Seq<char>)> {
    ps.map_values(|p: (ClauseKind, Vec<char>)| (p.0, p.1@))
}

/// Parses a query string into clauses; a malformed query (an unclosed
/// quotation) is an `InvalidQuery` error carrying the input, never a
/// partial match.
pub fn parse_query(q: &str) -> (r: Result<Vec<Clause>, Error>)
    ensures
        match r {
            Ok(cs) => spec_parse_query(q@) == Some(spec_clauses(cs@)),
            Err(e) => spec_parse_query(q@) is None && (e matches Error::InvalidQuery(m) && m@
                == q@),
        },
{
    let v = chars_of(q);
    let mut pieces: Vec<(ClauseKind, Vec<char>)> = Vec::new();
    let mut i: usize = 0;
    proof {
        assert(piece_views(pieces@) =~~= Seq::<(ClauseKind, Seq<char>)>::empty());
    }
    while i < v.len()
        invariant
            0 <= i <= v@.len(),
            v@ == q@,
            spec_lex(v@, 0) == (match spec_lex(v@, i as int) {
                None => None::<Seq<(ClauseKind, Seq<char>)>>,
                Some(rest) => Some(piece_views(pieces@) + rest),
            }),
        decreases v@.len() - i,
    {
        let j = skip_ws(&v, i);
        if j >= v.len() {
            proof {
                assert(spec_lex(v@, i as int) == Some(Seq::<(ClauseKind, Seq<char>)>::empty()));
                assert(spec_lex(v@, v@.len() as int) == Some(
                    Seq::<(ClauseKind, Seq<char>)>::empty(),
                ));
            }
            i = v.len();
        } else {
        let c = v[j];
        let kind = if c == '+' {
            ClauseKind::Must
        } else if c == '-' {
            ClauseKind::MustNot
        } else {
            ClauseKind::Should
        };
        let j2 = if c == '+' || c == '-' {
            j + 1
        } else {
            j
        };
        if j2 < v.len() && v[j2] == '"' {
            match find_quote(&v, j2 + 1) {
                None => {
                    return Err(Error::InvalidQuery(q.to_owned()));
                },
                Some(qe) => {
                    let ghost pre = piece_views(pieces@);
                    let mut piece: Vec<char> = Vec::new();
                    crate::chars::push_range(&mut piece, &v, j2 + 1, qe);
                    proof {
                        assert(piece@ =~= v@.subrange(j2 + 1, qe as int));
                    }
                    if piece.len() > 0 {
                        pieces.push((kind, piece));
                        proof {
                            assert(piece_views(pieces@) =~~= pre + seq![
                                (kind, v@.subrange(j2 + 1, qe as int)),
                            ]);
                        }
                    }
                    i = qe + 1;
                },
            }
        } else {
            let e = word_stop(&v, j2);
            let ghost pre = piece_views(pieces@);
            let mut piece: Vec<char> = Vec::new();
            crate::chars::push_range(&mut piece, &v, j2, e);
            proof {
                assert(piece@ =~= v@.subrange(j2 as int, e as int));
            }
            if piece.len() > 0 {
                pieces.push((kind, piece));
                proof {
                    assert(piece_views(pieces@) =~~= pre + seq![
                        (kind, v@.subrange(j2 as int, e as int)),
                    ]);
                }
            }
            i = e;
        }
        }
    }
    proof {
        assert(skip_ws_spec(v@, i as int) == i as int);
        assert(spec_lex(v@, i as int) == Some(Seq::<(ClauseKind, Seq<char>)>::empty()));
        assert(piece_views(pieces@) + Seq::<(ClauseKind, Seq<char>)>::empty() =~~= piece_views(
            pieces@,
        ));
    }
    // build the clauses
    let mut clauses: Vec<Clause> = Vec::new();
    let mut k: usize = 0;
    proof {
        assert(piece_views(pieces@).take(0) =~~= Seq::<(ClauseKind, Seq<char>)>::empty());
        assert(spec_clauses(clauses@) =~~= spec_build_clauses(piece_views(pieces@).take(0)));
    }
    while k < pieces.len()
        invariant
            0 <= k <= pieces@.len(),
            spec_clauses(clauses@) =~~= spec_build_clauses(piece_views(pieces@).take(k as int)),
        decreases pieces@.len() - k,
    {
        let ghost pre = spec_clauses(clauses@);
        let piece_str = crate::chars::string_from_chars(&pieces[k].1);
        let terms = crate::analyze::analyze_text(piece_str.as_str());
        proof {
            assert(piece_views(pieces@).take(k + 1).drop_last() =~~= piece_views(pieces@).take(
                k as int,
            ));
            assert(piece_views(pieces@).take(k + 1).last() == piece_views(pieces@)[k as int]);
            assert(piece_views(pieces@)[k as int].1 == pieces@[k as int].1@);
        }
        if terms.len() >= 1 {
            let kind = pieces[k].0;
            clauses.push(Clause { kind, text: piece_str, terms });
            proof {
                assert(spec_clauses(clauses@) =~~= pre + seq![
                    SpecClause {
                        kind: pieces@[k as int].0,
                        text: pieces@[k as int].1@,
                        terms: spec_analyze(pieces@[k as int].1@),
                    },
                ]);
            }
        }
        k = k + 1;
    }
    proof {
        assert(piece_views(pieces@).take(pieces@.len() as int) =~~= piece_views(pieces@));
    }
    Ok(clauses)
}

fn skip_ws(v: &Vec<char>, i: usize) -> (r: usize)
    requires
        i <= v@.len(),
    ensures
        r == skip_ws_spec(v@, i as int),
        i <= r <= v@.len(),
        r < v@.len() ==> !is_space(v@[r as int]),
{
    proof {
        lemma_skip_ws(v@, i as int);
    }
    let mut k: usize = i;
    while k < v.len() && crate::chars::space(v[k])
        invariant
            i <= k <= v@.len(),
            skip_ws_spec(v@, i as int) == skip_ws_spec(v@, k as int),
        decreases v@.len() - k,
    {
        k = k + 1;
    }
    k
}

fn word_stop(v: &Vec<char>, i: usize) -> (r: usize)
    requires
        i <= v@.len(),
    ensures
        r == piece_end(v@, i as int),
        i <= r <= v@.len(),
        i < v@.len() && !is_space(v@[i as int]) ==> r > i,
{
    proof {
        lemma_piece_end(v@, i as int);
    }
    let mut k: usize = i;
    while k < v.len() && !crate::chars::space(v[k])
        invariant
            i <= k <= v@.len(),
            piece_end(v@, i as int) == piece_end(v@, k as int),
        decreases v@.len() - k,
    {
        k = k + 1;
    }
    k
}

fn find_quote(v: &Vec<char>, i: usize) -> (r: Option<usize>)
    requires
        i <= v@.len(),
    ensures
        match r {
            Some(j) => first_quote(v@, i as int) == Some(j as int) && i <= j < v@.len(),
            None => first_quote(v@, i as int) is None,
        },
{
    let mut k: usize = i;
    while k < v.len() && v[k] != '"'
        invariant
            i <= k <= v@.len(),
            first_quote(v@, i as int) == first_quote(v@, k as int),
        decreases v@.len() - k,
    {
        k = k + 1;
    }
    if k < v.len() {
        Some(k)
    } else {
        None
    }
}

// ---- matching ----

/// The Levenshtein edit distance.
pub open spec fn lev(a: Seq<char>, b: Seq<char>) -> int
    decreases a.len(), b.len(),
{
    if a.len() == 0 {
        b.len() as int
    } else if b.len() == 0 {
        a.len() as int
    } else {
        let d1 = lev(a.drop_last(), b) + 1;
        let d2 = lev(a, b.drop_last()) + 1;
        let d3 = lev(a.drop_last(), b.drop_last()) + (if a.last() == b.last() {
            0int
        } else {
            1int
        });
        vstd::math::min(vstd::math::min(d1, d2), d3)
    }
}

/// Fuzzy matching with prefix extension: the query term is within edit
/// distance one of some prefix of the indexed term (the whole term
/// included).
pub open spec fn term_fuzzy_match(q: Seq<char>, t: Seq<char>) -> bool {
    exists|j: int| 0 <= j <= t.len() && lev(q, t.take(j)) <= 1
}

/// A query term against one indexed term: exact, or fuzzy when enabled.
pub open spec fn term_match(q: Seq<char>, t: Seq<char>, fuzzy: bool) -> bool {
    t == q || (fuzzy && term_fuzzy_match(q, t))
}

pub open spec fn list_has_term(ts: Seq<Seq<char>>, q: Seq<char>, fuzzy: bool) -> bool {
    exists|k: int| 0 <= k < ts.len() && term_match(q, ts[k], fuzzy)
}

/// The phrase appears at position `k` of the term list.
pub open spec fn phrase_at(ts: Seq<Seq<char>>, ph: Seq<Seq<char>>, k: int) -> bool {
    &&& 0 <= k
    &&& k + ph.len() <= ts.len()
    &&& forall|u: int| 0 <= u < ph.len() ==> ts[k + u] == ph[u]
}

pub open spec fn list_has_phrase(ts: Seq<Seq<char>>, ph: Seq<Seq<char>>) -> bool {
    exists|k: int| phrase_at(ts, ph, k)
}

/// One clause against a document: a single term matches in the title or
/// the text term list; a phrase appears consecutively in one of them
/// (phrases match exactly, fuzzy applies to single terms).
pub open spec fn clause_hit(d: Doc, c: SpecClause, fuzzy: bool) -> bool {
    if c.terms.len() == 1 {
        list_has_term(str_views(d.title_terms@), c.terms[0], fuzzy) || list_has_term(
            str_views(d.text_terms@),
            c.terms[0],
            fuzzy,
        )
    } else {
        list_has_phrase(str_views(d.title_terms@), c.terms) || list_has_phrase(
            str_views(d.text_terms@),
            c.terms,
        )
    }
}

pub open spec fn has_kind(cs: Seq<SpecClause>, kind: ClauseKind) -> bool {
    exists|k: int| 0 <= k < cs.len() && (#[trigger] cs[k]).kind == kind
}

/// The boolean text query: every `+` clause matches, no `-` clause
/// matches, and at least one plain clause matches (or, with no plain
/// clause, at least one `+` clause exists). An empty clause list matches
/// nothing.
pub open spec fn doc_text_match(d: Doc, cs: Seq<SpecClause>, fuzzy: bool) -> bool {
    &&& cs.len() > 0
    &&& forall|k: int|
        0 <= k < cs.len() && (#[trigger] cs[k]).kind == ClauseKind::Must ==> clause_hit(
            d,
            cs[k],
            fuzzy,
        )
    &&& forall|k: int|
        0 <= k < cs.len() && (#[trigger] cs[k]).kind == ClauseKind::MustNot ==> !clause_hit(
            d,
            cs[k],
            fuzzy,
        )
    &&& if has_kind(cs, ClauseKind::Should) {
        exists|k: int|
            0 <= k < cs.len() && (#[trigger] cs[k]).kind == ClauseKind::Should && clause_hit(
                d,
                cs[k],
                fuzzy,
            )
    } else {
        has_kind(cs, ClauseKind::Must)
    }
}

/// The inclusive date filter on the title date. With no bound set every
/// document passes; with any bound set, a document without a title date
/// never matches.
pub open spec fn date_ok(d: Doc, after: Option<i64>, before: Option<i64>) -> bool {
    if after is None && before is None {
        true
    } else {
        match d.title_date {
            None => false,
            Some(ts) => (match after {
                Some(a) => ts >= a,
                None => true,
            }) && (match before {
                Some(b) => ts <= b,
                None => true,
            }),
        }
    }
}

/// The whole match predicate: the boolean text query and the date filter.
pub open spec fn doc_matches(
    d: Doc,
    cs: Seq<SpecClause>,
    fuzzy: bool,
    after: Option<i64>,
    before: Option<i64>,
) -> bool {
    doc_text_match(d, cs, fuzzy) && date_ok(d, after, before)
}

/// Date-filter semantics: a document without a title date never matches
/// once either bound is set, and the date filter never excludes it when
/// neither bound is set.
pub proof fn lemma_date_filter_semantics(
    d: Doc,
    cs: Seq<SpecClause>,
    fuzzy: bool,
    after: Option<i64>,
    before: Option<i64>,
)
    requires
        d.title_date is None,
    ensures
        after is Some || before is Some ==> !doc_matches(d, cs, fuzzy, after, before),
        after is None && before is None ==> doc_matches(d, cs, fuzzy, after, before)
            == doc_text_match(d, cs, fuzzy),
{
}

// ---- the edit-distance computation ----

/// Whether the query term is within edit distance one of some prefix of
/// `t`, by the usual dynamic program over rows of `lev` values.
fn fuzzy_within_one(qv: &Vec<char>, tv: &Vec<char>) -> (r: bool)
    requires
        qv@.len() <= 64,
        tv@.len() <= 64,
    ensures
        r == term_fuzzy_match(qv@, tv@),
{
    let n = qv.len();
    let m = tv.len();
    let mut row: Vec<usize> = Vec::new();
    let mut j: usize = 0;
    while j <= m
        invariant
            0 <= j <= m + 1,
            m == tv@.len() <= 64,
            row@.len() == j,
            forall|u: int| 0 <= u < j ==> row@[u] == lev(qv@.take(0), tv@.take(u)),
        decreases m + 1 - j,
    {
        proof {
            assert(qv@.take(0) =~= Seq::<char>::empty());
            assert(tv@.take(j as int).len() == j);
        }
        row.push(j);
        j = j + 1;
    }
    let mut i: usize = 1;
    while i <= n
        invariant
            1 <= i <= n + 1,
            n == qv@.len() <= 64,
            m == tv@.len() <= 64,
            row@.len() == m + 1,
            forall|u: int| 0 <= u <= m ==> row@[u] == lev(qv@.take(i - 1), tv@.take(u)),
            forall|u: int| 0 <= u <= m ==> 0 <= #[trigger] row@[u] <= i - 1 + u,
        decreases n + 1 - i,
    {
        let mut new_row: Vec<usize> = Vec::new();
        proof {
            assert(qv@.take(i as int).len() == i);
            assert(tv@.take(0) =~= Seq::<char>::empty());
        }
        new_row.push(i);
        let mut jj: usize = 1;
        while jj <= m
            invariant
                1 <= jj <= m + 1,
                1 <= i <= n,
                n == qv@.len() <= 64,
                m == tv@.len() <= 64,
                row@.len() == m + 1,
                new_row@.len() == jj,
                forall|u: int| 0 <= u <= m ==> row@[u] == lev(qv@.take(i - 1), tv@.take(u)),
                forall|u: int| 0 <= u <= m ==> 0 <= #[trigger] row@[u] <= i - 1 + u,
                forall|u: int| 0 <= u < jj ==> new_row@[u] == lev(qv@.take(i as int), tv@.take(u)),
                forall|u: int| 0 <= u < jj ==> 0 <= #[trigger] new_row@[u] <= i + u,
            decreases m + 1 - jj,
        {
            let cost: usize = if qv[i - 1] == tv[jj - 1] {
                0
            } else {
                1
            };
            let d1 = row[jj] + 1;
            let d2 = new_row[jj - 1] + 1;
            let d3 = row[jj - 1] + cost;
            let mut best = d1;
            if d2 < best {
                best = d2;
            }
            if d3 < best {
                best = d3;
            }
            proof {
                let a = qv@.take(i as int);
                let b = tv@.take(jj as int);
                assert(a.len() == i && b.len() == jj);
                assert(a.drop_last() =~= qv@.take(i - 1));
                assert(b.drop_last() =~= tv@.take(jj - 1));
                assert(a.last() == qv@[i - 1]);
                assert(b.last() == tv@[jj - 1]);
                assert(best == lev(a, b));
            }
            new_row.push(best);
            jj = jj + 1;
        }
        row = new_row;
        i = i + 1;
    }
    proof {
        assert(qv@.take(n as int) =~= qv@);
    }
    let mut best_found: bool = false;
    let mut j2: usize = 0;
    while j2 <= m
        invariant
            0 <= j2 <= m + 1,
            m == tv@.len() <= 64,
            row@.len() == m + 1,
            forall|u: int| 0 <= u <= m ==> row@[u] == lev(qv@, tv@.take(u)),
            best_found == (exists|u: int| 0 <= u < j2 && lev(qv@, tv@.take(u)) <= 1),
        decreases m + 1 - j2,
    {
        if row[j2] <= 1 {
            best_found = true;
        }
        j2 = j2 + 1;
    }
    best_found
}

/// One query term against a whole term list.
pub fn list_term_match(ts: &Vec<String>, q: &String, fuzzy: bool) -> (r: bool)
    requires
        q@.len() <= 64,
        forall|k: int| 0 <= k < ts@.len() ==> (#[trigger] ts@[k])@.len() <= 64,
    ensures
        r == list_has_term(str_views(ts@), q@, fuzzy),
{
    let mut k: usize = 0;
    while k < ts.len()
        invariant
            0 <= k <= ts@.len(),
            q@.len() <= 64,
            forall|u: int| 0 <= u < ts@.len() ==> (#[trigger] ts@[u])@.len() <= 64,
            forall|u: int| 0 <= u < k ==> !term_match(q@, str_views(ts@)[u], fuzzy),
        decreases ts@.len() - k,
    {
        if str_eq(&ts[k], q) {
            proof {
                assert(str_views(ts@)[k as int] == ts@[k as int]@);
                assert(term_match(q@, str_views(ts@)[k as int], fuzzy));
            }
            return true;
        }
        if fuzzy {
            let qv = chars_of(q.as_str());
            let tv = chars_of(ts[k].as_str());
            if fuzzy_within_one(&qv, &tv) {
                proof {
                    assert(str_views(ts@)[k as int] == ts@[k as int]@);
                    assert(term_match(q@, str_views(ts@)[k as int], fuzzy));
                }
                return true;
            }
        }
        proof {
            assert(str_views(ts@)[k as int] == ts@[k as int]@);
        }
        k = k + 1;
    }
    false
}

/// A whole phrase against a term list.
pub fn list_phrase_match(ts: &Vec<String>, ph: &Vec<String>) -> (r: bool)
    requires
        ph@.len() >= 1,
    ensures
        r == list_has_phrase(str_views(ts@), str_views(ph@)),
{
    if ph.len() > ts.len() {
        proof {
            assert forall|k: int| !phrase_at(str_views(ts@), str_views(ph@), k) by {}
        }
        return false;
    }
    let mut k: usize = 0;
    while k <= ts.len() - ph.len()
        invariant
            0 <= k <= ts@.len() - ph@.len() + 1,
            ph@.len() >= 1,
            ph@.len() <= ts@.len(),
            forall|u: int| 0 <= u < k ==> !phrase_at(str_views(ts@), str_views(ph@), u),
        decreases ts@.len() - ph@.len() + 1 - k,
    {
        let mut all: bool = true;
        let mut u: usize = 0;
        while u < ph.len()
            invariant
                0 <= u <= ph@.len(),
                0 <= k,
                k + ph@.len() <= ts@.len(),
                ts@.len() <= usize::MAX,
                all == (forall|w: int|
                    0 <= w < u ==> str_views(ts@)[k + w] == str_views(ph@)[w]),
            decreases ph@.len() - u,
        {
            if !str_eq(&ts[k + u], &ph[u]) {
                proof {
                    assert(str_views(ts@)[k + u] == ts@[k + u as int]@);
                    assert(str_views(ph@)[u as int] == ph@[u as int]@);
                }
                all = false;
                u = ph.len();
            } else {
                proof {
                    assert(str_views(ts@)[k + u] == ts@[k + u as int]@);
                    assert(str_views(ph@)[u as int] == ph@[u as int]@);
                }
                u = u + 1;
            }
        }
        if all {
            proof {
                assert(phrase_at(str_views(ts@), str_views(ph@), k as int));
            }
            return true;
        }
        proof {
            assert(!phrase_at(str_views(ts@), str_views(ph@), k as int));
        }
        k = k + 1;
    }
    proof {
        assert forall|u: int| !phrase_at(str_views(ts@), str_views(ph@), u) by {
            if 0 <= u && u + str_views(ph@).len() <= str_views(ts@).len() {
                assert(u <= ts@.len() - ph@.len());
            }
        }
    }
    false
}

} // verus!
