//! The result assembler: ranks matching documents (by score, or by title
//! date once a date filter is active), pages through the ranking with
//! offset and count, and builds the highlighted snippet entries.

use vstd::multiset::Multiset;
use vstd::prelude::*;

use crate::analyze::spec_analyze;
use crate::chars::{chars_of, push_range, str_views, string_from_chars, vec_views};
use crate::error::Error;
use crate::index::{Doc, Search};
use crate::page::Page;
use crate::query::{
    clause_hit, clause_view, date_ok, doc_matches, doc_text_match, has_kind,
    lemma_build_clauses_props, list_has_term, list_phrase_match, list_term_match, parse_query,
    spec_clauses, spec_lex, spec_parse_query, term_match, Clause, ClauseKind, QueryOptions,
    SpecClause,
};
use crate::analyze::lemma_norm_tokens_bounds;
use crate::index::doc_wf;
use crate::snippet::MatchSnippet;
use crate::spans::{spans_positive, spans_sorted, spans_wf, spans_within, Span};

verus! {

/// One ranked hit: its ordering key and the document's position in the
/// committed set.
#[derive(Clone, Copy, Debug, PartialEq, Eq, Structural)]
pub struct Ranked {
    pub key: i128,
    pub idx: usize,
}

/// The strict ranking order: higher key first; equal keys keep document
/// order.
pub open spec fn precedes(a: Ranked, b: Ranked) -> bool {
    a.key > b.key || (a.key == b.key && a.idx < b.idx)
}

pub open spec fn ranked_sorted(s: Seq<Ranked>) -> bool {
    forall|i: int, j: int| 0 <= i < j < s.len() ==> precedes(#[trigger] s[i], #[trigger] s[j])
}

pub open spec fn idx_distinct(s: Seq<Ranked>) -> bool {
    forall|i: int, j: int|
        0 <= i < j < s.len() ==> (#[trigger] s[i]).idx != (#[trigger] s[j]).idx
}

/// Insertion into a ranked list: after everything that precedes `x`.
pub open spec fn insert_ranked(s: Seq<Ranked>, x: Ranked) -> Seq<Ranked>
    decreases s.len(),
{
    if s.len() == 0 {
        seq![x]
    } else if precedes(s[0], x) {
        seq![s[0]] + insert_ranked(s.drop_first(), x)
    } else {
        seq![x] + s
    }
}

/// Insertion sort over the ranking order; with distinct document positions
/// the order is strict and total, so this is the one sorted arrangement.
pub open spec fn sort_ranked(s: Seq<Ranked>) -> Seq<Ranked>
    decreases s.len(),
{
    if s.len() == 0 {
        Seq::<Ranked>::empty()
    } else {
        insert_ranked(sort_ranked(s.drop_last()), s.last())
    }
}

proof fn lemma_insert_ranked(s: Seq<Ranked>, x: Ranked)
    requires
        ranked_sorted(s),
        idx_distinct(s),
        forall|i: int| 0 <= i < s.len() ==> (#[trigger] s[i]).idx != x.idx,
    ensures
        ranked_sorted(insert_ranked(s, x)),
        idx_distinct(insert_ranked(s, x)),
        insert_ranked(s, x).to_multiset() == s.to_multiset().insert(x),
        insert_ranked(s, x).len() == s.len() + 1,
        forall|i: int|
            0 <= i < insert_ranked(s, x).len() ==> (#[trigger] insert_ranked(s, x)[i]) == x
                || s.contains(insert_ranked(s, x)[i]),
    decreases s.len(),
{
    broadcast use vstd::seq_lib::group_to_multiset_ensures;

    let r = insert_ranked(s, x);
    if s.len() == 0 {
        assert(r =~= s.push(x));
        assert(r.to_multiset() =~= s.to_multiset().insert(x));
        assert(r[0] == x);
    } else if precedes(s[0], x) {
        let t = s.drop_first();
        assert forall|i: int, j: int| 0 <= i < j < t.len() implies precedes(
            #[trigger] t[i],
            #[trigger] t[j],
        ) by {
            assert(t[i] == s[i + 1]);
            assert(t[j] == s[j + 1]);
        }
        assert forall|i: int, j: int| 0 <= i < j < t.len() implies (#[trigger] t[i]).idx != (
        #[trigger] t[j]).idx by {
            assert(t[i] == s[i + 1]);
            assert(t[j] == s[j + 1]);
        }
        assert forall|i: int| 0 <= i < t.len() implies (#[trigger] t[i]).idx != x.idx by {
            assert(t[i] == s[i + 1]);
        }
        lemma_insert_ranked(t, x);
        let rt = insert_ranked(t, x);
        assert(r =~= seq![s[0]] + rt);
        // every element of rt is x or drawn from t, so s[0] precedes it
        assert forall|i: int, j: int| 0 <= i < j < r.len() implies precedes(
            #[trigger] r[i],
            #[trigger] r[j],
        ) by {
            if i == 0 {
                assert(r[j] == rt[j - 1]);
                if rt[j - 1] == x {
                    assert(precedes(s[0], x));
                } else {
                    assert(t.contains(rt[j - 1]));
                    let w = choose|w: int| 0 <= w < t.len() && t[w] == rt[j - 1];
                    assert(t[w] == s[w + 1]);
                    assert(precedes(s[0], s[w + 1]));
                }
            } else {
                assert(r[i] == rt[i - 1]);
                assert(r[j] == rt[j - 1]);
            }
        }
        assert forall|i: int, j: int| 0 <= i < j < r.len() implies (#[trigger] r[i]).idx != (
        #[trigger] r[j]).idx by {
            if i == 0 {
                assert(r[j] == rt[j - 1]);
                if rt[j - 1] == x {
                    assert(s[0].idx != x.idx);
                } else {
                    assert(t.contains(rt[j - 1]));
                    let w = choose|w: int| 0 <= w < t.len() && t[w] == rt[j - 1];
                    assert(t[w] == s[w + 1]);
                    assert(s[0].idx != s[w + 1].idx);
                }
            } else {
                assert(r[i] == rt[i - 1]);
                assert(r[j] == rt[j - 1]);
            }
        }
        assert(r.to_multiset() =~= s.to_multiset().insert(x)) by {
            assert(r.remove(0) =~= rt);
            assert(r.remove(0).to_multiset() =~= r.to_multiset().remove(r[0]));
            assert(r[0] == s[0]);
            assert(r.contains(r[0]));
            assert(r.to_multiset().count(r[0]) > 0);
            assert(r.to_multiset().remove(r[0]).insert(r[0]) =~= r.to_multiset());
            assert(r.to_multiset() =~= rt.to_multiset().insert(s[0]));
            assert(s.remove(0) =~= t);
            assert(s.remove(0).to_multiset() =~= s.to_multiset().remove(s[0]));
            assert(s.contains(s[0]));
            assert(s.to_multiset().count(s[0]) > 0);
            assert(s.to_multiset().remove(s[0]).insert(s[0]) =~= s.to_multiset());
            assert(s.to_multiset() =~= t.to_multiset().insert(s[0]));
            assert(rt.to_multiset() == t.to_multiset().insert(x));
            assert(t.to_multiset().insert(x).insert(s[0]) =~= t.to_multiset().insert(
                s[0],
            ).insert(x));
        }
        assert forall|i: int| 0 <= i < r.len() implies (#[trigger] r[i]) == x || s.contains(
            r[i],
        ) by {
            if i == 0 {
                assert(s[0] == r[0]);
            } else {
                assert(r[i] == rt[i - 1]);
                if rt[i - 1] != x {
                    assert(t.contains(rt[i - 1]));
                    let w = choose|w: int| 0 <= w < t.len() && t[w] == rt[i - 1];
                    assert(s[w + 1] == rt[i - 1]);
                }
            }
        }
    } else {
        // x goes first: since positions are distinct and s[0] does not
        // precede x, x precedes s[0] and everything after it
        assert(r =~= seq![x] + s);
        assert(precedes(x, s[0]));
        assert forall|i: int, j: int| 0 <= i < j < r.len() implies precedes(
            #[trigger] r[i],
            #[trigger] r[j],
        ) by {
            if i == 0 {
                assert(r[j] == s[j - 1]);
                if j > 1 {
                    assert(precedes(s[0], s[j - 1]));
                }
            } else {
                assert(r[i] == s[i - 1]);
                assert(r[j] == s[j - 1]);
            }
        }
        assert forall|i: int, j: int| 0 <= i < j < r.len() implies (#[trigger] r[i]).idx != (
        #[trigger] r[j]).idx by {
            if i == 0 {
                assert(r[j] == s[j - 1]);
            } else {
                assert(r[i] == s[i - 1]);
                assert(r[j] == s[j - 1]);
            }
        }
        assert(r.to_multiset() =~= s.to_multiset().insert(x)) by {
            assert(r.remove(0) =~= s);
            assert(r.remove(0).to_multiset() =~= r.to_multiset().remove(r[0]));
            assert(r[0] == x);
            assert(r.contains(r[0]));
            assert(r.to_multiset().count(r[0]) > 0);
            assert(r.to_multiset().remove(r[0]).insert(r[0]) =~= r.to_multiset());
        }
        assert forall|i: int| 0 <= i < r.len() implies (#[trigger] r[i]) == x || s.contains(
            r[i],
        ) by {
            if i > 0 {
                assert(r[i] == s[i - 1]);
            }
        }
    }
}

/// Sorting preserves the hits as a multiset and yields the strict ranking
/// order, provided the document positions are distinct.
pub proof fn lemma_sort_ranked(s: Seq<Ranked>)
    requires
        idx_distinct(s),
    ensures
        ranked_sorted(sort_ranked(s)),
        idx_distinct(sort_ranked(s)),
        sort_ranked(s).to_multiset() == s.to_multiset(),
        sort_ranked(s).len() == s.len(),
    decreases s.len(),
{
    broadcast use vstd::seq_lib::group_to_multiset_ensures;

    if s.len() > 0 {
        let t = s.drop_last();
        assert forall|i: int, j: int| 0 <= i < j < t.len() implies (#[trigger] t[i]).idx != (
        #[trigger] t[j]).idx by {
            assert(t[i] == s[i]);
            assert(t[j] == s[j]);
        }
        lemma_sort_ranked(t);
        let st = sort_ranked(t);
        // the last element's position is new to the sorted prefix
        assert forall|i: int| 0 <= i < st.len() implies (#[trigger] st[i]).idx != s.last().idx by {
            assert(st.to_multiset().contains(st[i]));
            assert(t.to_multiset().contains(st[i]));
            assert(t.contains(st[i]));
            let w = choose|w: int| 0 <= w < t.len() && t[w] == st[i];
            assert(s[w] == st[i]);
            assert(s[w].idx != s[s.len() - 1].idx);
        }
        lemma_insert_ranked(st, s.last());
        assert(s.to_multiset() =~= t.to_multiset().insert(s.last())) by {
            assert(t.push(s.last()) =~= s);
        }
    }
}

/// Walking a ranked list page by page: the window at `o`, then the pages
/// after it.
pub open spec fn pages_concat(r: Seq<Ranked>, c: int, o: int) -> Seq<Ranked>
    decreases r.len() - o when 0 <= o <= r.len() && c >= 1
{
    if o >= r.len() {
        Seq::<Ranked>::empty()
    } else {
        r.subrange(o, vstd::math::min(o + c, r.len() as int)) + pages_concat(
            r,
            c,
            vstd::math::min(o + c, r.len() as int),
        )
    }
}

/// Pagination completeness: starting at any offset and repeatedly taking
/// the next page until none is left walks exactly the tail of the ranked
/// list — so from offset 0 every ranked hit is visited exactly once, and
/// the page lengths sum to the total.
pub proof fn lemma_pagination_complete(r: Seq<Ranked>, c: int, o: int)
    requires
        c >= 1,
        0 <= o <= r.len(),
    ensures
        pages_concat(r, c, o) == r.subrange(o, r.len() as int),
    decreases r.len() - o,
{
    if o >= r.len() {
        assert(pages_concat(r, c, o) =~= r.subrange(o, r.len() as int));
    } else {
        let next = vstd::math::min(o + c, r.len() as int);
        lemma_pagination_complete(r, c, next);
        assert(r.subrange(o, next) + r.subrange(next, r.len() as int) =~= r.subrange(
            o,
            r.len() as int,
        ));
    }
}

fn insert_sorted(acc: &mut Vec<Ranked>, x: Ranked)
    ensures
        final(acc)@ == insert_ranked(old(acc)@, x),
{
    let mut i: usize = 0;
    proof {
        assert(old(acc)@.skip(0) =~= old(acc)@);
        assert(old(acc)@.take(0) + insert_ranked(old(acc)@, x) =~= insert_ranked(old(acc)@, x));
    }
    while i < acc.len() && (acc[i].key > x.key || (acc[i].key == x.key && acc[i].idx < x.idx))
        invariant
            0 <= i <= acc@.len(),
            acc@ == old(acc)@,
            insert_ranked(old(acc)@, x) == old(acc)@.take(i as int) + insert_ranked(
                old(acc)@.skip(i as int),
                x,
            ),
        decreases acc@.len() - i,
    {
        proof {
            let rest = old(acc)@.skip(i as int);
            assert(rest[0] == old(acc)@[i as int]);
            assert(precedes(rest[0], x));
            assert(rest.drop_first() =~= old(acc)@.skip(i as int + 1));
            assert(old(acc)@.take(i as int) + (seq![rest[0]] + insert_ranked(
                rest.drop_first(),
                x,
            )) =~= old(acc)@.take(i as int + 1) + insert_ranked(old(acc)@.skip(i as int + 1), x));
        }
        i = i + 1;
    }
    proof {
        let rest = old(acc)@.skip(i as int);
        if i < acc@.len() {
            assert(rest[0] == old(acc)@[i as int]);
            assert(!precedes(rest[0], x));
            assert(insert_ranked(rest, x) =~= seq![x] + rest);
        } else {
            assert(rest =~= Seq::<Ranked>::empty());
            assert(insert_ranked(rest, x) =~= seq![x]);
        }
    }
    acc.insert(i, x);
    proof {
        assert(acc@ =~= old(acc)@.take(i as int) + insert_ranked(old(acc)@.skip(i as int), x));
    }
}

fn sort_hits(rl: &Vec<Ranked>) -> (r: Vec<Ranked>)
    ensures
        r@ == sort_ranked(rl@),
{
    let mut acc: Vec<Ranked> = Vec::new();
    let mut k: usize = 0;
    proof {
        assert(rl@.take(0) =~= Seq::<Ranked>::empty());
        assert(acc@ =~= sort_ranked(rl@.take(0)));
    }
    while k < rl.len()
        invariant
            0 <= k <= rl@.len(),
            acc@ == sort_ranked(rl@.take(k as int)),
        decreases rl@.len() - k,
    {
        insert_sorted(&mut acc, rl[k]);
        proof {
            assert(rl@.take(k + 1).drop_last() =~= rl@.take(k as int));
            assert(rl@.take(k + 1).last() == rl@[k as int]);
        }
        k = k + 1;
    }
    proof {
        assert(rl@.take(rl@.len() as int) =~= rl@);
    }
    acc
}

// ---- scoring ----

/// How often a query term matches in a term list.
pub open spec fn term_occurrences(ts: Seq<Seq<char>>, q: Seq<char>, fuzzy: bool) -> int
    decreases ts.len(),
{
    if ts.len() == 0 {
        0
    } else {
        term_occurrences(ts.drop_last(), q, fuzzy) + (if term_match(q, ts.last(), fuzzy) {
            1int
        } else {
            0int
        })
    }
}

/// A clause's contribution to the term-frequency count: how often a single
/// term occurs over both fields, one for a present phrase, nothing for an
/// excluding clause.
pub open spec fn clause_occurrences(d: Doc, c: SpecClause, fuzzy: bool) -> int {
    if c.kind == ClauseKind::MustNot {
        0
    } else if c.terms.len() == 1 {
        term_occurrences(str_views(d.title_terms@), c.terms[0], fuzzy) + term_occurrences(
            str_views(d.text_terms@),
            c.terms[0],
            fuzzy,
        )
    } else {
        if clause_hit(d, c, fuzzy) {
            1int
        } else {
            0int
        }
    }
}

/// The total term-frequency count over all clauses, saturated at a fixed
/// ceiling so the scaled score always fits machine arithmetic.
pub open spec fn hits_total(d: Doc, cs: Seq<SpecClause>, fuzzy: bool) -> int
    decreases cs.len(),
{
    if cs.len() == 0 {
        0
    } else {
        vstd::math::min(
            hits_total(d, cs.drop_last(), fuzzy) + vstd::math::min(
                clause_occurrences(d, cs.last(), fuzzy),
                1_000_000_000,
            ),
            1_000_000_000,
        )
    }
}

/// Term-frequency score, length-normalized: the saturated hit count scaled
/// by 1000 and divided by the document's term count plus one.
pub open spec fn doc_score(d: Doc, cs: Seq<SpecClause>, fuzzy: bool) -> int {
    hits_total(d, cs, fuzzy) * 1000 / (d.title_terms@.len() + d.text_terms@.len() + 1) as int
}

/// The ranking key: the title date in date-ordered mode (a document
/// without one ranks last), the score otherwise.
pub open spec fn rank_key(d: Doc, cs: Seq<SpecClause>, fuzzy: bool, dmode: bool) -> int {
    if dmode {
        match d.title_date {
            Some(ts) => ts as int,
            None => -10_000_000_000_000,
        }
    } else {
        doc_score(d, cs, fuzzy)
    }
}

/// The unsorted hit list: one ranked entry per matching document, in
/// document order.
pub open spec fn rank_list(
    docs: Seq<Doc>,
    cs: Seq<SpecClause>,
    fuzzy: bool,
    after: Option<i64>,
    before: Option<i64>,
    i: int,
) -> Seq<Ranked>
    decreases docs.len() - i when 0 <= i <= docs.len()
{
    if i >= docs.len() {
        Seq::<Ranked>::empty()
    } else {
        (if doc_matches(docs[i], cs, fuzzy, after, before) {
            seq![
                Ranked {
                    key: rank_key(docs[i], cs, fuzzy, after is Some || before is Some) as i128,
                    idx: i as usize,
                },
            ]
        } else {
            Seq::<Ranked>::empty()
        }) + rank_list(docs, cs, fuzzy, after, before, i + 1)
    }
}

/// Every hit-list entry points at a matching document, carries that
/// document's ranking key, and the entries keep strictly increasing
/// document order; every matching document is in the list.
pub proof fn lemma_rank_list_props(
    docs: Seq<Doc>,
    cs: Seq<SpecClause>,
    fuzzy: bool,
    after: Option<i64>,
    before: Option<i64>,
    i: int,
)
    requires
        0 <= i <= docs.len(),
        docs.len() <= usize::MAX,
    ensures
        ({
            let rl = rank_list(docs, cs, fuzzy, after, before, i);
            &&& forall|k: int|
                0 <= k < rl.len() ==> i <= (#[trigger] rl[k]).idx < docs.len() && doc_matches(
                    docs[rl[k].idx as int],
                    cs,
                    fuzzy,
                    after,
                    before,
                ) && rl[k].key == rank_key(
                    docs[rl[k].idx as int],
                    cs,
                    fuzzy,
                    after is Some || before is Some,
                ) as i128
            &&& forall|k: int, l: int|
                0 <= k < l < rl.len() ==> (#[trigger] rl[k]).idx < (#[trigger] rl[l]).idx
            &&& forall|j: int|
                i <= j < docs.len() && doc_matches(#[trigger] docs[j], cs, fuzzy, after, before)
                    ==> exists|k: int| 0 <= k < rl.len() && (#[trigger] rl[k]).idx == j
        }),
    decreases docs.len() - i,
{
    if i < docs.len() {
        lemma_rank_list_props(docs, cs, fuzzy, after, before, i + 1);
        let rl = rank_list(docs, cs, fuzzy, after, before, i);
        let rest = rank_list(docs, cs, fuzzy, after, before, i + 1);
        let here = doc_matches(docs[i], cs, fuzzy, after, before);
        assert forall|j: int|
            i <= j < docs.len() && doc_matches(#[trigger] docs[j], cs, fuzzy, after, before)
                implies exists|k: int| 0 <= k < rl.len() && (#[trigger] rl[k]).idx == j by {
            if j == i {
                assert(rl[0].idx == i);
            } else {
                let k0 = choose|k0: int| 0 <= k0 < rest.len() && (#[trigger] rest[k0]).idx == j;
                if here {
                    assert(rl[k0 + 1].idx == j);
                } else {
                    assert(rl[k0].idx == j);
                }
            }
        }
    }
}

fn count_occurrences(ts: &Vec<String>, q: &String, fuzzy: bool) -> (r: usize)
    requires
        q@.len() <= 64,
        forall|k: int| 0 <= k < ts@.len() ==> (#[trigger] ts@[k])@.len() <= 64,
    ensures
        r as int == term_occurrences(str_views(ts@), q@, fuzzy),
{
    let mut n: usize = 0;
    let mut k: usize = 0;
    proof {
        assert(str_views(ts@).take(0) =~~= Seq::<Seq<char>>::empty());
    }
    while k < ts.len()
        invariant
            0 <= k <= ts@.len(),
            q@.len() <= 64,
            forall|u: int| 0 <= u < ts@.len() ==> (#[trigger] ts@[u])@.len() <= 64,
            n <= k,
            n as int == term_occurrences(str_views(ts@).take(k as int), q@, fuzzy),
        decreases ts@.len() - k,
    {
        let hit = single_term_match(&ts[k], q, fuzzy);
        proof {
            assert(str_views(ts@).take(k + 1).drop_last() =~~= str_views(ts@).take(k as int));
            assert(str_views(ts@).take(k + 1).last() == ts@[k as int]@);
        }
        if hit {
            n = n + 1;
        }
        k = k + 1;
    }
    proof {
        assert(str_views(ts@).take(ts@.len() as int) =~~= str_views(ts@));
    }
    n
}

fn single_term_match(t: &String, q: &String, fuzzy: bool) -> (r: bool)
    requires
        q@.len() <= 64,
        t@.len() <= 64,
    ensures
        r == term_match(q@, t@, fuzzy),
{
    let mut one: Vec<String> = Vec::new();
    one.push(t.clone());
    proof {
        assert(str_views(one@) =~~= seq![t@]);
    }
    let hit = list_term_match(&one, q, fuzzy);
    proof {
        assert(list_has_term(str_views(one@), q@, fuzzy) == term_match(q@, t@, fuzzy)) by {
            if term_match(q@, t@, fuzzy) {
                assert(str_views(one@)[0] == t@);
            }
        }
    }
    hit
}

// ---- executable matching and scoring ----

/// All term lists of the document hold tokens the analyzer can produce.
pub open spec fn doc_terms_bounded(d: Doc) -> bool {
    &&& forall|k: int| 0 <= k < d.title_terms@.len() ==> (#[trigger] d.title_terms@[k])@.len() <= 64
    &&& forall|k: int| 0 <= k < d.text_terms@.len() ==> (#[trigger] d.text_terms@[k])@.len() <= 64
}

pub open spec fn clauses_bounded(cs: Seq<Clause>) -> bool {
    forall|k: int, u: int|
        0 <= k < cs.len() && 0 <= u < (#[trigger] cs[k]).terms@.len() ==> (
        #[trigger] cs[k].terms@[u])@.len() <= 64
}

pub open spec fn clauses_nonempty(cs: Seq<Clause>) -> bool {
    forall|k: int| 0 <= k < cs.len() ==> (#[trigger] cs[k]).terms@.len() >= 1
}

fn clause_hit_exec(d: &Doc, c: &Clause, fuzzy: bool) -> (r: bool)
    requires
        doc_terms_bounded(*d),
        c.terms@.len() >= 1,
        forall|u: int| 0 <= u < c.terms@.len() ==> (#[trigger] c.terms@[u])@.len() <= 64,
    ensures
        r == clause_hit(*d, clause_view(*c), fuzzy),
{
    if c.terms.len() == 1 {
        proof {
            assert(clause_view(*c).terms[0] == c.terms@[0]@);
        }
        list_term_match(&d.title_terms, &c.terms[0], fuzzy) || list_term_match(
            &d.text_terms,
            &c.terms[0],
            fuzzy,
        )
    } else {
        list_phrase_match(&d.title_terms, &c.terms) || list_phrase_match(&d.text_terms, &c.terms)
    }
}

fn date_ok_exec(d: &Doc, after: Option<i64>, before: Option<i64>) -> (r: bool)
    ensures
        r == date_ok(*d, after, before),
{
    if after.is_none() && before.is_none() {
        return true;
    }
    match d.title_date {
        None => false,
        Some(ts) => {
            let a_ok = match after {
                Some(a) => ts >= a,
                None => true,
            };
            let b_ok = match before {
                Some(b) => ts <= b,
                None => true,
            };
            a_ok && b_ok
        },
    }
}

fn doc_match_exec(
    d: &Doc,
    clauses: &Vec<Clause>,
    fuzzy: bool,
    after: Option<i64>,
    before: Option<i64>,
) -> (r: bool)
    requires
        doc_terms_bounded(*d),
        clauses_bounded(clauses@),
        clauses_nonempty(clauses@),
    ensures
        r == doc_matches(*d, spec_clauses(clauses@), fuzzy, after, before),
{
    let ghost cs = spec_clauses(clauses@);
    if clauses.len() == 0 {
        return false;
    }
    let mut all_must: bool = true;
    let mut any_mustnot: bool = false;
    let mut has_should: bool = false;
    let mut any_should: bool = false;
    let mut has_must: bool = false;
    let mut k: usize = 0;
    while k < clauses.len()
        invariant
            0 <= k <= clauses@.len(),
            cs == spec_clauses(clauses@),
            cs.len() == clauses@.len(),
            doc_terms_bounded(*d),
            clauses_bounded(clauses@),
            clauses_nonempty(clauses@),
            all_must == (forall|j: int|
                0 <= j < k && (#[trigger] cs[j]).kind == ClauseKind::Must ==> clause_hit(
                    *d,
                    cs[j],
                    fuzzy,
                )),
            any_mustnot == (exists|j: int|
                0 <= j < k && (#[trigger] cs[j]).kind == ClauseKind::MustNot && clause_hit(
                    *d,
                    cs[j],
                    fuzzy,
                )),
            has_should == (exists|j: int|
                0 <= j < k && (#[trigger] cs[j]).kind == ClauseKind::Should),
            has_must == (exists|j: int| 0 <= j < k && (#[trigger] cs[j]).kind == ClauseKind::Must),
            any_should == (exists|j: int|
                0 <= j < k && (#[trigger] cs[j]).kind == ClauseKind::Should && clause_hit(
                    *d,
                    cs[j],
                    fuzzy,
                )),
        decreases clauses@.len() - k,
    {
        proof {
            assert(cs[k as int] == clause_view(clauses@[k as int]));
        }
        let hit = clause_hit_exec(d, &clauses[k], fuzzy);
        match clauses[k].kind {
            ClauseKind::Must => {
                has_must = true;
                if !hit {
                    all_must = false;
                }
            },
            ClauseKind::MustNot => {
                if hit {
                    any_mustnot = true;
                }
            },
            ClauseKind::Should => {
                has_should = true;
                if hit {
                    any_should = true;
                }
            },
        }
        k = k + 1;
    }
    let text_match = all_must && !any_mustnot && (if has_should {
        any_should
    } else {
        has_must
    });
    proof {
        assert(has_should == has_kind(cs, ClauseKind::Should));
        assert(has_must == has_kind(cs, ClauseKind::Must));
        assert(text_match == doc_text_match(*d, cs, fuzzy));
    }
    let dok = date_ok_exec(d, after, before);
    text_match && dok
}

proof fn lemma_hits_total_bounds(d: Doc, cs: Seq<SpecClause>, fuzzy: bool)
    ensures
        0 <= hits_total(d, cs, fuzzy) <= 1_000_000_000,
    decreases cs.len(),
{
    if cs.len() > 0 {
        lemma_hits_total_bounds(d, cs.drop_last(), fuzzy);
        lemma_term_occurrences_nonneg(str_views(d.title_terms@), cs.last().terms[0], fuzzy);
        lemma_term_occurrences_nonneg(str_views(d.text_terms@), cs.last().terms[0], fuzzy);
    }
}

proof fn lemma_term_occurrences_nonneg(ts: Seq<Seq<char>>, q: Seq<char>, fuzzy: bool)
    ensures
        0 <= term_occurrences(ts, q, fuzzy) <= ts.len(),
    decreases ts.len(),
{
    if ts.len() > 0 {
        lemma_term_occurrences_nonneg(ts.drop_last(), q, fuzzy);
    }
}

fn doc_hits_exec(d: &Doc, clauses: &Vec<Clause>, fuzzy: bool) -> (r: u64)
    requires
        doc_terms_bounded(*d),
        clauses_bounded(clauses@),
        clauses_nonempty(clauses@),
    ensures
        r as int == hits_total(*d, spec_clauses(clauses@), fuzzy),
        r <= 1_000_000_000,
{
    let ghost cs = spec_clauses(clauses@);
    let mut hits: u64 = 0;
    let mut k: usize = 0;
    proof {
        assert(cs.take(0) =~~= Seq::<SpecClause>::empty());
    }
    while k < clauses.len()
        invariant
            0 <= k <= clauses@.len(),
            cs == spec_clauses(clauses@),
            cs.len() == clauses@.len(),
            doc_terms_bounded(*d),
            clauses_bounded(clauses@),
            clauses_nonempty(clauses@),
            hits as int == hits_total(*d, cs.take(k as int), fuzzy),
            hits <= 1_000_000_000,
        decreases clauses@.len() - k,
    {
        proof {
            assert(cs[k as int] == clause_view(clauses@[k as int]));
            assert(cs.take(k + 1).drop_last() =~~= cs.take(k as int));
            assert(cs.take(k + 1).last() == cs[k as int]);
        }
        let occ_capped: u64 = match clauses[k].kind {
            ClauseKind::MustNot => 0,
            _ => {
                if clauses[k].terms.len() == 1 {
                    proof {
                        assert(cs[k as int].terms[0] == clauses@[k as int].terms@[0]@);
                    }
                    let o1 = count_occurrences(&d.title_terms, &clauses[k].terms[0], fuzzy);
                    let o2 = count_occurrences(&d.text_terms, &clauses[k].terms[0], fuzzy);
                    let o: u128 = o1 as u128 + o2 as u128;
                    if o > 1_000_000_000 {
                        1_000_000_000
                    } else {
                        o as u64
                    }
                } else {
                    let hit = clause_hit_exec(d, &clauses[k], fuzzy);
                    if hit {
                        1
                    } else {
                        0
                    }
                }
            },
        };
        proof {
            assert(occ_capped as int == vstd::math::min(
                clause_occurrences(*d, cs[k as int], fuzzy),
                1_000_000_000,
            ));
        }
        let next: u64 = hits + occ_capped;
        hits = if next > 1_000_000_000 {
            1_000_000_000
        } else {
            next
        };
        k = k + 1;
    }
    proof {
        assert(cs.take(cs.len() as int) =~~= cs);
    }
    hits
}

fn doc_score_exec(d: &Doc, clauses: &Vec<Clause>, fuzzy: bool) -> (r: u64)
    requires
        doc_terms_bounded(*d),
        clauses_bounded(clauses@),
        clauses_nonempty(clauses@),
    ensures
        r as int == doc_score(*d, spec_clauses(clauses@), fuzzy),
        r <= 1_000_000_000_000,
{
    let h = doc_hits_exec(d, clauses, fuzzy);
    let denom: u128 = d.title_terms.len() as u128 + d.text_terms.len() as u128 + 1;
    let val: u128 = (h as u128 * 1000) / denom;
    proof {
        assert(val <= 1_000_000_000_000) by {
            assert(h as u128 * 1000 <= 1_000_000_000_000);
        }
    }
    val as u64
}

// ---- snippet extraction ----

/// A case-insensitive literal occurrence of `w` at position `i` of the
/// window.
pub open spec fn ci_word_at(frag: Seq<char>, i: int, w: Seq<char>) -> bool {
    &&& 0 <= i
    &&& i + w.len() <= frag.len()
    &&& crate::analyze::spec_lower(frag.subrange(i, i + w.len())) == crate::analyze::spec_lower(w)
}

/// The highlight intervals that start at position `i`, one per matching
/// non-empty query word, in word order.
pub open spec fn hits_at(frag: Seq<char>, words: Seq<Seq<char>>, i: int, wi: int) -> Seq<Span>
    decreases words.len() - wi when 0 <= wi <= words.len()
{
    if wi >= words.len() {
        Seq::<Span>::empty()
    } else {
        (if words[wi].len() > 0 && ci_word_at(frag, i, words[wi]) {
            seq![Span { start: i as usize, end: (i + words[wi].len()) as usize }]
        } else {
            Seq::<Span>::empty()
        }) + hits_at(frag, words, i, wi + 1)
    }
}

/// All highlight intervals of the window, in start order.
pub open spec fn hits_from(frag: Seq<char>, words: Seq<Seq<char>>, i: int) -> Seq<Span>
    decreases frag.len() - i when 0 <= i <= frag.len()
{
    if i >= frag.len() {
        Seq::<Span>::empty()
    } else {
        hits_at(frag, words, i, 0) + hits_from(frag, words, i + 1)
    }
}

proof fn lemma_hits_at_shape(frag: Seq<char>, words: Seq<Seq<char>>, i: int, wi: int)
    requires
        0 <= wi <= words.len(),
        0 <= i <= frag.len(),
        frag.len() <= usize::MAX,
    ensures
        forall|k: int|
            0 <= k < hits_at(frag, words, i, wi).len() ==> (#[trigger] hits_at(
                frag,
                words,
                i,
                wi,
            )[k]).start == i && i < hits_at(frag, words, i, wi)[k].end <= frag.len(),
    decreases words.len() - wi,
{
    if wi < words.len() {
        lemma_hits_at_shape(frag, words, i, wi + 1);
        let h = hits_at(frag, words, i, wi);
        let rest = hits_at(frag, words, i, wi + 1);
        let included = words[wi].len() > 0 && ci_word_at(frag, i, words[wi]);
        assert forall|k: int| 0 <= k < h.len() implies (#[trigger] h[k]).start == i && i
            < h[k].end <= frag.len() by {
            if included {
                if k == 0 {
                    assert(h[0] == Span {
                        start: i as usize,
                        end: (i + words[wi].len()) as usize,
                    });
                } else {
                    assert(h[k] == rest[k - 1]);
                }
            } else {
                assert(h[k] == rest[k]);
            }
        }
    }
}

proof fn lemma_hits_from_shape(frag: Seq<char>, words: Seq<Seq<char>>, i: int)
    requires
        0 <= i <= frag.len(),
        frag.len() <= usize::MAX,
    ensures
        ({
            let h = hits_from(frag, words, i);
            &&& forall|k: int|
                0 <= k < h.len() ==> i <= (#[trigger] h[k]).start < h[k].end <= frag.len()
            &&& forall|k: int, l: int|
                0 <= k < l < h.len() ==> (#[trigger] h[k]).start <= (#[trigger] h[l]).start
        }),
    decreases frag.len() - i,
{
    if i < frag.len() {
        lemma_hits_from_shape(frag, words, i + 1);
        lemma_hits_at_shape(frag, words, i, 0);
        let h = hits_from(frag, words, i);
        let here = hits_at(frag, words, i, 0);
        let rest = hits_from(frag, words, i + 1);
        assert forall|k: int| 0 <= k < h.len() implies i <= (#[trigger] h[k]).start < h[k].end
            <= frag.len() by {
            if k < here.len() {
                assert(h[k] == here[k]);
            } else {
                assert(h[k] == rest[k - here.len()]);
            }
        }
        assert forall|k: int, l: int| 0 <= k < l < h.len() implies (#[trigger] h[k]).start <= (
        #[trigger] h[l]).start by {
            if k < here.len() && l < here.len() {
                assert(h[k] == here[k]);
                assert(h[l] == here[l]);
            } else if k < here.len() {
                assert(h[k] == here[k]);
                assert(h[l] == rest[l - here.len()]);
            } else {
                assert(h[k] == rest[k - here.len()]);
                assert(h[l] == rest[l - here.len()]);
            }
        }
    }
}

/// The first window position carrying a highlight, or the window length
/// when none does.
pub open spec fn first_hit(s: Seq<char>, words: Seq<Seq<char>>, i: int) -> int
    decreases s.len() - i when 0 <= i <= s.len()
{
    if i >= s.len() {
        s.len() as int
    } else if hits_at(s, words, i, 0).len() > 0 {
        i
    } else {
        first_hit(s, words, i + 1)
    }
}

/// Where the snippet window of a field starts: at the first literal hit,
/// or at the beginning when there is none.
pub open spec fn frag_start(field: Seq<char>, words: Seq<Seq<char>>) -> int {
    if first_hit(field, words, 0) == field.len() {
        0
    } else {
        first_hit(field, words, 0)
    }
}

/// The snippet window: at most `maxlen` characters of the field from the
/// window start.
pub open spec fn spec_fragment(field: Seq<char>, words: Seq<Seq<char>>, maxlen: int) -> Seq<char> {
    field.subrange(
        frag_start(field, words),
        vstd::math::min(frag_start(field, words) + maxlen, field.len() as int),
    )
}

/// The highlight intervals inside the snippet window.
pub open spec fn spec_snippet_spans(field: Seq<char>, words: Seq<Seq<char>>, maxlen: int) -> Seq<
    Span,
> {
    hits_from(spec_fragment(field, words, maxlen), words, 0)
}

proof fn lemma_first_hit(s: Seq<char>, words: Seq<Seq<char>>, i: int)
    requires
        0 <= i <= s.len(),
    ensures
        i <= first_hit(s, words, i) <= s.len(),
    decreases s.len() - i,
{
    if i < s.len() && !(hits_at(s, words, i, 0).len() > 0) {
        lemma_first_hit(s, words, i + 1);
    }
}

fn word_hit_at(frag: &Vec<char>, i: usize, w: &Vec<char>) -> (r: bool)
    requires
        i <= frag@.len(),
    ensures
        r == ci_word_at(frag@, i as int, w@),
{
    if frag.len() - i < w.len() {
        return false;
    }
    let mut u: usize = 0;
    while u < w.len()
        invariant
            0 <= u <= w@.len(),
            i + w@.len() <= frag@.len(),
            frag@.len() <= usize::MAX,
            forall|x: int|
                0 <= x < u ==> crate::chars::lower_char(frag@[i + x]) == crate::chars::lower_char(
                    w@[x],
                ),
        decreases w@.len() - u,
    {
        if crate::chars::to_lower(frag[i + u]) != crate::chars::to_lower(w[u]) {
            proof {
                let sub = frag@.subrange(i as int, i + w@.len());
                assert(crate::analyze::spec_lower(sub)[u as int] == crate::chars::lower_char(
                    frag@[i + u],
                ));
                assert(crate::analyze::spec_lower(w@)[u as int] == crate::chars::lower_char(
                    w@[u as int],
                ));
            }
            return false;
        }
        u = u + 1;
    }
    proof {
        let sub = frag@.subrange(i as int, i + w@.len());
        assert(crate::analyze::spec_lower(sub) =~= crate::analyze::spec_lower(w@));
    }
    true
}

fn any_hit_at(frag: &Vec<char>, words: &Vec<Vec<char>>, i: usize) -> (r: bool)
    requires
        i <= frag@.len(),
    ensures
        r == (hits_at(frag@, vec_views(words@), i as int, 0).len() > 0),
{
    let ghost wv = vec_views(words@);
    let mut wi: usize = 0;
    while wi < words.len()
        invariant
            0 <= wi <= words@.len(),
            wv == vec_views(words@),
            wv.len() == words@.len(),
            i <= frag@.len(),
            hits_at(frag@, wv, i as int, 0).len() == hits_at(frag@, wv, i as int, wi as int).len(),
        decreases words@.len() - wi,
    {
        proof {
            assert(wv[wi as int] == words@[wi as int]@);
        }
        if words[wi].len() > 0 && word_hit_at(frag, i, &words[wi]) {
            proof {
                assert(hits_at(frag@, wv, i as int, wi as int).len() > 0);
            }
            return true;
        }
        proof {
            assert(hits_at(frag@, wv, i as int, wi as int).len() == hits_at(
                frag@,
                wv,
                i as int,
                wi as int + 1,
            ).len());
        }
        wi = wi + 1;
    }
    proof {
        assert(hits_at(frag@, wv, i as int, words@.len() as int).len() == 0);
    }
    false
}

fn collect_hits(frag: &Vec<char>, words: &Vec<Vec<char>>) -> (r: Vec<Span>)
    ensures
        r@ == hits_from(frag@, vec_views(words@), 0),
{
    let ghost wv = vec_views(words@);
    let mut out: Vec<Span> = Vec::new();
    let mut i: usize = 0;
    proof {
        assert(out@ + hits_from(frag@, wv, 0) =~= hits_from(frag@, wv, 0));
    }
    while i < frag.len()
        invariant
            0 <= i <= frag@.len(),
            wv == vec_views(words@),
            wv.len() == words@.len(),
            out@ + hits_from(frag@, wv, i as int) =~= hits_from(frag@, wv, 0),
        decreases frag@.len() - i,
    {
        let ghost before = out@;
        let mut wi: usize = 0;
        while wi < words.len()
            invariant
                0 <= wi <= words@.len(),
                wv == vec_views(words@),
                wv.len() == words@.len(),
                0 <= i < frag@.len(),
                frag@.len() <= usize::MAX,
                out@ + hits_at(frag@, wv, i as int, wi as int) =~= before + hits_at(
                    frag@,
                    wv,
                    i as int,
                    0,
                ),
            decreases words@.len() - wi,
        {
            proof {
                assert(wv[wi as int] == words@[wi as int]@);
            }
            if words[wi].len() > 0 && word_hit_at(frag, i, &words[wi]) {
                out.push(
                    Span { start: i, end: i + words[wi].len() },
                );
            }
            proof {
                assert(hits_at(frag@, wv, i as int, wi as int) == (if wv[wi as int].len() > 0
                    && ci_word_at(frag@, i as int, wv[wi as int]) {
                    seq![
                        Span {
                            start: i as usize,
                            end: (i + wv[wi as int].len()) as usize,
                        },
                    ]
                } else {
                    Seq::<Span>::empty()
                }) + hits_at(frag@, wv, i as int, wi as int + 1));
                assert(out@ + hits_at(frag@, wv, i as int, wi as int + 1) =~= before + hits_at(
                    frag@,
                    wv,
                    i as int,
                    0,
                ));
            }
            wi = wi + 1;
        }
        proof {
            assert(hits_at(frag@, wv, i as int, words@.len() as int) =~= Seq::<Span>::empty());
            assert(out@ =~= before + hits_at(frag@, wv, i as int, 0));
            assert(out@ + hits_from(frag@, wv, i as int + 1) =~= before + (hits_at(
                frag@,
                wv,
                i as int,
                0,
            ) + hits_from(frag@, wv, i as int + 1)));
        }
        i = i + 1;
    }
    proof {
        assert(hits_from(frag@, wv, i as int) =~= Seq::<Span>::empty());
        assert(out@ =~= hits_from(frag@, wv, 0));
    }
    out
}

/// Builds the snippet of one field: the window from the first literal hit
/// (or the field start), and the case-insensitive literal occurrences of
/// the query words inside it.
fn make_snippet(field: &String, words: &Vec<Vec<char>>, maxlen: usize) -> (r: MatchSnippet)
    ensures
        r.wf(),
        r.spec_source() == field@,
        r.spec_fragment() == spec_fragment(field@, vec_views(words@), maxlen as int),
        r.spec_highlighted() == spec_snippet_spans(field@, vec_views(words@), maxlen as int),
        r.spec_max_length() == maxlen as nat,
{
    let ghost wv = vec_views(words@);
    let fv = chars_of(field.as_str());
    let mut p: usize = 0;
    while p < fv.len() && !any_hit_at(&fv, words, p)
        invariant
            0 <= p <= fv@.len(),
            fv@ == field@,
            wv == vec_views(words@),
            first_hit(fv@, wv, 0) == first_hit(fv@, wv, p as int),
        decreases fv@.len() - p,
    {
        p = p + 1;
    }
    let start: usize = if p >= fv.len() {
        0
    } else {
        p
    };
    proof {
        lemma_first_hit(fv@, wv, p as int);
        if p < fv@.len() {
            assert(first_hit(fv@, wv, p as int) == p);
        }
        assert(start as int == frag_start(field@, wv));
    }
    let stop: usize = if fv.len() - start < maxlen {
        fv.len()
    } else {
        start + maxlen
    };
    let mut frag: Vec<char> = Vec::new();
    push_range(&mut frag, &fv, start, stop);
    proof {
        assert(frag@ =~= spec_fragment(field@, wv, maxlen as int));
    }
    let spans = collect_hits(&frag, words);
    proof {
        lemma_hits_from_shape(frag@, wv, 0);
        assert(spans_wf(spans@));
        assert(spans_positive(spans@));
        assert(spans_sorted(spans@));
        assert(spans_within(spans@, frag@.len() as int));
    }
    let frag_str = string_from_chars(&frag);
    MatchSnippet::new(field.clone(), frag_str.as_str(), spans, maxlen)
}

// ---- entries and query execution ----

/// One page of results: the entries of the requested window, the offset of
/// the next page if one exists, and how many hits lie at or after the
/// requested offset.
pub struct PageMatchResult {
    pub entries: Vec<PageMatchEntry>,
    pub new_offset: Option<usize>,
    pub remaining: usize,
}

/// One hit: stored fields of the document, highlighted snippets of its
/// title and text, and the score in score-ordered mode.
pub struct PageMatchEntry {
    pub namespace: String,
    pub title: MatchSnippet,
    pub text: MatchSnippet,
    pub url: String,
    pub page_id: i64,
    pub score: Option<u64>,
}

/// The raw texts of the non-excluding clauses: what gets highlighted
/// literally inside snippets.
pub open spec fn spec_highlight_words(cs: Seq<SpecClause>) -> Seq<Seq<char>>
    decreases cs.len(),
{
    if cs.len() == 0 {
        Seq::<Seq<char>>::empty()
    } else {
        spec_highlight_words(cs.drop_last()) + (if cs.last().kind != ClauseKind::MustNot {
            seq![cs.last().text]
        } else {
            Seq::<Seq<char>>::empty()
        })
    }
}

/// What one result entry holds for a given document.
pub open spec fn entry_for(
    e: PageMatchEntry,
    d: Doc,
    words: Seq<Seq<char>>,
    snip: int,
    score: Option<u64>,
) -> bool {
    &&& e.namespace@ == d.namespace@
    &&& e.url@ == d.url@
    &&& e.page_id == d.id
    &&& e.score == score
    &&& e.title.wf()
    &&& e.text.wf()
    &&& e.title.spec_source() == d.title@
    &&& e.title.spec_fragment() == spec_fragment(d.title@, words, snip)
    &&& e.title.spec_highlighted() == spec_snippet_spans(d.title@, words, snip)
    &&& e.title.spec_max_length() == snip as nat
    &&& e.text.spec_source() == d.text@
    &&& e.text.spec_fragment() == spec_fragment(d.text@, words, snip)
    &&& e.text.spec_highlighted() == spec_snippet_spans(d.text@, words, snip)
    &&& e.text.spec_max_length() == snip as nat
}

fn collect_words(clauses: &Vec<Clause>) -> (r: Vec<Vec<char>>)
    ensures
        vec_views(r@) == spec_highlight_words(spec_clauses(clauses@)),
{
    let ghost cs = spec_clauses(clauses@);
    let mut out: Vec<Vec<char>> = Vec::new();
    let mut k: usize = 0;
    proof {
        assert(cs.take(0) =~~= Seq::<SpecClause>::empty());
        assert(vec_views(out@) =~~= spec_highlight_words(cs.take(0)));
    }
    while k < clauses.len()
        invariant
            0 <= k <= clauses@.len(),
            cs == spec_clauses(clauses@),
            cs.len() == clauses@.len(),
            vec_views(out@) =~~= spec_highlight_words(cs.take(k as int)),
        decreases clauses@.len() - k,
    {
        let ghost pre = vec_views(out@);
        proof {
            assert(cs.take(k + 1).drop_last() =~~= cs.take(k as int));
            assert(cs.take(k + 1).last() == cs[k as int]);
            assert(cs[k as int] == clause_view(clauses@[k as int]));
        }
        match clauses[k].kind {
            ClauseKind::MustNot => {
                proof {
                    assert(vec_views(out@) =~~= pre + Seq::<Seq<char>>::empty());
                }
            },
            _ => {
                let w = chars_of(clauses[k].text.as_str());
                out.push(w);
                proof {
                    assert(vec_views(out@) =~~= pre + seq![cs[k as int].text]);
                }
            },
        }
        k = k + 1;
    }
    proof {
        assert(cs.take(cs.len() as int) =~~= cs);
    }
    out
}

fn make_entry(d: &Doc, words: &Vec<Vec<char>>, snip: usize, score: Option<u64>) -> (r:
    PageMatchEntry)
    ensures
        entry_for(r, *d, vec_views(words@), snip as int, score),
{
    PageMatchEntry {
        namespace: d.namespace.clone(),
        title: make_snippet(&d.title, words, snip),
        text: make_snippet(&d.text, words, snip),
        url: d.url.clone(),
        page_id: d.id,
        score,
    }
}

/// The fully ranked hit list a query runs over: every matching document,
/// in the strict ranking order.
pub open spec fn spec_query_ranked(
    docs: Seq<Doc>,
    cs: Seq<SpecClause>,
    fuzzy: bool,
    after: Option<i64>,
    before: Option<i64>,
) -> Seq<Ranked> {
    sort_ranked(rank_list(docs, cs, fuzzy, after, before, 0))
}

impl Search {
    /// Executes a query: parses it, filters and ranks the committed
    /// documents (score order without a date filter, title-date order with
    /// one), applies the offset/count window, and builds highlighted
    /// snippet entries — the window and the total come from the same pass.
    ///
    /// A malformed query is an `InvalidQuery` error, never a partial match;
    /// every well-formed query succeeds.
    pub fn query(&self, q: &str, options: &QueryOptions) -> (r: Result<PageMatchResult, Error>)
        requires
            forall|k: int| 0 <= k < self.docs@.len() ==> doc_wf(#[trigger] self.docs@[k]),
            options.count >= 1,
            options.offset + options.count <= usize::MAX,
        ensures
            r is Ok <==> spec_parse_query(q@) is Some,
            r matches Err(e) ==> (e matches Error::InvalidQuery(m) && m@ == q@),
            r matches Ok(res) ==> (spec_parse_query(q@) matches Some(cs) && {
                let dmode = options.date_after is Some || options.date_before is Some;
                let ranked = spec_query_ranked(
                    self.docs@,
                    cs,
                    options.fuzzy,
                    options.date_after,
                    options.date_before,
                );
                let total = ranked.len() as int;
                let start = vstd::math::min(options.offset as int, total);
                let len = vstd::math::min(options.count as int, total - start);
                let words = spec_highlight_words(cs);
                &&& res.entries@.len() == len
                &&& forall|k: int|
                    0 <= k < len ==> (#[trigger] ranked[start + k]).idx < self.docs@.len()
                        && entry_for(
                        res.entries@[k],
                        self.docs@[ranked[start + k].idx as int],
                        words,
                        options.snippet_length as int,
                        if dmode {
                            None
                        } else {
                            Some(
                                doc_score(
                                    self.docs@[ranked[start + k].idx as int],
                                    cs,
                                    options.fuzzy,
                                ) as u64,
                            )
                        },
                    )
                &&& res.remaining == (if options.offset as int <= total {
                    total - options.offset as int
                } else {
                    0int
                })
                &&& res.new_offset == (if options.offset + res.entries@.len() < total {
                    Some((options.offset + res.entries@.len()) as usize)
                } else {
                    None::<usize>
                })
                &&& ranked_sorted(ranked)
                &&& idx_distinct(ranked)
                &&& ranked.to_multiset() == rank_list(
                    self.docs@,
                    cs,
                    options.fuzzy,
                    options.date_after,
                    options.date_before,
                    0,
                ).to_multiset()
            }),
    {
        let clauses = match parse_query(q) {
            Ok(cs) => cs,
            Err(e) => {
                return Err(e);
            },
        };
        let ghost cs = spec_clauses(clauses@);
        proof {
            // terms of parsed clauses are analyzer tokens: between 1 and 32
            // characters
            match spec_lex(q@, 0) {
                Some(ps) => {
                    lemma_build_clauses_props(ps);
                },
                None => {},
            }
            assert forall|k: int| 0 <= k < cs.len() implies (#[trigger] cs[k]).terms.len() >= 1
                && cs[k].terms == spec_analyze(cs[k].text) by {}
            assert forall|k: int, u: int|
                0 <= k < clauses@.len() && 0 <= u < (#[trigger] clauses@[k]).terms@.len() implies (
            #[trigger] clauses@[k].terms@[u])@.len() <= 64 by {
                assert(cs[k] == clause_view(clauses@[k]));
                lemma_norm_tokens_bounds(crate::analyze::spec_raw_tokens(cs[k].text, 0));
                assert(cs[k].terms[u] == clauses@[k].terms@[u]@);
            }
            assert forall|k: int| 0 <= k < clauses@.len() implies (#[trigger] clauses@[k]).terms@.len()
                >= 1 by {
                assert(cs[k] == clause_view(clauses@[k]));
            }
            assert forall|k: int| 0 <= k < self.docs@.len() implies doc_terms_bounded(
                #[trigger] self.docs@[k],
            ) by {
                let d = self.docs@[k];
                lemma_norm_tokens_bounds(crate::analyze::spec_raw_tokens(d.title@, 0));
                lemma_norm_tokens_bounds(crate::analyze::spec_raw_tokens(d.text@, 0));
                assert forall|u: int| 0 <= u < d.title_terms@.len() implies (
                #[trigger] d.title_terms@[u])@.len() <= 64 by {
                    assert(str_views(d.title_terms@)[u] == d.title_terms@[u]@);
                }
                assert forall|u: int| 0 <= u < d.text_terms@.len() implies (
                #[trigger] d.text_terms@[u])@.len() <= 64 by {
                    assert(str_views(d.text_terms@)[u] == d.text_terms@[u]@);
                }
            }
        }
        let dmode = options.date_specified();
        let after = options.date_after;
        let before = options.date_before;
        let fuzzy = options.fuzzy;

        // one pass: collect every matching document with its ranking key
        let mut rl: Vec<Ranked> = Vec::new();
        let mut i: usize = 0;
        proof {
            assert(rl@ + rank_list(self.docs@, cs, fuzzy, after, before, 0) =~= rank_list(
                self.docs@,
                cs,
                fuzzy,
                after,
                before,
                0,
            ));
        }
        while i < self.docs.len()
            invariant
                0 <= i <= self.docs@.len(),
                cs == spec_clauses(clauses@),
                clauses_bounded(clauses@),
                clauses_nonempty(clauses@),
                forall|k: int| 0 <= k < self.docs@.len() ==> doc_terms_bounded(
                    #[trigger] self.docs@[k],
                ),
                fuzzy == options.fuzzy,
                after == options.date_after,
                before == options.date_before,
                dmode == (after is Some || before is Some),
                rl@ + rank_list(self.docs@, cs, fuzzy, after, before, i as int) =~= rank_list(
                    self.docs@,
                    cs,
                    fuzzy,
                    after,
                    before,
                    0,
                ),
            decreases self.docs@.len() - i,
        {
            let ghost pre = rl@;
            let matched = doc_match_exec(&self.docs[i], &clauses, fuzzy, after, before);
            if matched {
                let key: i128 = if dmode {
                    match self.docs[i].title_date {
                        Some(ts) => ts as i128,
                        None => -10_000_000_000_000,
                    }
                } else {
                    let sc = doc_score_exec(&self.docs[i], &clauses, fuzzy);
                    sc as i128
                };
                proof {
                    assert(key as int == rank_key(self.docs@[i as int], cs, fuzzy, dmode));
                }
                rl.push(Ranked { key, idx: i });
                proof {
                    assert(rl@ =~= pre + seq![
                        Ranked {
                            key: rank_key(self.docs@[i as int], cs, fuzzy, dmode) as i128,
                            idx: i as usize,
                        },
                    ]);
                }
            }
            proof {
                assert(rank_list(self.docs@, cs, fuzzy, after, before, i as int) == (if
                    doc_matches(self.docs@[i as int], cs, fuzzy, after, before) {
                    seq![
                        Ranked {
                            key: rank_key(self.docs@[i as int], cs, fuzzy, dmode) as i128,
                            idx: i as usize,
                        },
                    ]
                } else {
                    Seq::<Ranked>::empty()
                }) + rank_list(self.docs@, cs, fuzzy, after, before, i as int + 1));
            }
            i = i + 1;
        }
        proof {
            assert(rank_list(self.docs@, cs, fuzzy, after, before, i as int)
                =~= Seq::<Ranked>::empty());
            assert(rl@ =~= rank_list(self.docs@, cs, fuzzy, after, before, 0));
        }

        let sorted = sort_hits(&rl);
        proof {
            lemma_rank_list_props(self.docs@, cs, fuzzy, after, before, 0);
            lemma_sort_ranked(rl@);
        }
        let total = sorted.len();

        let start: usize = if options.offset < total {
            options.offset
        } else {
            total
        };
        let take: usize = if options.count < total - start {
            options.count
        } else {
            total - start
        };

        let words = collect_words(&clauses);
        let mut entries: Vec<PageMatchEntry> = Vec::new();
        let mut k: usize = 0;
        let ghost ranked = sorted@;
        while k < take
            invariant
                0 <= k <= take,
                start + take <= total == ranked.len(),
                ranked == sorted@,
                sorted@ == spec_query_ranked(self.docs@, cs, fuzzy, after, before),
                sorted@.to_multiset() == rl@.to_multiset(),
                rl@ == rank_list(self.docs@, cs, fuzzy, after, before, 0),
                cs == spec_clauses(clauses@),
                dmode == (after is Some || before is Some),
                fuzzy == options.fuzzy,
                self.docs@.len() <= usize::MAX,
                vec_views(words@) == spec_highlight_words(cs),
                entries@.len() == k,
                forall|j: int|
                    0 <= j < k ==> (#[trigger] ranked[start + j]).idx < self.docs@.len()
                        && entry_for(
                        entries@[j],
                        self.docs@[ranked[start + j].idx as int],
                        spec_highlight_words(cs),
                        options.snippet_length as int,
                        if dmode {
                            None
                        } else {
                            Some(
                                doc_score(
                                    self.docs@[ranked[start + j].idx as int],
                                    cs,
                                    fuzzy,
                                ) as u64,
                            )
                        },
                    ),
            decreases take - k,
        {
            let e = sorted[start + k];
            proof {
                broadcast use vstd::seq_lib::group_to_multiset_ensures;

                assert(sorted@.contains(e)) by {
                    assert(sorted@[start + k as int] == e);
                }
                assert(sorted@.to_multiset().count(e) > 0);
                assert(rl@.to_multiset().count(e) > 0);
                assert(rl@.contains(e));
                lemma_rank_list_props(self.docs@, cs, fuzzy, after, before, 0);
                let rlspec = rank_list(self.docs@, cs, fuzzy, after, before, 0);
                assert(rl@ == rlspec);
                let w = choose|w: int| 0 <= w < rlspec.len() && rlspec[w] == e;
                assert(0 <= (rlspec[w]).idx < self.docs@.len() && doc_matches(
                    self.docs@[rlspec[w].idx as int],
                    cs,
                    fuzzy,
                    after,
                    before,
                ) && rlspec[w].key == rank_key(
                    self.docs@[rlspec[w].idx as int],
                    cs,
                    fuzzy,
                    after is Some || before is Some,
                ) as i128);
                assert(e.idx < self.docs@.len());
                assert(doc_matches(self.docs@[e.idx as int], cs, fuzzy, after, before));
                assert(e.key == rank_key(self.docs@[e.idx as int], cs, fuzzy, dmode) as i128);
                if !dmode {
                    lemma_hits_total_bounds(self.docs@[e.idx as int], cs, fuzzy);
                    assert(0 <= doc_score(self.docs@[e.idx as int], cs, fuzzy)
                        <= 1_000_000_000_000);
                }
            }
            let score_opt: Option<u64> = if dmode {
                None
            } else {
                Some(e.key as u64)
            };
            let entry = make_entry(&self.docs[e.idx], &words, options.snippet_length, score_opt);
            entries.push(entry);
            k = k + 1;
        }

        let shown = entries.len();
        let new_offset: Option<usize> = if options.offset + shown < total {
            Some(options.offset + shown)
        } else {
            None
        };
        let remaining: usize = if options.offset <= total {
            total - options.offset
        } else {
            0
        };
        Ok(PageMatchResult { entries, new_offset, remaining })
    }
}

// ---- queries are functions of the committed views ----

proof fn lemma_clause_hit_like(d1: Doc, d2: Doc, c: SpecClause, fuzzy: bool)
    requires
        crate::index::doc_like(d1, d2),
    ensures
        clause_hit(d1, c, fuzzy) == clause_hit(d2, c, fuzzy),
        clause_occurrences(d1, c, fuzzy) == clause_occurrences(d2, c, fuzzy),
{
    assert(str_views(d1.title_terms@) == str_views(d2.title_terms@));
    assert(str_views(d1.text_terms@) == str_views(d2.text_terms@));
}

proof fn lemma_hits_total_like(d1: Doc, d2: Doc, cs: Seq<SpecClause>, fuzzy: bool)
    requires
        crate::index::doc_like(d1, d2),
    ensures
        hits_total(d1, cs, fuzzy) == hits_total(d2, cs, fuzzy),
    decreases cs.len(),
{
    if cs.len() > 0 {
        lemma_hits_total_like(d1, d2, cs.drop_last(), fuzzy);
        lemma_clause_hit_like(d1, d2, cs.last(), fuzzy);
    }
}

proof fn lemma_doc_like_query(
    d1: Doc,
    d2: Doc,
    cs: Seq<SpecClause>,
    fuzzy: bool,
    after: Option<i64>,
    before: Option<i64>,
)
    requires
        crate::index::doc_like(d1, d2),
    ensures
        doc_matches(d1, cs, fuzzy, after, before) == doc_matches(d2, cs, fuzzy, after, before),
        rank_key(d1, cs, fuzzy, after is Some || before is Some) == rank_key(
            d2,
            cs,
            fuzzy,
            after is Some || before is Some,
        ),
{
    assert forall|k: int| 0 <= k < cs.len() implies clause_hit(d1, #[trigger] cs[k], fuzzy)
        == clause_hit(d2, cs[k], fuzzy) by {
        lemma_clause_hit_like(d1, d2, cs[k], fuzzy);
    }
    assert(doc_text_match(d1, cs, fuzzy) == doc_text_match(d2, cs, fuzzy));
    lemma_hits_total_like(d1, d2, cs, fuzzy);
    assert(d1.title_terms@.len() == d2.title_terms@.len()) by {
        assert(str_views(d1.title_terms@).len() == str_views(d2.title_terms@).len());
    }
    assert(d1.text_terms@.len() == d2.text_terms@.len()) by {
        assert(str_views(d1.text_terms@).len() == str_views(d2.text_terms@).len());
    }
}

proof fn lemma_rank_list_like(
    docs1: Seq<Doc>,
    docs2: Seq<Doc>,
    cs: Seq<SpecClause>,
    fuzzy: bool,
    after: Option<i64>,
    before: Option<i64>,
    i: int,
)
    requires
        docs1.len() == docs2.len(),
        forall|k: int|
            0 <= k < docs1.len() ==> crate::index::doc_like(
                #[trigger] docs1[k],
                #[trigger] docs2[k],
            ),
        0 <= i <= docs1.len(),
    ensures
        rank_list(docs1, cs, fuzzy, after, before, i) == rank_list(
            docs2,
            cs,
            fuzzy,
            after,
            before,
            i,
        ),
    decreases docs1.len() - i,
{
    if i < docs1.len() {
        lemma_rank_list_like(docs1, docs2, cs, fuzzy, after, before, i + 1);
        lemma_doc_like_query(docs1[i], docs2[i], cs, fuzzy, after, before);
    }
}

/// A query's ranked hit list, its page windows, and the page count are
/// functions of the committed documents' field values and nothing else:
/// two indexes holding field-identical document sets answer every query
/// identically.
pub proof fn lemma_query_depends_on_views(
    s1: Search,
    s2: Search,
    cs: Seq<SpecClause>,
    fuzzy: bool,
    after: Option<i64>,
    before: Option<i64>,
)
    requires
        s1.docs@.len() == s2.docs@.len(),
        forall|k: int|
            0 <= k < s1.docs@.len() ==> crate::index::doc_like(
                #[trigger] s1.docs@[k],
                #[trigger] s2.docs@[k],
            ),
    ensures
        spec_query_ranked(s1.docs@, cs, fuzzy, after, before) == spec_query_ranked(
            s2.docs@,
            cs,
            fuzzy,
            after,
            before,
        ),
        s1.docs@.len() == s2.docs@.len(),
{
    lemma_rank_list_like(s1.docs@, s2.docs@, cs, fuzzy, after, before, 0);
}

/// Rebuild idempotence: rebuilding twice from the same pages commits the
/// same number of documents, pairwise identical in every field the queries
/// read, so both indexes report the same page count and answer every query
/// with the same ranked hit list, windows and totals.
pub proof fn lemma_reindex_idempotent(
    s1: Search,
    s2: Search,
    pages: Seq<Page>,
    cs: Seq<SpecClause>,
    fuzzy: bool,
    after: Option<i64>,
    before: Option<i64>,
)
    requires
        s1.docs@.len() == crate::index::kept_pages(pages).len(),
        s2.docs@.len() == crate::index::kept_pages(pages).len(),
        forall|k: int|
            0 <= k < s1.docs@.len() ==> crate::index::doc_wf(#[trigger] s1.docs@[k])
                && crate::index::doc_built_from(s1.docs@[k], crate::index::kept_pages(pages)[k]),
        forall|k: int|
            0 <= k < s2.docs@.len() ==> crate::index::doc_wf(#[trigger] s2.docs@[k])
                && crate::index::doc_built_from(s2.docs@[k], crate::index::kept_pages(pages)[k]),
    ensures
        s1.docs@.len() == s2.docs@.len(),
        spec_query_ranked(s1.docs@, cs, fuzzy, after, before) == spec_query_ranked(
            s2.docs@,
            cs,
            fuzzy,
            after,
            before,
        ),
{
    assert forall|k: int| 0 <= k < s1.docs@.len() implies crate::index::doc_like(
        #[trigger] s1.docs@[k],
        #[trigger] s2.docs@[k],
    ) by {
        let a = s1.docs@[k];
        let b = s2.docs@[k];
        let p = crate::index::kept_pages(pages)[k];
        assert(crate::index::doc_built_from(a, p));
        assert(crate::index::doc_built_from(b, p));
        assert(a.namespace_key@ == b.namespace_key@);
        assert(str_views(a.categories@).len() == str_views(b.categories@).len());
        assert(a.categories@.len() == b.categories@.len());
        assert(str_views(a.category_keys@) =~~= str_views(b.category_keys@)) by {
            assert(a.category_keys@.len() == a.categories@.len());
            assert(b.category_keys@.len() == b.categories@.len());
            assert forall|u: int| 0 <= u < a.category_keys@.len() implies str_views(
                a.category_keys@,
            )[u] == str_views(b.category_keys@)[u] by {
                assert(str_views(a.category_keys@)[u] == a.category_keys@[u]@);
                assert(str_views(b.category_keys@)[u] == b.category_keys@[u]@);
                assert(a.category_keys@[u]@ == crate::analyze::norm_token(a.categories@[u]@));
                assert(b.category_keys@[u]@ == crate::analyze::norm_token(b.categories@[u]@));
                assert(str_views(a.categories@)[u] == a.categories@[u]@);
                assert(str_views(b.categories@)[u] == b.categories@[u]@);
            }
        }
    }
    lemma_query_depends_on_views(s1, s2, cs, fuzzy, after, before);
}

} // verus!
