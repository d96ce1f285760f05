//! Match snippets: a window extracted from a matched field together with the
//! highlighted intervals inside it, and the renderer that injects
//! caller-supplied markers around the merged intervals.

use vstd::prelude::*;

use crate::chars::{chars_of, push_all, push_range, string_from_chars};
use crate::spans::{
    collapse_overlapped_ranges, lemma_merge_spans_disjoint, lemma_merge_spans_positive,
    merge_spans, span_wf, spans_disjoint, spans_positive, spans_sorted, spans_wf, spans_within,
    Span,
};

verus! {

/// A snippet of one matched field: the full original field text, the
/// extracted window, and the highlighted intervals inside that window,
/// character-addressed and sorted by start.
pub struct MatchSnippet {
    source: String,
    fragment: Vec<char>,
    highlighted: Vec<Span>,
    max_length: usize,
}

/// What `highlight` renders once the intervals are merged: the fragment text
/// from `from` with `pre` and `suf` wrapped around each interval.
pub open spec fn render_highlights(
    frag: Seq<char>,
    spans: Seq<Span>,
    pre: Seq<char>,
    suf: Seq<char>,
    from: int,
) -> Seq<char>
    decreases spans.len(),
{
    if spans.len() == 0 {
        frag.subrange(from, frag.len() as int)
    } else {
        frag.subrange(from, spans[0].start as int) + pre + frag.subrange(
            spans[0].start as int,
            spans[0].end as int,
        ) + suf + render_highlights(frag, spans.skip(1), pre, suf, spans[0].end as int)
    }
}

/// What `highlight` returns: the marked-up window, or with no highlighted
/// interval at all the unmarked first `max_length` characters of the
/// original field text — never an empty result for a non-empty source.
pub open spec fn spec_highlight(ms: MatchSnippet, pre: Seq<char>, suf: Seq<char>) -> Seq<char> {
    if ms.spec_highlighted().len() == 0 {
        ms.spec_source().take(
            vstd::math::min(ms.spec_max_length() as int, ms.spec_source().len() as int),
        )
    } else {
        render_highlights(ms.spec_fragment(), merge_spans(ms.spec_highlighted()), pre, suf, 0)
    }
}

impl MatchSnippet {
    /// The intervals lie inside the window, are strictly non-empty, and come
    /// sorted by start offset, as the matcher reports them.
    pub closed spec fn wf(self) -> bool {
        &&& spans_wf(self.highlighted@)
        &&& spans_positive(self.highlighted@)
        &&& spans_sorted(self.highlighted@)
        &&& spans_within(self.highlighted@, self.fragment@.len() as int)
    }

    pub closed spec fn spec_source(self) -> Seq<char> {
        self.source@
    }

    pub closed spec fn spec_fragment(self) -> Seq<char> {
        self.fragment@
    }

    pub closed spec fn spec_highlighted(self) -> Seq<Span> {
        self.highlighted@
    }

    pub closed spec fn spec_max_length(self) -> nat {
        self.max_length as nat
    }

    pub fn new(source: String, fragment: &str, highlighted: Vec<Span>, max_length: usize) -> (r:
        Self)
        requires
            spans_wf(highlighted@),
            spans_positive(highlighted@),
            spans_sorted(highlighted@),
            spans_within(highlighted@, fragment@.len() as int),
        ensures
            r.wf(),
            r.spec_source() == source@,
            r.spec_fragment() == fragment@,
            r.spec_highlighted() == highlighted@,
            r.spec_max_length() == max_length as nat,
    {
        MatchSnippet { source, fragment: chars_of(fragment), highlighted, max_length }
    }

    /// Renders the snippet window with `prefix` and `suffix` injected around
    /// each merged highlighted interval; with no highlighted interval at all
    /// it falls back to the first `max_length` characters of the original
    /// field text, unmarked.
    pub fn highlight(&self, prefix: &str, suffix: &str) -> (r: String)
        requires
            self.wf(),
        ensures
            r@ == spec_highlight(*self, prefix@, suffix@),
            self.spec_highlighted().len() == 0 ==> r@ == self.spec_source().take(
                vstd::math::min(self.spec_max_length() as int, self.spec_source().len() as int),
            ),
            self.spec_highlighted().len() > 0 ==> r@ == render_highlights(
                self.spec_fragment(),
                merge_spans(self.spec_highlighted()),
                prefix@,
                suffix@,
                0,
            ),
            self.spec_source().len() > 0 && self.spec_max_length() >= 1 ==> r@.len() > 0,
    {
        let merged = collapse_overlapped_ranges(&self.highlighted);
        proof {
            lemma_merge_spans_disjoint(self.highlighted@);
            lemma_merge_spans_positive(self.highlighted@);
            lemma_merge_spans_within(self.highlighted@, self.fragment@.len() as int);
        }

        if merged.len() == 0 {
            let src = chars_of(self.source.as_str());
            let n: usize = if src.len() < self.max_length {
                src.len()
            } else {
                self.max_length
            };
            let mut out: Vec<char> = Vec::new();
            push_range(&mut out, &src, 0, n);
            proof {
                assert(out@ =~= self.source@.take(
                    vstd::math::min(self.max_length as int, self.source@.len() as int),
                ));
            }
            return string_from_chars(&out);
        }

        let ghost all = merged@;
        let pre = chars_of(prefix);
        let suf = chars_of(suffix);
        let mut out: Vec<char> = Vec::new();
        let mut start_from: usize = 0;
        let mut k: usize = 0;
        proof {
            assert(all.skip(0) =~= all);
            assert(out@ + render_highlights(self.fragment@, all, pre@, suf@, 0)
                =~= render_highlights(self.fragment@, all, pre@, suf@, 0));
        }
        while k < merged.len()
            invariant
                0 <= k <= all.len(),
                merged@ == all,
                all == merge_spans(self.highlighted@),
                spans_wf(all),
                spans_disjoint(all),
                spans_within(all, self.fragment@.len() as int),
                start_from == if k == 0 {
                    0int
                } else {
                    all[k - 1].end as int
                },
                spans_positive(all),
                k > 0 ==> out@.len() >= 1,
                k < all.len() ==> start_from <= all[k as int].start,
                start_from <= self.fragment@.len(),
                out@ + render_highlights(self.fragment@, all.skip(k as int), pre@, suf@, start_from as int)
                    == render_highlights(self.fragment@, all, pre@, suf@, 0),
            decreases all.len() - k,
        {
            proof {
                assert(span_wf(all[k as int]));
                assert(all[k as int].end <= self.fragment@.len() as int);
                if k > 0 {
                    assert(all[k - 1].end <= all[k as int].start);
                }
            }
            let sp = merged[k];
            push_range(&mut out, &self.fragment, start_from, sp.start);
            push_all(&mut out, &pre);
            push_range(&mut out, &self.fragment, sp.start, sp.end);
            push_all(&mut out, &suf);
            proof {
                let rest = all.skip(k as int);
                assert(rest[0] == all[k as int]);
                assert(rest.skip(1) =~= all.skip(k as int + 1));
                assert(render_highlights(self.fragment@, rest, pre@, suf@, start_from as int)
                    == self.fragment@.subrange(start_from as int, sp.start as int) + pre@
                    + self.fragment@.subrange(sp.start as int, sp.end as int) + suf@
                    + render_highlights(
                    self.fragment@,
                    all.skip(k as int + 1),
                    pre@,
                    suf@,
                    sp.end as int,
                ));
            }
            proof {
                assert(all[k as int].start < all[k as int].end);
                assert(out@.len() >= 1);
            }
            start_from = sp.end;
            k = k + 1;
        }
        proof {
            assert(all.skip(k as int) =~= Seq::<Span>::empty());
        }
        push_range(&mut out, &self.fragment, start_from, self.fragment.len());
        string_from_chars(&out)
    }
}

/// Merging start-sorted intervals that lie within `limit` keeps them within
/// `limit`.
pub proof fn lemma_merge_spans_within(s: Seq<Span>, limit: int)
    requires
        spans_within(s, limit),
    ensures
        spans_within(merge_spans(s), limit),
    decreases s.len(),
{
    if s.len() <= 1 {
    } else if s[1].start < s[0].end {
        let merged = Span {
            start: s[0].start,
            end: if s[0].end >= s[1].end {
                s[0].end
            } else {
                s[1].end
            },
        };
        let t = seq![merged] + s.skip(2);
        assert forall|i: int| 0 <= i < t.len() implies #[trigger] t[i].end <= limit by {
            if i > 0 {
                assert(t[i] == s[i + 1]);
            }
        }
        lemma_merge_spans_within(t, limit);
    } else {
        let t = s.skip(1);
        assert forall|i: int| 0 <= i < t.len() implies #[trigger] t[i].end <= limit by {
            assert(t[i] == s[i + 1]);
        }
        lemma_merge_spans_within(t, limit);
        let mt = merge_spans(t);
        assert forall|i: int| 0 <= i < merge_spans(s).len() implies #[trigger] merge_spans(
            s,
        )[i].end <= limit by {
            if i > 0 {
                assert(merge_spans(s)[i] == mt[i - 1]);
            }
        }
    }
}

} // verus!
