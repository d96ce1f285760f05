//! Half-open highlight intervals inside a snippet window, and the
//! interval-merge pass that coalesces overlapping intervals before markers
//! are injected around them.

use vstd::prelude::*;

verus! {

/// A half-open interval `[start, end)` of character positions inside a
/// snippet window.
#[derive(Clone, Copy, Debug, PartialEq, Eq, Structural)]
pub struct Span {
    pub start: usize,
    pub end: usize,
}

/// A well-formed interval does not end before it starts.
pub open spec fn span_wf(s: Span) -> bool {
    s.start <= s.end
}

pub open spec fn spans_wf(s: Seq<Span>) -> bool {
    forall|i: int| 0 <= i < s.len() ==> #[trigger] span_wf(s[i])
}

/// Sorted by start offset, the order in which the matcher reports intervals.
pub open spec fn spans_sorted(s: Seq<Span>) -> bool {
    forall|i: int, j: int| 0 <= i < j < s.len() ==> #[trigger] s[i].start <= #[trigger] s[j].start
}

/// Pairwise disjoint and in order: each interval ends at or before the next
/// one starts.
pub open spec fn spans_disjoint(s: Seq<Span>) -> bool {
    forall|i: int, j: int| 0 <= i < j < s.len() ==> #[trigger] s[i].end <= #[trigger] s[j].start
}

/// Every interval is strictly non-empty.
pub open spec fn spans_positive(s: Seq<Span>) -> bool {
    forall|i: int| 0 <= i < s.len() ==> (#[trigger] s[i]).start < s[i].end
}

/// All intervals end at or before position `limit`.
pub open spec fn spans_within(s: Seq<Span>, limit: int) -> bool {
    forall|i: int| 0 <= i < s.len() ==> #[trigger] s[i].end <= limit
}

/// The standard interval merge over a start-sorted list: an interval whose
/// start lies strictly before the current interval's end is folded into it;
/// any other interval closes the current one.
pub open spec fn merge_spans(s: Seq<Span>) -> Seq<Span>
    decreases s.len(),
{
    if s.len() == 0 {
        Seq::<Span>::empty()
    } else if s.len() == 1 {
        s
    } else if s[1].start < s[0].end {
        let merged = Span {
            start: s[0].start,
            end: if s[0].end >= s[1].end {
                s[0].end
            } else {
                s[1].end
            },
        };
        merge_spans(seq![merged] + s.skip(2))
    } else {
        seq![s[0]] + merge_spans(s.skip(1))
    }
}

/// Merges overlapping intervals of a start-sorted list.
///
/// The result is exactly `merge_spans` of the input; `lemma_merge_spans_disjoint`
/// states what shape that result has.
pub fn collapse_overlapped_ranges(ranges: &Vec<Span>) -> (r: Vec<Span>)
    requires
        spans_sorted(ranges@),
    ensures
        r@ == merge_spans(ranges@),
{
    let mut result: Vec<Span> = Vec::new();
    if ranges.len() == 0 {
        assert(merge_spans(ranges@) =~= result@);
        return result;
    }
    let mut current: Span = ranges[0];
    let mut i: usize = 1;
    proof {
        assert(seq![current] + ranges@.skip(1) =~= ranges@);
    }
    while i < ranges.len()
        invariant
            1 <= i <= ranges@.len(),
            merge_spans(ranges@) == result@ + merge_spans(seq![current] + ranges@.skip(i as int)),
        decreases ranges@.len() - i,
    {
        let next = ranges[i];
        proof {
            let tail = seq![current] + ranges@.skip(i as int);
            assert(tail.len() >= 2);
            assert(tail[0] == current);
            assert(tail[1] == ranges@[i as int]);
        }
        if next.start < current.end {
            let merged = Span {
                start: current.start,
                end: if current.end >= next.end {
                    current.end
                } else {
                    next.end
                },
            };
            proof {
                let tail = seq![current] + ranges@.skip(i as int);
                assert(tail.skip(2) =~= ranges@.skip(i as int + 1));
                assert(seq![merged] + tail.skip(2) =~= seq![merged] + ranges@.skip(i as int + 1));
                assert(merge_spans(tail) == merge_spans(
                    seq![merged] + ranges@.skip(i as int + 1),
                ));
            }
            current = merged;
        } else {
            proof {
                let tail = seq![current] + ranges@.skip(i as int);
                assert(tail.skip(1) =~= ranges@.skip(i as int));
                assert(merge_spans(tail) == seq![current] + merge_spans(ranges@.skip(i as int)));
                assert(seq![ranges@[i as int]] + ranges@.skip(i as int).skip(1) =~= ranges@.skip(
                    i as int,
                ));
                assert((result@ + seq![current]) + merge_spans(
                    seq![ranges@[i as int]] + ranges@.skip(i as int + 1),
                ) =~= result@ + (seq![current] + merge_spans(ranges@.skip(i as int)))) by {
                    assert(ranges@.skip(i as int).skip(1) =~= ranges@.skip(i as int + 1));
                    assert(seq![ranges@[i as int]] + ranges@.skip(i as int + 1) =~= ranges@.skip(
                        i as int,
                    ));
                }
            }
            result.push(current);
            current = next;
        }
        i = i + 1;
    }
    proof {
        assert(seq![current] + ranges@.skip(i as int) =~= seq![current]);
        assert(merge_spans(seq![current]) =~= seq![current]);
    }
    result.push(current);
    result
}

/// Interval-merge correctness: over any well-formed, start-sorted input the
/// merged intervals are well formed, pairwise disjoint, and sorted, and the
/// first merged interval keeps the first input start.
pub proof fn lemma_merge_spans_disjoint(s: Seq<Span>)
    requires
        spans_wf(s),
        spans_sorted(s),
    ensures
        spans_wf(merge_spans(s)),
        spans_disjoint(merge_spans(s)),
        spans_sorted(merge_spans(s)),
        s.len() > 0 ==> merge_spans(s).len() > 0 && merge_spans(s)[0].start == s[0].start,
    decreases s.len(),
{
    let m = merge_spans(s);
    if s.len() <= 1 {
        // merge returns the input unchanged
    } else if s[1].start < s[0].end {
        let merged = Span {
            start: s[0].start,
            end: if s[0].end >= s[1].end {
                s[0].end
            } else {
                s[1].end
            },
        };
        let t = seq![merged] + s.skip(2);
        assert forall|i: int| 0 <= i < t.len() implies #[trigger] span_wf(t[i]) by {
            if i > 0 {
                assert(t[i] == s[i + 1]);
                assert(span_wf(s[i + 1]));
            }
        }
        assert forall|i: int, j: int| 0 <= i < j < t.len() implies #[trigger] t[i].start
            <= #[trigger] t[j].start by {
            if i > 0 {
                assert(t[i] == s[i + 1]);
                assert(t[j] == s[j + 1]);
            } else {
                assert(t[j] == s[j + 1]);
                assert(s[0].start <= s[j + 1].start);
            }
        }
        lemma_merge_spans_disjoint(t);
        assert(m == merge_spans(t));
    } else {
        let t = s.skip(1);
        assert forall|i: int| 0 <= i < t.len() implies #[trigger] span_wf(t[i]) by {
            assert(t[i] == s[i + 1]);
        }
        assert forall|i: int, j: int| 0 <= i < j < t.len() implies #[trigger] t[i].start
            <= #[trigger] t[j].start by {
            assert(t[i] == s[i + 1]);
            assert(t[j] == s[j + 1]);
        }
        lemma_merge_spans_disjoint(t);
        let mt = merge_spans(t);
        assert(m =~= seq![s[0]] + mt);
        assert(s[0].end <= s[1].start);
        assert forall|i: int, j: int| 0 <= i < j < m.len() implies #[trigger] m[i].end
            <= #[trigger] m[j].start by {
            if i == 0 {
                // m[j] comes from the merge of the tail: its start is at least
                // the tail's first start, which is s[1].start.
                assert(m[j] == mt[j - 1]);
                if j - 1 > 0 {
                    assert(mt[0].end <= mt[j - 1].start);
                    assert(span_wf(mt[0]));
                }
                assert(mt[0].start == t[0].start);
                assert(t[0] == s[1]);
            } else {
                assert(m[i] == mt[i - 1]);
                assert(m[j] == mt[j - 1]);
            }
        }
        assert forall|i: int| 0 <= i < m.len() implies #[trigger] span_wf(m[i]) by {
            if i > 0 {
                assert(m[i] == mt[i - 1]);
            }
        }
        assert forall|i: int, j: int| 0 <= i < j < m.len() implies #[trigger] m[i].start
            <= #[trigger] m[j].start by {
            assert(m[i].end <= m[j].start);
            assert(span_wf(m[i]));
        }
    }
}

/// Merging keeps every interval strictly non-empty.
pub proof fn lemma_merge_spans_positive(s: Seq<Span>)
    requires
        spans_positive(s),
    ensures
        spans_positive(merge_spans(s)),
    decreases s.len(),
{
    if s.len() <= 1 {
    } else if s[1].start < s[0].end {
        let merged = Span {
            start: s[0].start,
            end: if s[0].end >= s[1].end {
                s[0].end
            } else {
                s[1].end
            },
        };
        let t = seq![merged] + s.skip(2);
        assert forall|i: int| 0 <= i < t.len() implies (#[trigger] t[i]).start < t[i].end by {
            if i > 0 {
                assert(t[i] == s[i + 1]);
            }
        }
        lemma_merge_spans_positive(t);
    } else {
        let t = s.skip(1);
        assert forall|i: int| 0 <= i < t.len() implies (#[trigger] t[i]).start < t[i].end by {
            assert(t[i] == s[i + 1]);
        }
        lemma_merge_spans_positive(t);
        let m = merge_spans(s);
        let mt = merge_spans(t);
        assert forall|i: int| 0 <= i < m.len() implies (#[trigger] m[i]).start < m[i].end by {
            if i > 0 {
                assert(m[i] == mt[i - 1]);
            }
        }
    }
}

} // verus!
