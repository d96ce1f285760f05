//! The serving boundary's compute side: snippet marker options with their
//! defaults, and the rendering of a query result page into highlighted
//! title and text strings. The HTTP plumbing itself stays outside the
//! library.

use vstd::prelude::*;

use crate::results::{PageMatchEntry, PageMatchResult};
use crate::snippet::spec_highlight;
use vstd::string::StringExecFns;

verus! {

pub fn default_snippet_prefix() -> (r: String)
    ensures
        r@ == "<span class=\"term\">"@,
{
    String::from_str("<span class=\"term\">")
}

pub fn default_snippet_suffix() -> (r: String)
    ensures
        r@ == "</span>"@,
{
    String::from_str("</span>")
}

/// The markers injected around each highlighted range.
pub struct SnippetOptions {
    pub prefix: String,
    pub suffix: String,
}

impl Default for SnippetOptions {
    fn default() -> (r: Self)
        ensures
            r.prefix@ == "<span class=\"term\">"@,
            r.suffix@ == "</span>"@,
    {
        SnippetOptions { prefix: default_snippet_prefix(), suffix: default_snippet_suffix() }
    }
}

/// One rendered hit: highlighted title and text.
pub struct SearchResult {
    pub title: String,
    pub text: String,
}

/// A rendered result page.
pub struct SearchResponse {
    pub results: Vec<SearchResult>,
}

/// Whether every snippet of the page is well formed, as `Search::query`
/// guarantees of its results.
pub open spec fn entries_wf(entries: Seq<PageMatchEntry>) -> bool {
    forall|k: int|
        0 <= k < entries.len() ==> (#[trigger] entries[k]).title.wf() && entries[k].text.wf()
}

/// Renders a result page: each entry's title and text snippet with the
/// markers injected around its highlighted ranges.
pub fn render_results(result: &PageMatchResult, opts: &SnippetOptions) -> (r: SearchResponse)
    requires
        entries_wf(result.entries@),
    ensures
        r.results@.len() == result.entries@.len(),
        forall|k: int|
            0 <= k < r.results@.len() ==> (#[trigger] r.results@[k]).title@ == spec_highlight(
                result.entries@[k].title,
                opts.prefix@,
                opts.suffix@,
            ) && r.results@[k].text@ == spec_highlight(
                result.entries@[k].text,
                opts.prefix@,
                opts.suffix@,
            ),
{
    let mut results: Vec<SearchResult> = Vec::new();
    let mut k: usize = 0;
    while k < result.entries.len()
        invariant
            0 <= k <= result.entries@.len(),
            entries_wf(result.entries@),
            results@.len() == k,
            forall|j: int|
                0 <= j < k ==> (#[trigger] results@[j]).title@ == spec_highlight(
                    result.entries@[j].title,
                    opts.prefix@,
                    opts.suffix@,
                ) && results@[j].text@ == spec_highlight(
                    result.entries@[j].text,
                    opts.prefix@,
                    opts.suffix@,
                ),
        decreases result.entries@.len() - k,
    {
        let e: &PageMatchEntry = &result.entries[k];
        let title = e.title.highlight(opts.prefix.as_str(), opts.suffix.as_str());
        let text = e.text.highlight(opts.prefix.as_str(), opts.suffix.as_str());
        results.push(SearchResult { title, text });
        k = k + 1;
    }
    SearchResponse { results }
}

} // verus!
