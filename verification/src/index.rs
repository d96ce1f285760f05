//! The in-memory index store: documents under the schema, bulk rebuild with
//! an atomic swap, the stored revision counter, and read snapshots.

use vstd::prelude::*;

use crate::analyze::{analyze_text, norm_token, spec_analyze};
use crate::chars::{chars_of, is_space, str_views};
use crate::date::spec_date_timestamp;
use crate::page::{spec_namespace_name, Page};
use crate::textify::{spec_textify, textify};

verus! {

/// Nothing but whitespace.
pub open spec fn spec_blank(s: Seq<char>) -> bool {
    forall|i: int| 0 <= i < s.len() ==> is_space(#[trigger] s[i])
}

fn is_blank(s: &str) -> (r: bool)
    ensures
        r == spec_blank(s@),
{
    let v = chars_of(s);
    let mut k: usize = 0;
    while k < v.len()
        invariant
            0 <= k <= v@.len(),
            v@ == s@,
            forall|i: int| 0 <= i < k ==> is_space(#[trigger] v@[i]),
        decreases v@.len() - k,
    {
        if !crate::chars::space(v[k]) {
            return false;
        }
        k = k + 1;
    }
    true
}

/// One indexed document: stored field values plus the analyzed term lists
/// the text query runs against.
pub struct Doc {
    pub id: i64,
    pub title: String,
    pub text: String,
    pub title_terms: Vec<String>,
    pub text_terms: Vec<String>,
    pub title_date: Option<i64>,
    pub updated: i64,
    pub namespace: String,
    pub namespace_key: String,
    pub url: String,
    pub categories: Vec<String>,
    pub category_keys: Vec<String>,
}

/// A document carries exactly the stored fields its source page dictates:
/// identifier, title, dates, namespace name, URL and categories.
pub open spec fn doc_from_page(d: Doc, p: Page) -> bool {
    &&& d.id == p.id
    &&& d.title@ == p.title@
    &&& d.title_date == (match p.title_date.0 {
        Some(td) => Some(spec_date_timestamp(td) as i64),
        None => None::<i64>,
    })
    &&& d.updated == p.updated.0
    &&& d.namespace@ == spec_namespace_name(p.namespace)
    &&& d.url@ == p.url@
    &&& str_views(d.categories@) == str_views(p.categories@)
}

/// A document is exactly what indexing its page must produce: the page's
/// stored fields, the textified body, and the analyzed term lists.
pub open spec fn doc_built_from(d: Doc, p: Page) -> bool {
    &&& doc_from_page(d, p)
    &&& d.text@ == spec_textify(p.text@)
    &&& str_views(d.title_terms@) == spec_analyze(p.title@)
    &&& str_views(d.text_terms@) == spec_analyze(spec_textify(p.text@))
}

/// The pages a rebuild keeps, in page order: those whose textified body is
/// not blank.
pub open spec fn kept_pages(pages: Seq<Page>) -> Seq<Page>
    decreases pages.len(),
{
    if pages.len() == 0 {
        Seq::<Page>::empty()
    } else {
        kept_pages(pages.drop_last()) + (if !spec_blank(spec_textify(pages.last().text@)) {
            seq![pages.last()]
        } else {
            Seq::<Page>::empty()
        })
    }
}

/// A rebuild never keeps more pages than it was given.
pub proof fn lemma_kept_pages_len(pages: Seq<Page>)
    ensures
        kept_pages(pages).len() <= pages.len(),
    decreases pages.len(),
{
    if pages.len() > 0 {
        lemma_kept_pages_len(pages.drop_last());
    }
}

/// A document is internally consistent: its term lists are the analysis of
/// its stored title and text, its text is not blank, and its exact-match
/// namespace key is the normalized namespace name.
pub open spec fn doc_wf(d: Doc) -> bool {
    &&& str_views(d.title_terms@) == spec_analyze(d.title@)
    &&& str_views(d.text_terms@) == spec_analyze(d.text@)
    &&& !spec_blank(d.text@)
    &&& d.namespace_key@ == norm_token(d.namespace@)
    &&& d.category_keys@.len() == d.categories@.len()
    &&& forall|k: int|
        0 <= k < d.categories@.len() ==> (#[trigger] d.category_keys@[k])@ == norm_token(
            d.categories@[k]@,
        )
}

/// The index store: the committed document set and the stored revision.
/// A revision of 0 means never indexed.
pub struct Search {
    pub docs: Vec<Doc>,
    pub revision: u32,
}

fn clone_strings(v: &Vec<String>) -> (r: Vec<String>)
    ensures
        str_views(r@) == str_views(v@),
{
    let mut out: Vec<String> = Vec::new();
    let mut k: usize = 0;
    while k < v.len()
        invariant
            0 <= k <= v@.len(),
            out@.len() == k,
            forall|j: int| 0 <= j < k ==> (#[trigger] out@[j])@ == v@[j]@,
        decreases v@.len() - k,
    {
        out.push(v[k].clone());
        k = k + 1;
    }
    proof {
        assert(str_views(out@) =~~= str_views(v@));
    }
    out
}

/// Each exact-match category value through the simple analyzer.
fn normalize_all(v: &Vec<String>) -> (r: Vec<String>)
    ensures
        r@.len() == v@.len(),
        forall|k: int| 0 <= k < v@.len() ==> (#[trigger] r@[k])@ == norm_token(v@[k]@),
{
    let mut out: Vec<String> = Vec::new();
    let mut k: usize = 0;
    while k < v.len()
        invariant
            0 <= k <= v@.len(),
            out@.len() == k,
            forall|j: int| 0 <= j < k ==> (#[trigger] out@[j])@ == norm_token(v@[j]@),
        decreases v@.len() - k,
    {
        out.push(crate::analyze::normalize_exact(v[k].as_str()));
        k = k + 1;
    }
    out
}

/// Field-for-field equality of documents at the specification level.
pub open spec fn doc_like(a: Doc, b: Doc) -> bool {
    &&& a.id == b.id
    &&& a.title@ == b.title@
    &&& a.text@ == b.text@
    &&& str_views(a.title_terms@) == str_views(b.title_terms@)
    &&& str_views(a.text_terms@) == str_views(b.text_terms@)
    &&& a.title_date == b.title_date
    &&& a.updated == b.updated
    &&& a.namespace@ == b.namespace@
    &&& a.namespace_key@ == b.namespace_key@
    &&& a.url@ == b.url@
    &&& str_views(a.categories@) == str_views(b.categories@)
    &&& str_views(a.category_keys@) == str_views(b.category_keys@)
}

fn clone_doc(d: &Doc) -> (r: Doc)
    ensures
        doc_like(*d, r),
{
    Doc {
        id: d.id,
        title: d.title.clone(),
        text: d.text.clone(),
        title_terms: clone_strings(&d.title_terms),
        text_terms: clone_strings(&d.text_terms),
        title_date: match d.title_date {
            Some(t) => Some(t),
            None => None,
        },
        updated: d.updated,
        namespace: d.namespace.clone(),
        namespace_key: d.namespace_key.clone(),
        url: d.url.clone(),
        categories: clone_strings(&d.categories),
        category_keys: clone_strings(&d.category_keys),
    }
}

impl Search {
    /// An empty index that has never been indexed.
    pub fn new() -> (r: Search)
        ensures
            r.docs@.len() == 0,
            r.revision == 0,
    {
        Search { docs: Vec::new(), revision: 0 }
    }

    /// Whether the source's latest revision is ahead of the stored one.
    pub fn requires_reindex(&self, latest_revision: u32) -> (r: bool)
        ensures
            r == (self.revision < latest_revision),
    {
        self.revision < latest_revision
    }

    /// The number of committed documents.
    pub fn page_count(&self) -> (r: usize)
        ensures
            r == self.docs@.len(),
    {
        self.docs.len()
    }

    /// The document a page indexes to: textified, analyzed, dated. A page
    /// yields a document exactly when its textified body is not blank; the
    /// document holds the textified body and its analyzed term lists.
    pub fn make_doc(page: &Page) -> (r: Option<Doc>)
        requires
            page.wf(),
        ensures
            r is Some <==> !spec_blank(spec_textify(page.text@)),
            r matches Some(d) ==> doc_wf(d) && doc_built_from(d, *page),
    {
        let text = textify(page.text.as_str());
        let blank = is_blank(text.as_str());
        if blank {
            return None;
        }
        let title_terms = analyze_text(page.title.as_str());
        let text_terms = analyze_text(text.as_str());
        let namespace = page.namespace.name();
        let namespace_key = crate::analyze::normalize_exact(namespace.as_str());
        let category_keys = normalize_all(&page.categories);
        let categories = clone_strings(&page.categories);
        proof {
            assert(str_views(categories@).len() == categories@.len());
            assert(str_views(page.categories@).len() == page.categories@.len());
            assert forall|k: int| 0 <= k < categories@.len() implies (
            #[trigger] category_keys@[k])@ == norm_token(categories@[k]@) by {
                assert(str_views(categories@)[k] == categories@[k]@);
                assert(str_views(page.categories@)[k] == page.categories@[k]@);
            }
        }
        Some(
            Doc {
                id: page.id,
                title: page.title.clone(),
                text,
                title_terms,
                text_terms,
                title_date: page.title_date.timestamp(),
                updated: page.updated.timestamp(),
                namespace,
                namespace_key,
                url: page.url.clone(),
                categories,
                category_keys,
            },
        )
    }

    /// Transactionally replaces the whole committed document set with
    /// exactly the documents of the kept pages — those whose textified body
    /// is not blank — in page order, then advances the stored revision. The
    /// new set is built in full before the swap, so a reader holding a
    /// snapshot keeps its own consistent view.
    pub fn reindex_pages(&mut self, pages: &Vec<Page>, revision: u32)
        requires
            forall|k: int| 0 <= k < pages@.len() ==> (#[trigger] pages@[k]).wf(),
        ensures
            final(self).revision == revision,
            final(self).docs@.len() == kept_pages(pages@).len(),
            final(self).docs@.len() <= pages@.len(),
            forall|k: int|
                0 <= k < final(self).docs@.len() ==> doc_wf(#[trigger] final(self).docs@[k])
                    && doc_built_from(final(self).docs@[k], kept_pages(pages@)[k]),
    {
        let mut next: Vec<Doc> = Vec::new();
        let ghost mut built: Seq<Doc> = Seq::<Doc>::empty();
        let mut k: usize = 0;
        proof {
            assert(pages@.take(0) =~= Seq::<Page>::empty());
            assert(built.len() == kept_pages(pages@.take(0)).len());
        }
        while k < pages.len()
            invariant
                0 <= k <= pages@.len(),
                next@.len() <= k,
                next@ == built,
                forall|j: int| 0 <= j < pages@.len() ==> (#[trigger] pages@[j]).wf(),
                built.len() == kept_pages(pages@.take(k as int)).len(),
                forall|j: int|
                    0 <= j < built.len() ==> doc_wf(#[trigger] built[j]) && doc_built_from(
                        built[j],
                        kept_pages(pages@.take(k as int))[j],
                    ),
            decreases pages@.len() - k,
        {
            let ghost kept_pre = kept_pages(pages@.take(k as int));
            proof {
                assert(pages@.take(k + 1).drop_last() =~= pages@.take(k as int));
                assert(pages@.take(k + 1).last() == pages@[k as int]);
            }
            match Self::make_doc(&pages[k]) {
                Some(d) => {
                    proof {
                        assert(kept_pages(pages@.take(k + 1)) =~= kept_pre + seq![
                            pages@[k as int],
                        ]);
                        built = built.push(d);
                        assert forall|j: int| 0 <= j < built.len() implies doc_wf(
                            #[trigger] built[j],
                        ) && doc_built_from(built[j], kept_pages(pages@.take(k + 1))[j]) by {
                            if j < built.len() - 1 {
                                assert(built[j] == built.drop_last()[j]);
                                assert(kept_pages(pages@.take(k + 1))[j] == kept_pre[j]);
                            } else {
                                assert(built[j] == d);
                                assert(kept_pages(pages@.take(k + 1))[j] == pages@[k as int]);
                            }
                        }
                    }
                    next.push(d);
                },
                None => {
                    proof {
                        assert(kept_pages(pages@.take(k + 1)) =~= kept_pre);
                    }
                },
            }
            k = k + 1;
        }
        self.docs = next;
        self.revision = revision;
        proof {
            assert(pages@.take(pages@.len() as int) =~= pages@);
            lemma_kept_pages_len(pages@);
            assert(self.docs@ == built);
            assert forall|kk: int| 0 <= kk < self.docs@.len() implies doc_wf(
                #[trigger] self.docs@[kk],
            ) && doc_built_from(self.docs@[kk], kept_pages(pages@)[kk]) by {
                assert(self.docs@[kk] == built[kk]);
            }
        }
    }

    /// A point-in-time, immutable view for query execution: a full copy of
    /// the committed document set, unaffected by a later rebuild.
    pub fn snapshot(&self) -> (r: Search)
        ensures
            r.docs@.len() == self.docs@.len(),
            forall|k: int|
                0 <= k < self.docs@.len() ==> doc_like(
                    #[trigger] self.docs@[k],
                    r.docs@[k],
                ),
            r.revision == self.revision,
    {
        let mut out: Vec<Doc> = Vec::new();
        let mut k: usize = 0;
        while k < self.docs.len()
            invariant
                0 <= k <= self.docs@.len(),
                out@.len() == k,
                forall|j: int| 0 <= j < k ==> doc_like(#[trigger] self.docs@[j], out@[j]),
            decreases self.docs@.len() - k,
        {
            out.push(clone_doc(&self.docs[k]));
            k = k + 1;
        }
        Search { docs: out, revision: self.revision }
    }
}

} // verus!
