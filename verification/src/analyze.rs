//! The text-analysis chain applied identically at index time and query
//! time: tokenize (dictionary-segmented CJK runs, delimiter-split Latin
//! runs), lowercase, stem, fold diacritics to base ASCII, and drop oversized
//! tokens.

use vstd::prelude::*;

use crate::chars::{
    chars_of, lower_char, push_range, str_views, string_from_chars, to_lower, vec_views,
};

verus! {

/// What jieba's dictionary segmentation returns for a piece of text; a
/// function of the text alone.
pub uninterp spec fn jieba_segments(s: Seq<char>) -> Seq<Seq<char>>;

/// What the Snowball English stemmer returns for a token; a function of the
/// token alone.
pub uninterp spec fn stem_of(s: Seq<char>) -> Seq<char>;

/// Whether a character counts as alphanumeric under Unicode; a function of
/// the character alone.
pub uninterp spec fn unicode_alnum(c: char) -> bool;

/// Relies on `jieba_rs::Jieba::cut` (HMM off): dictionary segmentation of
/// the input, a pure function of the input text.
#[verifier::external_body]
fn segment_cjk(s: &str) -> (r: Vec<String>)
    ensures
        str_views(r@) == jieba_segments(s@),
{
    let jieba = jieba_rs::Jieba::new();
    jieba.cut(s, false).into_iter().map(|t| t.word.to_string()).collect()
}

/// Relies on `rust_stemmers::Stemmer::stem` with the English (Snowball)
/// algorithm: a pure function of the input token.
#[verifier::external_body]
fn stem_word(s: &str) -> (r: String)
    ensures
        r@ == stem_of(s@),
{
    rust_stemmers::Stemmer::create(rust_stemmers::Algorithm::English).stem(s).into_owned()
}

/// Relies on `char::is_alphanumeric`: a pure function of the character.
#[verifier::external_body]
fn char_alphanumeric(c: char) -> (r: bool)
    ensures
        r == unicode_alnum(c),
{
    c.is_alphanumeric()
}

/// CJK ideographs: the unified block, extension A, and the compatibility
/// block; runs of these go to the dictionary segmenter. This is a
/// deliberate subset: characters of the rarer CJK extension blocks fall
/// through to the alphanumeric word runs instead.
pub open spec fn is_cjk(c: char) -> bool {
    (0x4E00 <= c as u32 <= 0x9FFF) || (0x3400 <= c as u32 <= 0x4DBF) || (0xF900 <= c as u32
        <= 0xFAFF)
}

fn cjk(c: char) -> (r: bool)
    ensures
        r == is_cjk(c),
{
    let u = c as u32;
    (0x4E00 <= u && u <= 0x9FFF) || (0x3400 <= u && u <= 0x4DBF) || (0xF900 <= u && u <= 0xFAFF)
}

/// A non-CJK word character: alphanumeric under Unicode.
pub open spec fn is_word(c: char) -> bool {
    !is_cjk(c) && unicode_alnum(c)
}

// ---- diacritic folding ----

/// Folds one character: Latin letters with diacritics (either case) fold to
/// their base ASCII lowercase form, ligatures to two letters; anything else
/// is kept as it is. The table deliberately covers the Latin-1 letters and
/// ligatures only; letters with diacritics from other blocks pass through
/// unfolded, on both the indexing and the query side alike.
pub open spec fn spec_fold_char(c: char) -> Seq<char> {
    if c == 'à' || c == 'á' || c == 'â' || c == 'ã' || c == 'ä' || c == 'å' || c == 'À' || c == 'Á'
        || c == 'Â' || c == 'Ã' || c == 'Ä' || c == 'Å' {
        seq!['a']
    } else if c == 'ç' || c == 'Ç' {
        seq!['c']
    } else if c == 'è' || c == 'é' || c == 'ê' || c == 'ë' || c == 'È' || c == 'É' || c == 'Ê' || c
        == 'Ë' {
        seq!['e']
    } else if c == 'ì' || c == 'í' || c == 'î' || c == 'ï' || c == 'Ì' || c == 'Í' || c == 'Î' || c
        == 'Ï' {
        seq!['i']
    } else if c == 'ñ' || c == 'Ñ' {
        seq!['n']
    } else if c == 'ò' || c == 'ó' || c == 'ô' || c == 'õ' || c == 'ö' || c == 'ø' || c == 'Ò' || c
        == 'Ó' || c == 'Ô' || c == 'Õ' || c == 'Ö' || c == 'Ø' {
        seq!['o']
    } else if c == 'ù' || c == 'ú' || c == 'û' || c == 'ü' || c == 'Ù' || c == 'Ú' || c == 'Û' || c
        == 'Ü' {
        seq!['u']
    } else if c == 'ý' || c == 'ÿ' || c == 'Ý' {
        seq!['y']
    } else if c == 'æ' || c == 'Æ' {
        seq!['a', 'e']
    } else if c == 'œ' || c == 'Œ' {
        seq!['o', 'e']
    } else if c == 'ß' {
        seq!['s', 's']
    } else if c == 'ð' || c == 'Ð' {
        seq!['d']
    } else if c == 'þ' || c == 'Þ' {
        seq!['t', 'h']
    } else {
        seq![c]
    }
}

fn push_folded(out: &mut Vec<char>, c: char)
    ensures
        final(out)@ == old(out)@ + spec_fold_char(c),
{
    if c == 'à' || c == 'á' || c == 'â' || c == 'ã' || c == 'ä' || c == 'å' || c == 'À' || c == 'Á'
        || c == 'Â' || c == 'Ã' || c == 'Ä' || c == 'Å' {
        out.push('a');
    } else if c == 'ç' || c == 'Ç' {
        out.push('c');
    } else if c == 'è' || c == 'é' || c == 'ê' || c == 'ë' || c == 'È' || c == 'É' || c == 'Ê' || c
        == 'Ë' {
        out.push('e');
    } else if c == 'ì' || c == 'í' || c == 'î' || c == 'ï' || c == 'Ì' || c == 'Í' || c == 'Î' || c
        == 'Ï' {
        out.push('i');
    } else if c == 'ñ' || c == 'Ñ' {
        out.push('n');
    } else if c == 'ò' || c == 'ó' || c == 'ô' || c == 'õ' || c == 'ö' || c == 'ø' || c == 'Ò' || c
        == 'Ó' || c == 'Ô' || c == 'Õ' || c == 'Ö' || c == 'Ø' {
        out.push('o');
    } else if c == 'ù' || c == 'ú' || c == 'û' || c == 'ü' || c == 'Ù' || c == 'Ú' || c == 'Û' || c
        == 'Ü' {
        out.push('u');
    } else if c == 'ý' || c == 'ÿ' || c == 'Ý' {
        out.push('y');
    } else if c == 'æ' || c == 'Æ' {
        out.push('a');
        out.push('e');
    } else if c == 'œ' || c == 'Œ' {
        out.push('o');
        out.push('e');
    } else if c == 'ß' {
        out.push('s');
        out.push('s');
    } else if c == 'ð' || c == 'Ð' {
        out.push('d');
    } else if c == 'þ' || c == 'Þ' {
        out.push('t');
        out.push('h');
    } else {
        out.push(c);
    }
    proof {
        assert(out@ =~= old(out)@ + spec_fold_char(c));
    }
}

/// Folds a whole token.
pub open spec fn spec_fold(t: Seq<char>) -> Seq<char>
    decreases t.len(),
{
    if t.len() == 0 {
        Seq::<char>::empty()
    } else {
        spec_fold(t.drop_last()) + spec_fold_char(t.last())
    }
}

fn fold_chars(t: &Vec<char>) -> (r: Vec<char>)
    ensures
        r@ == spec_fold(t@),
{
    let mut out: Vec<char> = Vec::new();
    let mut k: usize = 0;
    proof {
        assert(t@.take(0) =~= Seq::<char>::empty());
    }
    while k < t.len()
        invariant
            0 <= k <= t@.len(),
            out@ == spec_fold(t@.take(k as int)),
        decreases t@.len() - k,
    {
        push_folded(&mut out, t[k]);
        proof {
            assert(t@.take(k + 1).drop_last() =~= t@.take(k as int));
            assert(t@.take(k + 1).last() == t@[k as int]);
        }
        k = k + 1;
    }
    proof {
        assert(t@.take(t@.len() as int) =~= t@);
    }
    out
}

/// Lowercases ASCII letters of a token.
pub open spec fn spec_lower(t: Seq<char>) -> Seq<char> {
    t.map_values(|c: char| lower_char(c))
}

fn lower_chars(t: &Vec<char>) -> (r: Vec<char>)
    ensures
        r@ == spec_lower(t@),
{
    let mut out: Vec<char> = Vec::new();
    let mut k: usize = 0;
    while k < t.len()
        invariant
            0 <= k <= t@.len(),
            out@.len() == k,
            forall|j: int| 0 <= j < k ==> out@[j] == lower_char(t@[j]),
        decreases t@.len() - k,
    {
        out.push(to_lower(t[k]));
        k = k + 1;
    }
    proof {
        assert(out@ =~= spec_lower(t@));
    }
    out
}

/// One token through the whole normalization chain: lowercase, stem, fold.
pub open spec fn norm_token(t: Seq<char>) -> Seq<char> {
    spec_fold(stem_of(spec_lower(t)))
}

/// Whether a normalized token is kept: non-empty and at most 32 characters
/// (oversized tokens defend against base64 blobs and similar noise).
pub open spec fn token_kept(t: Seq<char>) -> bool {
    1 <= norm_token(t).len() <= 32
}

fn normalize_token(t: &Vec<char>) -> (r: Vec<char>)
    ensures
        r@ == norm_token(t@),
{
    let low = lower_chars(t);
    let stemmed = stem_word(string_from_chars(&low).as_str());
    let folded = fold_chars(&chars_of(stemmed.as_str()));
    folded
}

/// Normalizes one exact-match value (a namespace or category): the whole
/// value as a single token through lowercase, stem, fold.
pub fn normalize_exact(s: &str) -> (r: String)
    ensures
        r@ == norm_token(s@),
{
    let v = chars_of(s);
    let n = normalize_token(&v);
    string_from_chars(&n)
}

// ---- tokenization ----

/// End of the CJK run starting at `i`.
pub open spec fn cjk_run_end(s: Seq<char>, i: int) -> int
    decreases s.len() - i when 0 <= i <= s.len()
{
    if i < s.len() && is_cjk(s[i]) {
        cjk_run_end(s, i + 1)
    } else {
        i
    }
}

/// End of the non-CJK word-character run starting at `i`.
pub open spec fn word_run_end(s: Seq<char>, i: int) -> int
    decreases s.len() - i when 0 <= i <= s.len()
{
    if i < s.len() && is_word(s[i]) {
        word_run_end(s, i + 1)
    } else {
        i
    }
}

proof fn lemma_cjk_run_end(s: Seq<char>, i: int)
    requires
        0 <= i <= s.len(),
    ensures
        i <= cjk_run_end(s, i) <= s.len(),
        i < s.len() && is_cjk(s[i]) ==> cjk_run_end(s, i) > i,
    decreases s.len() - i,
{
    if i < s.len() && is_cjk(s[i]) {
        lemma_cjk_run_end(s, i + 1);
    }
}

proof fn lemma_word_run_end(s: Seq<char>, i: int)
    requires
        0 <= i <= s.len(),
    ensures
        i <= word_run_end(s, i) <= s.len(),
        i < s.len() && is_word(s[i]) ==> word_run_end(s, i) > i,
    decreases s.len() - i,
{
    if i < s.len() && is_word(s[i]) {
        lemma_word_run_end(s, i + 1);
    }
}

/// The raw token stream of the text from position `i` on: each CJK run is
/// dictionary-segmented, each word-character run is one token, everything
/// else separates tokens.
pub open spec fn spec_raw_tokens(s: Seq<char>, i: int) -> Seq<Seq<char>>
    decreases s.len() - i when 0 <= i <= s.len() via spec_raw_tokens_dec
{
    if i >= s.len() {
        Seq::<Seq<char>>::empty()
    } else if is_cjk(s[i]) {
        jieba_segments(s.subrange(i, cjk_run_end(s, i))) + spec_raw_tokens(s, cjk_run_end(s, i))
    } else if is_word(s[i]) {
        seq![s.subrange(i, word_run_end(s, i))] + spec_raw_tokens(s, word_run_end(s, i))
    } else {
        spec_raw_tokens(s, i + 1)
    }
}

#[via_fn]
proof fn spec_raw_tokens_dec(s: Seq<char>, i: int) {
    if 0 <= i < s.len() {
        if is_cjk(s[i]) {
            lemma_cjk_run_end(s, i);
        } else if is_word(s[i]) {
            lemma_word_run_end(s, i);
        }
    }
}

/// The raw tokens, each through the normalization chain, oversized and
/// emptied tokens dropped.
pub open spec fn spec_norm_tokens(ts: Seq<Seq<char>>) -> Seq<Seq<char>>
    decreases ts.len(),
{
    if ts.len() == 0 {
        Seq::<Seq<char>>::empty()
    } else {
        spec_norm_tokens(ts.drop_last()) + (if token_kept(ts.last()) {
            seq![norm_token(ts.last())]
        } else {
            Seq::<Seq<char>>::empty()
        })
    }
}

/// Every token the analysis chain keeps has between 1 and 32 characters.
pub proof fn lemma_norm_tokens_bounds(ts: Seq<Seq<char>>)
    ensures
        forall|k: int|
            0 <= k < spec_norm_tokens(ts).len() ==> 1 <= (#[trigger] spec_norm_tokens(ts)[k]).len()
                <= 32,
    decreases ts.len(),
{
    if ts.len() > 0 {
        lemma_norm_tokens_bounds(ts.drop_last());
        let r = spec_norm_tokens(ts);
        let pre = spec_norm_tokens(ts.drop_last());
        assert forall|k: int| 0 <= k < r.len() implies 1 <= (#[trigger] r[k]).len() <= 32 by {
            if k < pre.len() {
                assert(r[k] == pre[k]);
            } else {
                assert(token_kept(ts.last()));
                assert(r[k] == norm_token(ts.last()));
            }
        }
    }
}

/// The analysis chain applied to a whole text.
pub open spec fn spec_analyze(s: Seq<char>) -> Seq<Seq<char>> {
    spec_norm_tokens(spec_raw_tokens(s, 0))
}

fn cjk_end(v: &Vec<char>, i: usize) -> (r: usize)
    requires
        i <= v@.len(),
    ensures
        r == cjk_run_end(v@, i as int),
        i <= r <= v@.len(),
        i < v@.len() && is_cjk(v@[i as int]) ==> r > i,
{
    proof {
        lemma_cjk_run_end(v@, i as int);
    }
    let mut k: usize = i;
    while k < v.len() && cjk(v[k])
        invariant
            i <= k <= v@.len(),
            cjk_run_end(v@, i as int) == cjk_run_end(v@, k as int),
        decreases v@.len() - k,
    {
        k = k + 1;
    }
    k
}

fn word_end(v: &Vec<char>, i: usize) -> (r: usize)
    requires
        i <= v@.len(),
    ensures
        r == word_run_end(v@, i as int),
        i <= r <= v@.len(),
        i < v@.len() && is_word(v@[i as int]) ==> r > i,
{
    proof {
        lemma_word_run_end(v@, i as int);
    }
    let mut k: usize = i;
    while k < v.len() && !cjk(v[k]) && char_alphanumeric(v[k])
        invariant
            i <= k <= v@.len(),
            word_run_end(v@, i as int) == word_run_end(v@, k as int),
        decreases v@.len() - k,
    {
        k = k + 1;
    }
    k
}

fn raw_tokens(v: &Vec<char>) -> (r: Vec<Vec<char>>)
    ensures
        vec_views(r@) == spec_raw_tokens(v@, 0),
{
    let mut out: Vec<Vec<char>> = Vec::new();
    let mut i: usize = 0;
    proof {
        assert(vec_views(out@) + spec_raw_tokens(v@, 0) =~~= spec_raw_tokens(v@, 0));
    }
    while i < v.len()
        invariant
            0 <= i <= v@.len(),
            vec_views(out@) + spec_raw_tokens(v@, i as int) =~~= spec_raw_tokens(v@, 0),
        decreases v@.len() - i,
    {
        let c = v[i];
        if cjk(c) {
            let j = cjk_end(v, i);
            let mut run: Vec<char> = Vec::new();
            push_range(&mut run, v, i, j);
            proof {
                assert(run@ =~= v@.subrange(i as int, j as int));
            }
            let segs = segment_cjk(string_from_chars(&run).as_str());
            let ghost before = vec_views(out@);
            let mut t: usize = 0;
            proof {
                assert(before + str_views(segs@).take(0) =~~= before);
            }
            while t < segs.len()
                invariant
                    0 <= t <= segs@.len(),
                    vec_views(out@) =~~= before + str_views(segs@).take(t as int),
                decreases segs@.len() - t,
            {
                let ghost pre = vec_views(out@);
                out.push(chars_of(segs[t].as_str()));
                proof {
                    assert(vec_views(out@) =~~= pre.push(segs@[t as int]@));
                    assert(str_views(segs@).take(t + 1) =~~= str_views(segs@).take(t as int).push(
                        segs@[t as int]@,
                    ));
                    assert(vec_views(out@) =~~= before + str_views(segs@).take(t + 1));
                }
                t = t + 1;
            }
            proof {
                assert(str_views(segs@).take(segs@.len() as int) =~~= str_views(segs@));
                assert(str_views(segs@) == jieba_segments(run@));
                assert(spec_raw_tokens(v@, i as int) == jieba_segments(
                    v@.subrange(i as int, j as int),
                ) + spec_raw_tokens(v@, j as int));
                assert(vec_views(out@) + spec_raw_tokens(v@, j as int) =~~= before + (
                jieba_segments(run@) + spec_raw_tokens(v@, j as int)));
            }
            i = j;
        } else if char_alphanumeric(c) {
            let j = word_end(v, i);
            let mut run: Vec<char> = Vec::new();
            push_range(&mut run, v, i, j);
            proof {
                assert(run@ =~= v@.subrange(i as int, j as int));
                assert(spec_raw_tokens(v@, i as int) == seq![
                    v@.subrange(i as int, j as int),
                ] + spec_raw_tokens(v@, j as int));
            }
            let ghost before = vec_views(out@);
            out.push(run);
            proof {
                assert(vec_views(out@) =~~= before + seq![v@.subrange(i as int, j as int)]);
                assert(vec_views(out@) + spec_raw_tokens(v@, j as int) =~~= before + (seq![
                    v@.subrange(i as int, j as int),
                ] + spec_raw_tokens(v@, j as int)));
            }
            i = j;
        } else {
            proof {
                assert(spec_raw_tokens(v@, i as int) == spec_raw_tokens(v@, i as int + 1));
            }
            i = i + 1;
        }
    }
    proof {
        assert(spec_raw_tokens(v@, i as int) =~~= Seq::<Seq<char>>::empty());
        assert(vec_views(out@) =~~= spec_raw_tokens(v@, 0));
    }
    out
}

/// Runs the whole analysis chain over a text, yielding its searchable
/// terms in order.
pub fn analyze_text(s: &str) -> (r: Vec<String>)
    ensures
        str_views(r@) == spec_analyze(s@),
{
    let v = chars_of(s);
    let raw = raw_tokens(&v);
    let mut out: Vec<String> = Vec::new();
    let mut k: usize = 0;
    proof {
        assert(vec_views(raw@).take(0) =~~= Seq::<Seq<char>>::empty());
        assert(str_views(out@) =~~= spec_norm_tokens(vec_views(raw@).take(0)));
    }
    while k < raw.len()
        invariant
            0 <= k <= raw@.len(),
            str_views(out@) =~~= spec_norm_tokens(vec_views(raw@).take(k as int)),
        decreases raw@.len() - k,
    {
        let n = normalize_token(&raw[k]);
        let ghost before = str_views(out@);
        proof {
            assert(vec_views(raw@).take(k + 1).drop_last() =~~= vec_views(raw@).take(k as int));
            assert(vec_views(raw@).take(k + 1).last() == raw@[k as int]@);
        }
        if n.len() >= 1 && n.len() <= 32 {
            out.push(string_from_chars(&n));
            proof {
                assert(str_views(out@) =~~= before + seq![norm_token(raw@[k as int]@)]);
            }
        } else {
            proof {
                assert(str_views(out@) =~~= before + Seq::<Seq<char>>::empty());
            }
        }
        k = k + 1;
    }
    proof {
        assert(vec_views(raw@).take(raw@.len() as int) =~~= vec_views(raw@));
        assert(str_views(out@) =~~= spec_analyze(s@));
    }
    out
}

} // verus!
