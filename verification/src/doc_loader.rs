//! HTML extraction: choose which rendered files of a package to read and
//! turn each one's main content into a document. Source-view pages (any
//! path with a `src` component) are excluded, duplicate basenames keep the
//! largest file, module-level `index.html` pages below the root are
//! dropped, and text nodes are trimmed, blank ones dropped, the rest
//! joined with newlines.

use vstd::prelude::*;

use crate::text::{
    append_joined, chars_eq, chars_vec, join_line, lemma_join_line_assoc, string_from_chars,
    trim_chars, trim_spec,
};

verus! {

/// A document: a path relative to the package's documentation root, and
/// the prose extracted from the file there.
#[derive(Debug, Clone)]
pub struct Document {
    /// Path relative to the documentation root, `/`-separated.
    pub path: String,
    /// The extracted text.
    pub content: String,
}

/// Metadata of one file under the documentation root, as the directory
/// walk reports it.
#[derive(Debug, Clone)]
pub struct FileEntry {
    /// Path relative to the documentation root, `/`-separated.
    pub path: String,
    /// Size of the file in bytes.
    pub size: u64,
}

/// `p` ends with the suffix `suf`.
pub open spec fn ends_with(p: Seq<char>, suf: Seq<char>) -> bool {
    p.len() >= suf.len() && p.subrange(p.len() - suf.len(), p.len() as int) == suf
}

/// The path component starting at `a` equals `comp`: it is bounded by `/`
/// or the ends of the path on both sides.
pub open spec fn is_component_at(p: Seq<char>, comp: Seq<char>, a: int) -> bool {
    &&& 0 <= a
    &&& a + comp.len() <= p.len()
    &&& (a == 0 || p[a - 1] == '/')
    &&& (a + comp.len() == p.len() || p[a + comp.len()] == '/')
    &&& p.subrange(a, a + comp.len()) == comp
}

/// Some component of the `/`-separated path equals `comp`.
pub open spec fn has_component(p: Seq<char>, comp: Seq<char>) -> bool {
    exists|a: int| is_component_at(p, comp, a)
}

/// The final component of the path starts at `k`: everything from `k` on
/// is free of `/`, and a `/` (or the start) stands right before it.
pub open spec fn basename_at(p: Seq<char>, k: int) -> bool {
    &&& 0 <= k <= p.len()
    &&& (k == 0 || p[k - 1] == '/')
    &&& forall|i: int| k <= i < p.len() ==> p[i] != '/'
}

/// Two paths carry the same basename.
pub open spec fn same_basename(p: Seq<char>, q: Seq<char>) -> bool {
    exists|k1: int, k2: int|
        basename_at(p, k1) && basename_at(q, k2) && p.subrange(k1, p.len() as int) == q.subrange(
            k2,
            q.len() as int,
        )
}

/// The basename start is unique.
proof fn lemma_basename_at_unique(p: Seq<char>, k1: int, k2: int)
    requires
        basename_at(p, k1),
        basename_at(p, k2),
    ensures
        k1 == k2,
{
    if k1 < k2 {
        assert(p[k2 - 1] == '/');
        assert(p[k2 - 1] != '/');
    }
    if k2 < k1 {
        assert(p[k1 - 1] == '/');
        assert(p[k1 - 1] != '/');
    }
}

/// Does the path carry suffix `suf`?
fn chars_end_with(p: &Vec<char>, suf: &Vec<char>) -> (r: bool)
    ensures
        r == ends_with(p@, suf@),
{
    let n = p.len();
    let m = suf.len();
    if n < m {
        return false;
    }
    let mut i: usize = 0;
    while i < m
        invariant
            i <= m <= n,
            n == p@.len() && m == suf@.len(),
            forall|j: int| 0 <= j < i ==> p@[n - m + j] == suf@[j],
        decreases m - i,
    {
        if !(p[n - m + i] == suf[i]) {
            proof {
                assert(p@.subrange(n - m, n as int)[i as int] != suf@[i as int]);
            }
            return false;
        }
        i = i + 1;
    }
    proof {
        assert(p@.subrange(n - m, n as int) =~= suf@);
    }
    true
}

/// Does some `/`-separated component of the path equal `comp`?
fn path_has_component(p: &Vec<char>, comp: &Vec<char>) -> (r: bool)
    requires
        comp@.len() >= 1,
    ensures
        r == has_component(p@, comp@),
{
    let n = p.len();
    let m = comp.len();
    if m > n {
        proof {
            assert forall|a: int| !is_component_at(p@, comp@, a) by {}
        }
        return false;
    }
    let mut a: usize = 0;
    while a <= n - m
        invariant
            a <= n - m + 1,
            1 <= m <= n,
            n == p@.len() && m == comp@.len(),
            forall|x: int| 0 <= x < a ==> !is_component_at(p@, comp@, x),
        decreases (n - m + 1) - a,
    {
        let left_ok = a == 0 || p[a - 1] == '/';
        let right_ok = a + m == n || p[a + m] == '/';
        if left_ok && right_ok {
            let mut i: usize = 0;
            let mut matches = true;
            while i < m
                invariant
                    i <= m,
                    a + m <= n,
                    n == p@.len() && m == comp@.len(),
                    matches ==> forall|j: int| 0 <= j < i ==> p@[a + j] == comp@[j],
                    !matches ==> p@.subrange(a as int, a + m) != comp@,
                decreases m - i,
            {
                if !(p[a + i] == comp[i]) {
                    proof {
                        assert(p@.subrange(a as int, a + m)[i as int] != comp@[i as int]);
                    }
                    matches = false;
                    i = m;
                } else {
                    i = i + 1;
                }
            }
            if matches {
                proof {
                    assert(p@.subrange(a as int, a + m) =~= comp@);
                    assert(is_component_at(p@, comp@, a as int));
                }
                return true;
            }
        }
        proof {
            assert(!is_component_at(p@, comp@, a as int));
        }
        a = a + 1;
    }
    proof {
        assert forall|x: int| !is_component_at(p@, comp@, x) by {
            if 0 <= x <= n - m {
                assert(!is_component_at(p@, comp@, x));
            }
        }
    }
    false
}

/// The basename of the path: everything after the last `/`.
fn path_basename(p: &Vec<char>) -> (r: Vec<char>)
    ensures
        basename_at(p@, p@.len() - r@.len()),
        r@ == p@.subrange(p@.len() - r@.len(), p@.len() as int),
{
    let n = p.len();
    let mut k: usize = n;
    while k > 0 && !(p[k - 1] == '/')
        invariant
            k <= n,
            n == p@.len(),
            forall|i: int| k <= i < n ==> p@[i] != '/',
        decreases k,
    {
        k = k - 1;
    }
    let mut r: Vec<char> = Vec::new();
    let mut i: usize = k;
    while i < n
        invariant
            k <= i <= n,
            n == p@.len(),
            r@ == p@.subrange(k as int, i as int),
        decreases n - i,
    {
        r.push(p[i]);
        assert(r@ == p@.subrange(k as int, i + 1));
        i = i + 1;
    }
    proof {
        assert(basename_at(p@, k as int));
    }
    r
}

/// With the basename starts of both paths known, sharing a basename is the
/// same as those suffixes being equal.
proof fn lemma_same_basename_iff(p: Seq<char>, k1: int, q: Seq<char>, k2: int)
    requires
        basename_at(p, k1),
        basename_at(q, k2),
    ensures
        same_basename(p, q) == (p.subrange(k1, p.len() as int) == q.subrange(k2, q.len() as int)),
{
    if p.subrange(k1, p.len() as int) == q.subrange(k2, q.len() as int) {
        assert(same_basename(p, q));
    }
    if same_basename(p, q) {
        let (x1, x2) = choose|x1: int, x2: int|
            basename_at(p, x1) && basename_at(q, x2) && p.subrange(x1, p.len() as int)
                == q.subrange(x2, q.len() as int);
        lemma_basename_at_unique(p, x1, k1);
        lemma_basename_at_unique(q, x2, k2);
    }
}

/// The selection policy admits a file when it is an HTML file, no path
/// component of it is `src`, and, if its basename is `index.html`, it is
/// the root landing page itself.
pub open spec fn selectable(fs: Seq<FileEntry>, i: int) -> bool {
    &&& 0 <= i < fs.len()
    &&& ends_with(fs[i].path@, ".html"@)
    &&& !has_component(fs[i].path@, "src"@)
    &&& (same_basename(fs[i].path@, "index.html"@) ==> fs[i].path@ == "index.html"@)
}

/// Among admitted files that share a basename, the one kept is the first
/// of maximal size.
pub open spec fn selected(fs: Seq<FileEntry>, i: int) -> bool {
    &&& selectable(fs, i)
    &&& forall|j: int|
        #[trigger] selectable(fs, j) && same_basename(fs[i].path@, fs[j].path@) ==> (fs[j].size
            < fs[i].size || (fs[j].size == fs[i].size && i <= j))
}

/// No two selected files share a basename, so no two carry the same path.
pub proof fn lemma_selected_unique_basename(fs: Seq<FileEntry>, i: int, j: int)
    requires
        selected(fs, i),
        selected(fs, j),
        same_basename(fs[i].path@, fs[j].path@),
    ensures
        i == j,
{
    assert(selectable(fs, j));
    assert(selectable(fs, i));
}

/// Choose the files to read: the indices of the selected entries, in
/// input order. Every returned index satisfies the selection policy (in
/// particular, no chosen path has a `src` component), and every entry the
/// policy selects is returned.
pub fn select_html_files(files: &Vec<FileEntry>) -> (r: Vec<usize>)
    ensures
        forall|t: int| 0 <= t < r@.len() ==> selected(files@, #[trigger] r@[t] as int),
        forall|t1: int, t2: int| 0 <= t1 < t2 < r@.len() ==> r@[t1] < r@[t2],
        forall|i: int|
            #[trigger] selected(files@, i) ==> exists|t: int|
                0 <= t < r@.len() && #[trigger] r@[t] as int == i,
{
    let n = files.len();
    let html_suffix = chars_vec(".html");
    let src_comp = chars_vec("src");
    let index_name = chars_vec("index.html");
    proof {
        reveal_strlit(".html");
        reveal_strlit("src");
        reveal_strlit("index.html");
        assert(src_comp@.len() == 3);
        assert(basename_at("index.html"@, 0));
    }
    let mut cands: Vec<bool> = Vec::new();
    let mut bases: Vec<Vec<char>> = Vec::new();
    let mut idx: usize = 0;
    while idx < n
        invariant
            idx <= n,
            n == files@.len(),
            cands@.len() == idx,
            bases@.len() == idx,
            src_comp@ == "src"@ && src_comp@.len() == 3,
            html_suffix@ == ".html"@,
            index_name@ == "index.html"@,
            basename_at("index.html"@, 0),
            forall|k: int| 0 <= k < idx ==> #[trigger] cands@[k] == selectable(files@, k),
            forall|k: int|
                0 <= k < idx ==> basename_at(
                    files@[k].path@,
                    files@[k].path@.len() - (#[trigger] bases@[k])@.len(),
                ) && bases@[k]@ == files@[k].path@.subrange(
                    files@[k].path@.len() - bases@[k]@.len(),
                    files@[k].path@.len() as int,
                ),
        decreases n - idx,
    {
        let path_chars = chars_vec(files[idx].path.as_str());
        let is_html = chars_end_with(&path_chars, &html_suffix);
        let has_src = path_has_component(&path_chars, &src_comp);
        let base = path_basename(&path_chars);
        let base_is_index = chars_eq(&base, &index_name);
        let path_is_index = chars_eq(&path_chars, &index_name);
        let index_ok = !base_is_index || path_is_index;
        let cand = is_html && !has_src && index_ok;
        proof {
            let p = files@[idx as int].path@;
            lemma_same_basename_iff(p, p.len() - base@.len(), "index.html"@, 0);
            assert("index.html"@.subrange(0, "index.html"@.len() as int) == "index.html"@);
            assert(cand == selectable(files@, idx as int));
        }
        cands.push(cand);
        bases.push(base);
        idx = idx + 1;
    }
    let mut r: Vec<usize> = Vec::new();
    let mut i: usize = 0;
    while i < n
        invariant
            i <= n,
            n == files@.len(),
            cands@.len() == n,
            bases@.len() == n,
            forall|k: int| 0 <= k < n ==> #[trigger] cands@[k] == selectable(files@, k),
            forall|k: int|
                0 <= k < n ==> basename_at(
                    files@[k].path@,
                    files@[k].path@.len() - (#[trigger] bases@[k])@.len(),
                ) && bases@[k]@ == files@[k].path@.subrange(
                    files@[k].path@.len() - bases@[k]@.len(),
                    files@[k].path@.len() as int,
                ),
            forall|t: int| 0 <= t < r@.len() ==> selected(files@, #[trigger] r@[t] as int),
            forall|t1: int, t2: int| 0 <= t1 < t2 < r@.len() ==> r@[t1] < r@[t2],
            forall|t: int| 0 <= t < r@.len() ==> (#[trigger] r@[t] as int) < i,
            forall|k: int|
                0 <= k < i && #[trigger] selected(files@, k) ==> exists|t: int|
                    0 <= t < r@.len() && #[trigger] r@[t] as int == k,
        decreases n - i,
    {
        if cands[i] {
            let mut j: usize = 0;
            let mut beaten = false;
            let ghost mut witness: int = 0;
            while j < n
                invariant
                    j <= n,
                    i < n,
                    n == files@.len(),
                    cands@.len() == n,
                    bases@.len() == n,
                    forall|k: int| 0 <= k < n ==> #[trigger] cands@[k] == selectable(files@, k),
                    forall|k: int|
                        0 <= k < n ==> basename_at(
                            files@[k].path@,
                            files@[k].path@.len() - (#[trigger] bases@[k])@.len(),
                        ) && bases@[k]@ == files@[k].path@.subrange(
                            files@[k].path@.len() - bases@[k]@.len(),
                            files@[k].path@.len() as int,
                        ),
                    !beaten ==> forall|x: int|
                        0 <= x < j && #[trigger] selectable(files@, x) && same_basename(
                            files@[i as int].path@,
                            files@[x].path@,
                        ) ==> (files@[x].size < files@[i as int].size || (files@[x].size
                            == files@[i as int].size && i <= x)),
                    beaten ==> selectable(files@, witness) && same_basename(
                        files@[i as int].path@,
                        files@[witness].path@,
                    ) && !(files@[witness].size < files@[i as int].size || (files@[witness].size
                        == files@[i as int].size && i <= witness)),
                decreases n - j,
            {
                if cands[j] {
                    let same = chars_eq(&bases[i], &bases[j]);
                    proof {
                        let pi = files@[i as int].path@;
                        let pj = files@[j as int].path@;
                        lemma_same_basename_iff(
                            pi,
                            pi.len() - bases@[i as int]@.len(),
                            pj,
                            pj.len() - bases@[j as int]@.len(),
                        );
                    }
                    if same {
                        let beats = files[j].size > files[i].size || (files[j].size
                            == files[i].size && j < i);
                        if beats {
                            beaten = true;
                            proof {
                                witness = j as int;
                            }
                            j = n;
                            continue ;
                        }
                    }
                }
                j = j + 1;
            }
            if !beaten {
                proof {
                    assert(selected(files@, i as int));
                }
                let ghost r_old = r@;
                r.push(i);
                proof {
                    assert forall|k: int| 0 <= k < i + 1 && #[trigger] selected(files@, k) implies
                        exists|t: int| 0 <= t < r@.len() && #[trigger] r@[t] as int == k by {
                        if k < i {
                            let t = choose|t: int|
                                0 <= t < r_old.len() && #[trigger] r_old[t] as int == k;
                            assert(r@[t] as int == k);
                        } else {
                            assert(r@[r@.len() - 1] as int == k);
                        }
                    }
                }
            } else {
                proof {
                    assert(!selected(files@, i as int));
                }
            }
        } else {
            proof {
                assert(!selected(files@, i as int));
            }
        }
        i = i + 1;
    }
    r
}

/// Name for the text nodes under the element `section#main-content.content`
/// of a parsed HTML page, in document order; `None` when the page has no
/// such element.
pub uninterp spec fn main_content_texts_of(html: Seq<char>) -> Option<Seq<Seq<char>>>;

/// Relies on scraper's `Html::parse_document`, `Selector::parse` and the
/// element text iterator: with the selector fixed, which text nodes come
/// back depends on the HTML alone.
#[verifier::external_body]
fn extract_main_texts(html: &str) -> (r: Option<Vec<String>>)
    ensures
        match r {
            Some(ts) => main_content_texts_of(html@) == Some(ts.deep_view()),
            None => main_content_texts_of(html@) is None,
        },
{
    let selector = match scraper::Selector::parse("section#main-content.content") {
        Ok(s) => s,
        Err(_) => return None,
    };
    let document = scraper::Html::parse_document(html);
    let element = document.select(&selector).next()?;
    Some(element.text().map(|s| s.to_string()).collect())
}

/// The prose of a page: its text nodes trimmed, blank ones dropped, the
/// rest joined with single newlines.
pub open spec fn joined_texts_spec(ts: Seq<Seq<char>>) -> Seq<char>
    decreases ts.len(),
{
    if ts.len() == 0 {
        Seq::empty()
    } else {
        join_line(trim_spec(ts[0]), joined_texts_spec(ts.drop_first()))
    }
}

/// Join the trimmed, nonblank text nodes with newlines.
fn join_texts(texts: &Vec<String>) -> (r: Vec<char>)
    ensures
        r@ == joined_texts_spec(texts.deep_view()),
{
    let n = texts.len();
    let mut out: Vec<char> = Vec::new();
    let mut i: usize = 0;
    proof {
        assert(texts.deep_view().subrange(0, n as int) == texts.deep_view());
        assert(texts.deep_view().len() == n);
    }
    while i < n
        invariant
            i <= n,
            n == texts@.len(),
            texts.deep_view().len() == n,
            joined_texts_spec(texts.deep_view()) == join_line(
                out@,
                joined_texts_spec(texts.deep_view().subrange(i as int, n as int)),
            ),
        decreases n - i,
    {
        let cs = chars_vec(texts[i].as_str());
        let t = trim_chars(&cs);
        proof {
            let dv = texts.deep_view();
            let rem = dv.subrange(i as int, n as int);
            assert(rem[0] == dv[i as int]);
            assert(dv[i as int] == texts@[i as int]@);
            assert(rem.drop_first() =~= dv.subrange(i + 1, n as int));
            assert(joined_texts_spec(rem) == join_line(
                trim_spec(texts@[i as int]@),
                joined_texts_spec(dv.subrange(i + 1, n as int)),
            ));
            lemma_join_line_assoc(
                out@,
                t@,
                joined_texts_spec(dv.subrange(i + 1, n as int)),
            );
        }
        append_joined(&mut out, &t);
        i = i + 1;
    }
    proof {
        let dv = texts.deep_view();
        assert(dv.subrange(n as int, n as int) =~= Seq::<Seq<char>>::empty());
        assert(joined_texts_spec(dv.subrange(n as int, n as int)) == Seq::<char>::empty());
    }
    out
}

/// The documents extracted from a list of pages `(path, html)`: pages with
/// the main-content element and nonempty prose become documents, in input
/// order.
pub open spec fn docs_model(pages: Seq<(Seq<char>, Seq<char>)>) -> Seq<(Seq<char>, Seq<char>)>
    decreases pages.len(),
{
    if pages.len() == 0 {
        Seq::empty()
    } else {
        let rest = docs_model(pages.drop_first());
        match main_content_texts_of(pages[0].1) {
            Some(ts) => {
                if joined_texts_spec(ts).len() > 0 {
                    seq![(pages[0].0, joined_texts_spec(ts))] + rest
                } else {
                    rest
                }
            },
            None => rest,
        }
    }
}

/// The view a page list presents to the extraction model.
pub open spec fn pages_view(pages: Seq<(String, String)>) -> Seq<(Seq<char>, Seq<char>)> {
    pages.map_values(|p: (String, String)| (p.0@, p.1@))
}

/// The view a document list presents.
pub open spec fn docs_view(docs: Seq<Document>) -> Seq<(Seq<char>, Seq<char>)> {
    docs.map_values(|d: Document| (d.path@, d.content@))
}

/// Turn the chosen pages into documents: parse each page, take the text
/// under the main content element, trim and join it, and keep the pages
/// whose prose is nonempty, under their paths, in order.
pub fn extract_documents(pages: &Vec<(String, String)>) -> (r: Vec<Document>)
    ensures
        docs_view(r@) == docs_model(pages_view(pages@)),
{
    let n = pages.len();
    let mut docs: Vec<Document> = Vec::new();
    let mut i: usize = 0;
    proof {
        assert(pages_view(pages@).subrange(0, n as int) == pages_view(pages@));
        assert(docs_view(docs@) =~= Seq::<(Seq<char>, Seq<char>)>::empty());
    }
    while i < n
        invariant
            i <= n,
            n == pages@.len(),
            pages_view(pages@).len() == n,
            docs_model(pages_view(pages@)) == docs_view(docs@) + docs_model(
                pages_view(pages@).subrange(i as int, n as int),
            ),
        decreases n - i,
    {
        let ghost pv = pages_view(pages@);
        let ghost rem = pv.subrange(i as int, n as int);
        proof {
            assert(rem[0] == pv[i as int]);
            assert(pv[i as int] == (pages@[i as int].0@, pages@[i as int].1@));
            assert(rem.drop_first() =~= pv.subrange(i + 1, n as int));
        }
        match extract_main_texts(pages[i].1.as_str()) {
            Some(texts) => {
                let joined = join_texts(&texts);
                if joined.len() > 0 {
                    let content = string_from_chars(&joined);
                    let path = String::from_str(pages[i].0.as_str());
                    let ghost docs_old = docs@;
                    docs.push(Document { path, content });
                    proof {
                        assert(docs_view(docs@) =~= docs_view(docs_old) + seq![
                            (pages@[i as int].0@, joined@),
                        ]);
                        assert(docs_model(rem) == seq![(pv[i as int].0, joined@)] + docs_model(
                            rem.drop_first(),
                        ));
                        assert(docs_view(docs_old) + docs_model(rem) =~= docs_view(docs@)
                            + docs_model(pv.subrange(i + 1, n as int)));
                    }
                } else {
                    proof {
                        assert(docs_model(rem) == docs_model(rem.drop_first()));
                    }
                }
            },
            None => {
                proof {
                    assert(docs_model(rem) == docs_model(rem.drop_first()));
                }
            },
        }
        i = i + 1;
    }
    proof {
        let pv = pages_view(pages@);
        assert(pv.subrange(n as int, n as int) =~= Seq::<(Seq<char>, Seq<char>)>::empty());
        assert(docs_model(pv.subrange(n as int, n as int)) == Seq::<(Seq<char>, Seq<char>)>::empty());
    }
    docs
}

/// Every extracted document carries the path of one of its pages.
pub proof fn lemma_docs_model_paths(pages: Seq<(Seq<char>, Seq<char>)>)
    ensures
        forall|t: int|
            0 <= t < docs_model(pages).len() ==> exists|u: int|
                0 <= u < pages.len() && (#[trigger] docs_model(pages)[t]).0 == pages[u].0,
    decreases pages.len(),
{
    if pages.len() > 0 {
        lemma_docs_model_paths(pages.drop_first());
        let rest = docs_model(pages.drop_first());
        assert forall|t: int| 0 <= t < docs_model(pages).len() implies exists|u: int|
            0 <= u < pages.len() && (#[trigger] docs_model(pages)[t]).0 == pages[u].0 by {
            let d = docs_model(pages);
            match main_content_texts_of(pages[0].1) {
                Some(ts) => {
                    if joined_texts_spec(ts).len() > 0 {
                        if t == 0 {
                            assert(d[0].0 == pages[0].0);
                        } else {
                            assert(d[t] == rest[t - 1]);
                            let u = choose|u: int|
                                0 <= u < pages.drop_first().len() && rest[t - 1].0
                                    == pages.drop_first()[u].0;
                            assert(pages.drop_first()[u] == pages[u + 1]);
                        }
                    } else {
                        let u = choose|u: int|
                            0 <= u < pages.drop_first().len() && rest[t].0
                                == pages.drop_first()[u].0;
                        assert(pages.drop_first()[u] == pages[u + 1]);
                    }
                },
                None => {
                    let u = choose|u: int|
                        0 <= u < pages.drop_first().len() && rest[t].0 == pages.drop_first()[u].0;
                    assert(pages.drop_first()[u] == pages[u + 1]);
                },
            }
        }
    }
}

/// No extracted document has a `src` path component when no page does.
pub proof fn lemma_documents_no_src(pages: Seq<(Seq<char>, Seq<char>)>)
    requires
        forall|u: int| 0 <= u < pages.len() ==> !has_component((#[trigger] pages[u]).0, "src"@),
    ensures
        forall|t: int|
            0 <= t < docs_model(pages).len() ==> !has_component(
                (#[trigger] docs_model(pages)[t]).0,
                "src"@,
            ),
{
    lemma_docs_model_paths(pages);
    assert forall|t: int| 0 <= t < docs_model(pages).len() implies !has_component(
        (#[trigger] docs_model(pages)[t]).0,
        "src"@,
    ) by {
        let u = choose|u: int| 0 <= u < pages.len() && docs_model(pages)[t].0 == pages[u].0;
        assert(!has_component(pages[u].0, "src"@));
    }
}

/// Distinct page paths give distinct document paths.
pub proof fn lemma_documents_distinct_paths(pages: Seq<(Seq<char>, Seq<char>)>)
    requires
        forall|u1: int, u2: int|
            0 <= u1 < u2 < pages.len() ==> (#[trigger] pages[u1]).0 != (#[trigger] pages[u2]).0,
    ensures
        forall|t1: int, t2: int|
            0 <= t1 < t2 < docs_model(pages).len() ==> (#[trigger] docs_model(pages)[t1]).0 != (
            #[trigger] docs_model(pages)[t2]).0,
    decreases pages.len(),
{
    if pages.len() > 0 {
        let sub = pages.drop_first();
        assert forall|u1: int, u2: int| 0 <= u1 < u2 < sub.len() implies (#[trigger] sub[u1]).0 != (
        #[trigger] sub[u2]).0 by {
            assert(sub[u1] == pages[u1 + 1] && sub[u2] == pages[u2 + 1]);
        }
        lemma_documents_distinct_paths(sub);
        lemma_docs_model_paths(sub);
        let rest = docs_model(sub);
        let d = docs_model(pages);
        assert forall|t1: int, t2: int| 0 <= t1 < t2 < d.len() implies (#[trigger] d[t1]).0 != (
        #[trigger] d[t2]).0 by {
            match main_content_texts_of(pages[0].1) {
                Some(ts) => {
                    if joined_texts_spec(ts).len() > 0 {
                        if t1 == 0 {
                            assert(d[t2] == rest[t2 - 1]);
                            let u = choose|u: int|
                                0 <= u < sub.len() && rest[t2 - 1].0 == #[trigger] sub[u].0;
                            assert(sub[u] == pages[u + 1]);
                            assert(pages[0].0 != pages[u + 1].0);
                        } else {
                            assert(d[t1] == rest[t1 - 1] && d[t2] == rest[t2 - 1]);
                        }
                    } else {
                        assert(d[t1] == rest[t1] && d[t2] == rest[t2]);
                    }
                },
                None => {
                    assert(d[t1] == rest[t1] && d[t2] == rest[t2]);
                },
            }
        }
    }
}

/// Every path has a final component: some position is a basename start.
proof fn lemma_basename_exists(p: Seq<char>)
    ensures
        exists|k: int| #[trigger] basename_at(p, k),
    decreases p.len(),
{
    if p.len() == 0 {
        assert(basename_at(p, 0));
    } else if p.last() == '/' {
        assert(basename_at(p, p.len() as int));
    } else {
        let sub = p.drop_last();
        lemma_basename_exists(sub);
        let k = choose|k: int| #[trigger] basename_at(sub, k);
        assert forall|i: int| k <= i < p.len() implies p[i] != '/' by {
            if i < p.len() - 1 {
                assert(sub[i] == p[i]);
            }
        }
        if k > 0 {
            assert(p[k - 1] == sub[k - 1]);
        }
        assert(basename_at(p, k));
    }
}

/// Equal paths share their basename.
proof fn lemma_equal_paths_same_basename(p: Seq<char>, q: Seq<char>)
    requires
        p == q,
    ensures
        same_basename(p, q),
{
    lemma_basename_exists(p);
    let k = choose|k: int| #[trigger] basename_at(p, k);
    assert(basename_at(q, k));
    assert(p.subrange(k, p.len() as int) == q.subrange(k, q.len() as int));
}

/// End to end: reading the selected files and extracting their documents
/// yields documents none of which lies under a `src` component, and no
/// two of which share a path.
pub proof fn lemma_selected_documents_clean(
    files: Seq<FileEntry>,
    idxs: Seq<usize>,
    pages: Seq<(Seq<char>, Seq<char>)>,
)
    requires
        forall|t: int| 0 <= t < idxs.len() ==> selected(files, #[trigger] idxs[t] as int),
        forall|t1: int, t2: int| 0 <= t1 < t2 < idxs.len() ==> #[trigger] idxs[t1] < #[trigger] idxs[t2],
        pages.len() == idxs.len(),
        forall|t: int|
            0 <= t < pages.len() ==> (#[trigger] pages[t]).0 == files[idxs[t] as int].path@,
    ensures
        forall|t: int|
            0 <= t < docs_model(pages).len() ==> !has_component(
                (#[trigger] docs_model(pages)[t]).0,
                "src"@,
            ),
        forall|t1: int, t2: int|
            0 <= t1 < t2 < docs_model(pages).len() ==> (#[trigger] docs_model(pages)[t1]).0 != (
            #[trigger] docs_model(pages)[t2]).0,
{
    assert forall|u: int| 0 <= u < pages.len() implies !has_component(
        (#[trigger] pages[u]).0,
        "src"@,
    ) by {
        assert(selected(files, idxs[u] as int));
    }
    lemma_documents_no_src(pages);
    assert forall|u1: int, u2: int| 0 <= u1 < u2 < pages.len() implies (#[trigger] pages[u1]).0
        != (#[trigger] pages[u2]).0 by {
        if pages[u1].0 == pages[u2].0 {
            let i1 = idxs[u1] as int;
            let i2 = idxs[u2] as int;
            assert(selected(files, i1));
            assert(selected(files, i2));
            lemma_equal_paths_same_basename(files[i1].path@, files[i2].path@);
            lemma_selected_unique_basename(files, i1, i2);
            assert(idxs[u1] < idxs[u2]);
        }
    }
    lemma_documents_distinct_paths(pages);
}

} // verus!
