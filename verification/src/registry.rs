//! The crate registry: loaded packages under one state value, the set of
//! locally renderable package names, and query resolution with suggestion
//! lists.

use vstd::prelude::*;

use crate::crate_discovery::{find_matching_crate_names, matches_model};
use crate::doc_loader::Document;
use crate::embeddings::Embedding;
use crate::text::str_eq;

verus! {

/// A loaded package: its name, its documents in extraction order, and the
/// embedded `(path, embedding)` pairs.
pub struct CrateEntry {
    /// The package name.
    pub name: String,
    /// Documents in extraction order.
    pub documents: Vec<Document>,
    /// Embeddings of (a subset of) the documents, by path.
    pub embeddings: Vec<(String, Embedding)>,
}

/// Some document carries this path.
pub open spec fn path_in_documents(documents: Seq<Document>, path: Seq<char>) -> bool {
    exists|u: int| 0 <= u < documents.len() && (#[trigger] documents[u]).path@ == path
}

/// Every embedded path is the path of one of the documents.
pub open spec fn embeddings_covered(
    documents: Seq<Document>,
    embeddings: Seq<(String, Embedding)>,
) -> bool {
    forall|t: int|
        0 <= t < embeddings.len() ==> path_in_documents(documents, (#[trigger] embeddings[t]).0@)
}

impl CrateEntry {
    /// Every embedded path is the path of one of the entry's documents.
    pub open spec fn wf(self) -> bool {
        embeddings_covered(self.documents@, self.embeddings@)
    }
}

/// Validate and assemble a crate entry: `Some` exactly when every embedded
/// path has a backing document.
pub fn assemble_entry(
    name: String,
    documents: Vec<Document>,
    embeddings: Vec<(String, Embedding)>,
) -> (r: Option<CrateEntry>)
    ensures
        match r {
            Some(e) => {
                &&& e.wf()
                &&& e.name == name
                &&& e.documents == documents
                &&& e.embeddings == embeddings
            },
            None => !(CrateEntry { name, documents, embeddings }).wf(),
        },
{
    let m = embeddings.len();
    let n = documents.len();
    let mut t: usize = 0;
    while t < m
        invariant
            t <= m,
            m == embeddings@.len(),
            n == documents@.len(),
            forall|x: int|
                0 <= x < t ==> path_in_documents(documents@, (#[trigger] embeddings@[x]).0@),
        decreases m - t,
    {
        let mut u: usize = 0;
        let mut found = false;
        while u < n
            invariant
                u <= n,
                t < m,
                m == embeddings@.len(),
                n == documents@.len(),
                !found ==> forall|y: int|
                    0 <= y < u ==> embeddings@[t as int].0@ != (#[trigger] documents@[y]).path@,
                found ==> path_in_documents(documents@, embeddings@[t as int].0@),
            decreases n - u,
        {
            if str_eq(embeddings[t].0.as_str(), documents[u].path.as_str()) {
                found = true;
                proof {
                    assert(documents@[u as int].path@ == embeddings@[t as int].0@);
                    assert(path_in_documents(documents@, embeddings@[t as int].0@));
                }
                u = n;
            } else {
                u = u + 1;
            }
        }
        if !found {
            proof {
                assert(!path_in_documents(documents@, embeddings@[t as int].0@)) by {
                    if path_in_documents(documents@, embeddings@[t as int].0@) {
                        let y = choose|y: int|
                            0 <= y < documents@.len() && (#[trigger] documents@[y]).path@
                                == embeddings@[t as int].0@;
                        assert(embeddings@[t as int].0@ != documents@[y].path@);
                    }
                }
                assert(!embeddings_covered(documents@, embeddings@));
            }
            return None;
        }
        t = t + 1;
    }
    proof {
        assert(embeddings_covered(documents@, embeddings@));
    }
    Some(CrateEntry { name, documents, embeddings })
}

/// The whole server state behind one lock: the loaded entries, the
/// renderable set, and the lazy-load policy.
pub struct Registry {
    /// Loaded entries, names unique.
    pub entries: Vec<CrateEntry>,
    /// Names of the locally renderable packages, in discovery order.
    pub renderable: Vec<String>,
    /// Load on first query instead of at startup.
    pub lazy_load: bool,
}

/// Resolution of a queried package name.
pub enum Resolution {
    /// The package is loaded; its entry index.
    Loaded(usize),
    /// Not loaded, but renderable under lazy loading: ingest, then retry.
    Ingest,
    /// Unknown: the loaded names, and the renderable names similar to the
    /// query.
    Unknown { available: Vec<String>, similar: Vec<String> },
}

impl Registry {
    /// Some loaded entry carries this name.
    pub open spec fn has_entry(self, name: Seq<char>) -> bool {
        exists|i: int| 0 <= i < self.entries@.len() && (#[trigger] self.entries@[i]).name@ == name
    }

    /// The renderable set holds this name.
    pub open spec fn is_renderable(self, name: Seq<char>) -> bool {
        exists|i: int|
            0 <= i < self.renderable@.len() && (#[trigger] self.renderable@[i])@ == name
    }

    /// Entry names are unique.
    pub open spec fn wf(self) -> bool {
        forall|i: int, j: int|
            0 <= i < j < self.entries@.len() ==> (#[trigger] self.entries@[i]).name@ != (
            #[trigger] self.entries@[j]).name@
    }

    /// A registry over the discovered renderable names, with no entries
    /// loaded yet.
    pub fn new(renderable: Vec<String>, lazy_load: bool) -> (r: Self)
        ensures
            r.entries@.len() == 0,
            r.renderable == renderable,
            r.lazy_load == lazy_load,
            r.wf(),
    {
        Registry { entries: Vec::new(), renderable, lazy_load }
    }

    /// The index of the entry with this name.
    fn find_entry(&self, name: &str) -> (r: Option<usize>)
        ensures
            match r {
                Some(i) => (i as int) < self.entries@.len() && self.entries@[i as int].name@
                    == name@,
                None => !self.has_entry(name@),
            },
    {
        let n = self.entries.len();
        let mut i: usize = 0;
        while i < n
            invariant
                i <= n,
                n == self.entries@.len(),
                forall|k: int| 0 <= k < i ==> (#[trigger] self.entries@[k]).name@ != name@,
            decreases n - i,
        {
            if str_eq(self.entries[i].name.as_str(), name) {
                return Some(i);
            }
            i = i + 1;
        }
        None
    }

    /// The loaded entry with this name, if any.
    pub fn get_entry(&self, name: &str) -> (r: Option<&CrateEntry>)
        ensures
            match r {
                Some(e) => self.has_entry(name@) && e.name@ == name@ && exists|i: int|
                    0 <= i < self.entries@.len() && #[trigger] self.entries@[i] == *e,
                None => !self.has_entry(name@),
            },
    {
        match self.find_entry(name) {
            Some(i) => Some(&self.entries[i]),
            None => None,
        }
    }

    /// Install an entry: replace the entry of the same name, or append one.
    pub fn insert_entry(&mut self, entry: CrateEntry)
        requires
            old(self).wf(),
        ensures
            final(self).wf(),
            final(self).has_entry(entry.name@),
            final(self).renderable == old(self).renderable,
            final(self).lazy_load == old(self).lazy_load,
            (exists|i: int|
                0 <= i < old(self).entries@.len() && (#[trigger] old(self).entries@[i]).name@
                    == entry.name@ && final(self).entries@ == old(self).entries@.update(i, entry))
                || (!old(self).has_entry(entry.name@) && final(self).entries@ == old(
                self,
            ).entries@.push(entry)),
    {
        let found = self.find_entry(entry.name.as_str());
        match found {
            Some(i) => {
                proof {
                    assert((i as int) < self.entries@.len() && self.entries@[i as int].name@
                        == entry.name@);
                }
                self.entries[i] = entry;
                proof {
                    assert(self.entries@[i as int].name@ == old(self).entries@[i as int].name@);
                    assert forall|x: int, y: int|
                        0 <= x < y < self.entries@.len() implies (#[trigger] self.entries@[x]).name@
                        != (#[trigger] self.entries@[y]).name@ by {
                        assert(self.entries@[x].name@ == old(self).entries@[x].name@);
                        assert(self.entries@[y].name@ == old(self).entries@[y].name@);
                    }
                    assert(self.entries@[i as int].name@ == entry.name@);
                }
            },
            None => {
                self.entries.push(entry);
                proof {
                    let n = self.entries@.len();
                    assert(self.entries@[n - 1] == entry);
                    assert forall|x: int, y: int|
                        0 <= x < y < self.entries@.len() implies (#[trigger] self.entries@[x]).name@
                        != (#[trigger] self.entries@[y]).name@ by {
                        if y < n - 1 {
                            assert(self.entries@[x] == old(self).entries@[x]);
                            assert(self.entries@[y] == old(self).entries@[y]);
                        } else {
                            assert(self.entries@[x] == old(self).entries@[x]);
                            assert(!old(self).has_entry(entry.name@));
                        }
                    }
                }
            },
        }
    }

    /// The names of the loaded entries, in load order.
    pub fn loaded_names(&self) -> (r: Vec<String>)
        ensures
            r@.len() == self.entries@.len(),
            forall|i: int| 0 <= i < r@.len() ==> (#[trigger] r@[i])@ == self.entries@[i].name@,
    {
        let n = self.entries.len();
        let mut out: Vec<String> = Vec::new();
        let mut i: usize = 0;
        while i < n
            invariant
                i <= n,
                n == self.entries@.len(),
                out@.len() == i,
                forall|k: int| 0 <= k < i ==> (#[trigger] out@[k])@ == self.entries@[k].name@,
            decreases n - i,
        {
            out.push(self.entries[i].name.clone());
            i = i + 1;
        }
        out
    }

    /// Resolve a queried name: the loaded entry's index; or an order to
    /// ingest it, when lazy loading is on and the name is renderable; or
    /// `Unknown`, carrying the loaded names and the renderable names
    /// similar to the query.
    pub fn resolve(&self, name: &str) -> (r: Resolution)
        ensures
            match r {
                Resolution::Loaded(i) => (i as int) < self.entries@.len()
                    && self.entries@[i as int].name@ == name@,
                Resolution::Ingest => !self.has_entry(name@) && self.lazy_load
                    && self.is_renderable(name@),
                Resolution::Unknown { available, similar } => {
                    &&& !self.has_entry(name@)
                    &&& !(self.lazy_load && self.is_renderable(name@))
                    &&& available@.len() == self.entries@.len()
                    &&& forall|i: int|
                        0 <= i < available@.len() ==> (#[trigger] available@[i])@
                            == self.entries@[i].name@
                    &&& similar@ == matches_model(self.renderable@, name@)
                },
            },
    {
        match self.find_entry(name) {
            Some(i) => Resolution::Loaded(i),
            None => {
                let mut renderable_hit = false;
                if self.lazy_load {
                    let m = self.renderable.len();
                    let mut k: usize = 0;
                    while k < m
                        invariant
                            k <= m,
                            m == self.renderable@.len(),
                            !renderable_hit ==> forall|x: int|
                                0 <= x < k ==> (#[trigger] self.renderable@[x])@ != name@,
                            renderable_hit ==> self.is_renderable(name@),
                        decreases m - k,
                    {
                        if str_eq(self.renderable[k].as_str(), name) {
                            renderable_hit = true;
                            proof {
                                assert((#[trigger] self.renderable@[k as int])@ == name@);
                            }
                            k = m;
                        } else {
                            k = k + 1;
                        }
                    }
                }
                if self.lazy_load && renderable_hit {
                    Resolution::Ingest
                } else {
                    let available = self.loaded_names();
                    let similar = find_matching_crate_names(name, &self.renderable);
                    Resolution::Unknown { available, similar }
                }
            },
        }
    }
}

} // verus!
