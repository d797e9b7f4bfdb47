use vstd::prelude::*;
use crate::doc::{DocV, Document};
use crate::embed::{self, page_doc, ser_page};
use crate::errors::WcError;
use crate::store::Store;
use crate::text::{self, dec};

verus! {

/// A lazily populated cache: not yet looked up, looked up and absent, or
/// looked up and present.
pub enum Fetched<T> {
    Unfetched,
    Missing,
    Present(T),
}

/// A file-backed page: a storage root, a path under it, and lazily
/// populated caches of the raw text and the document embedded in it.
/// Replacing the text always clears the document cache, so no stale
/// derived state can be read.
pub struct Page {
    pub stor_root: String,
    pub page_path: String,
    pub source: Fetched<String>,
    pub doc: Fetched<Document>,
    pub doc_dirty: bool,
}

/// The page's canonical file path in the store.
pub open spec fn fp_of(p: Page) -> Seq<char> {
    p.stor_root@ + p.page_path@
}

/// The text the page's next `source` call yields, given the store: the
/// cache when it was populated, the stored file otherwise.
pub open spec fn eff_source(p: Page, m: Map<Seq<char>, Seq<char>>) -> Option<Seq<char>> {
    match p.source {
        Fetched::Present(s) => Some(s@),
        Fetched::Missing => None,
        Fetched::Unfetched => if m.contains_key(fp_of(p)) {
            Some(m[fp_of(p)])
        } else {
            None
        },
    }
}

/// The document the page's next `document` call yields, given the store.
pub open spec fn eff_doc(p: Page, m: Map<Seq<char>, Seq<char>>) -> Option<DocV> {
    match p.doc {
        Fetched::Present(d) => Some(d@),
        Fetched::Missing => None,
        Fetched::Unfetched => match eff_source(p, m) {
            Some(s) => page_doc(s),
            None => None,
        },
    }
}

/// The document stored under `fp`, when the file exists and parses.
pub open spec fn stored_doc(m: Map<Seq<char>, Seq<char>>, fp: Seq<char>) -> Option<DocV> {
    if m.contains_key(fp) {
        page_doc(m[fp])
    } else {
        None
    }
}

/// The backup file path for revision `rev` of the file at `fp`.
pub open spec fn backup_path(fp: Seq<char>, rev: u64) -> Seq<char> {
    fp + seq!['.'] + dec(rev)
}

/// The backup path is longer than the file path, so the two never alias.
pub proof fn lemma_backup_ne(fp: Seq<char>, rev: u64)
    ensures
        backup_path(fp, rev) != fp,
{
    crate::text::lemma_dec_digits(rev);
    assert(backup_path(fp, rev).len() > fp.len());
}

/// What a save with backup leaves in the store: the canonical file holds
/// `text`, and the backup for `rev` holds it too unless that backup
/// already existed (a revision's backup is immutable once written).
pub open spec fn saved_with_backup(
    m: Map<Seq<char>, Seq<char>>,
    fp: Seq<char>,
    text: Seq<char>,
    rev: u64,
) -> Map<Seq<char>, Seq<char>> {
    let m1 = m.insert(fp, text);
    if m1.contains_key(backup_path(fp, rev)) {
        m1
    } else {
        m1.insert(backup_path(fp, rev), text)
    }
}

impl Page {
    /// A fresh handle on the page at `page_path` under `stor_root`; valid
    /// whether or not the file exists yet.  `page_path` begins with `/`.
    pub fn new(stor_root: &str, page_path: &str) -> (p: Page)
        ensures
            p.stor_root@ == stor_root@,
            p.page_path@ == page_path@,
            p.source is Unfetched,
            p.doc is Unfetched,
            !p.doc_dirty,
    {
        Page {
            stor_root: stor_root.to_owned(),
            page_path: page_path.to_owned(),
            source: Fetched::Unfetched,
            doc: Fetched::Unfetched,
            doc_dirty: false,
        }
    }

    /// A page whose text is derived from the given document by
    /// re-serialization; nothing is saved yet.
    pub fn from_document(stor_root: &str, page_path: &str, d: Document) -> (p: Page)
        ensures
            p.stor_root@ == stor_root@,
            p.page_path@ == page_path@,
            (p.source matches Fetched::Present(s) && s@ == ser_page(d@)),
            (p.doc matches Fetched::Present(pd) && pd == d),
            !p.doc_dirty,
    {
        let src = embed::source_from_document(&d);
        Page {
            stor_root: stor_root.to_owned(),
            page_path: page_path.to_owned(),
            source: Fetched::Present(src),
            doc: Fetched::Present(d),
            doc_dirty: false,
        }
    }

    pub fn stor_root(&self) -> (r: &str)
        ensures
            r@ == self.stor_root@,
    {
        self.stor_root.as_str()
    }

    pub fn page_path(&self) -> (r: &str)
        ensures
            r@ == self.page_path@,
    {
        self.page_path.as_str()
    }

    /// The canonical file path: root and page path joined.
    pub fn file_path(&self) -> (r: String)
        ensures
            r@ == fp_of(*self),
    {
        crate::file_path(self.stor_root.as_str(), self.page_path.as_str())
    }

    /// Whether the page path has the shape of a backup file (it ends in a
    /// dot followed by digits); such paths are never edited or moved.
    pub fn is_end_with_rev(&self) -> (r: bool)
        ensures
            r == text::ends_dot_digits(self.page_path@),
    {
        let cs = text::to_chars(self.page_path.as_str());
        text::is_backup_shaped(&cs)
    }

    /// The backup file path that revision `rev` of this page uses.
    pub fn path_rev_form(&self, rev: u64) -> (r: String)
        ensures
            r@ == backup_path(fp_of(*self), rev),
    {
        let mut out = text::to_chars(self.file_path().as_str());
        out.push('.');
        text::push_dec(&mut out, rev);
        assert(out@ =~= backup_path(fp_of(*self), rev));
        text::chars_to_string(&out)
    }

    /// The page's text, fetched from the store on the first call and
    /// cached from then on.
    pub fn source(&mut self, store: &Store) -> (r: Option<String>)
        requires
            store.wf(),
        ensures
            final(self).stor_root == old(self).stor_root,
            final(self).page_path == old(self).page_path,
            final(self).doc == old(self).doc,
            final(self).doc_dirty == old(self).doc_dirty,
            (r matches Some(s) ==> eff_source(*old(self), store@) == Some(s@)
                && (final(self).source matches Fetched::Present(c) && c@ == s@)),
            (r is None ==> eff_source(*old(self), store@) is None && final(self).source
                is Missing),
            eff_source(*final(self), store@) == eff_source(*old(self), store@),
    {
        match &self.source {
            Fetched::Present(s) => {
                return Some(s.clone());
            }
            Fetched::Missing => {
                return None;
            }
            Fetched::Unfetched => {}
        }
        let fp = self.file_path();
        match store.get(fp.as_str()) {
            Some(s) => {
                let c = s.clone();
                self.source = Fetched::Present(s.clone());
                Some(c)
            }
            None => {
                self.source = Fetched::Missing;
                None
            }
        }
    }

    /// The embedded document, parsed from the text on the first call and
    /// cached from then on.  The returned value is a copy; mutate through
    /// `document_mut`.
    pub fn document(&mut self, store: &Store) -> (r: Option<Document>)
        requires
            store.wf(),
        ensures
            final(self).stor_root == old(self).stor_root,
            final(self).page_path == old(self).page_path,
            final(self).doc_dirty == old(self).doc_dirty,
            eff_source(*final(self), store@) == eff_source(*old(self), store@),
            eff_doc(*final(self), store@) == eff_doc(*old(self), store@),
            (r matches Some(d) ==> eff_doc(*old(self), store@) == Some(d@) && (final(self).doc
                matches Fetched::Present(c) && c@ == d@)),
            (r is None ==> eff_doc(*old(self), store@) is None && (eff_source(
                *old(self),
                store@,
            ) is None <==> eff_source(*final(self), store@) is None)),
    {
        match &self.doc {
            Fetched::Present(d) => {
                return Some(d.duplicate());
            }
            Fetched::Missing => {
                return None;
            }
            Fetched::Unfetched => {}
        }
        let src = match self.source(store) {
            Some(s) => s,
            None => {
                self.doc = Fetched::Missing;
                return None;
            }
        };
        match embed::document_from_source(src.as_str()) {
            Some(d) => {
                let c = d.duplicate();
                self.doc = Fetched::Present(d);
                Some(c)
            }
            None => {
                self.doc = Fetched::Missing;
                None
            }
        }
    }

    /// Mutable access to the loaded document; marks the page's document as
    /// possibly changed.  The flag is conservative: it records the access,
    /// not an actual change.
    pub fn document_mut(&mut self) -> (r: &mut Document)
        requires
            old(self).doc is Present,
        ensures
            (old(self).doc matches Fetched::Present(d) && *r == d),
            final(self).stor_root == old(self).stor_root,
            final(self).page_path == old(self).page_path,
            final(self).source == old(self).source,
            (final(self).doc matches Fetched::Present(d2) && d2 == *final(r)),
            final(self).doc_dirty,
    {
        self.doc_dirty = true;
        match &mut self.doc {
            Fetched::Present(d) => d,
            _ => {
                proof {
                    assert(false);
                }
                unreached()
            }
        }
    }

    /// The page's current revision: `NotFound` without a stored file,
    /// `Corrupt` when the file holds no well-formed document.
    pub fn rev(&mut self, store: &Store) -> (r: Result<u64, WcError>)
        requires
            store.wf(),
        ensures
            final(self).stor_root == old(self).stor_root,
            final(self).page_path == old(self).page_path,
            (r matches Ok(n) ==> eff_doc(*old(self), store@) matches Some(d) && d.rev == n),
            (eff_doc(*old(self), store@) matches Some(d) ==> r == Result::<u64, WcError>::Ok(
                d.rev,
            )),
            (r is Err ==> eff_doc(*old(self), store@) is None),
    {
        match self.document(store) {
            Some(d) => Ok(d.rev()),
            None => {
                match &self.source {
                    Fetched::Missing => Err(WcError::NotFound),
                    _ => Err(WcError::Corrupt),
                }
            }
        }
    }

    /// Writes the cached text to the canonical file; fails without a
    /// cached text, leaving the store unchanged.
    pub fn file_save(&mut self, store: &mut Store) -> (r: Result<(), WcError>)
        requires
            old(store).wf(),
        ensures
            final(store).wf(),
            *final(self) == *old(self),
            (old(self).source matches Fetched::Present(s) ==> r is Ok && final(store)@ == old(
                store,
            )@.insert(fp_of(*old(self)), s@)),
            (!(old(self).source is Present) ==> r == Result::<(), WcError>::Err(WcError::NotFound)
                && final(store)@ == old(store)@),
            final(store).size() <= old(store).size() + 1,
    {
        let fp = self.file_path();
        match &self.source {
            Fetched::Present(s) => {
                store.insert(fp.as_str(), s.clone());
                Ok(())
            }
            _ => Err(WcError::NotFound),
        }
    }

    /// Writes the backup file for the document's revision, unless that
    /// backup already exists: a revision's backup is immutable.
    pub fn file_save_rev(&mut self, store: &mut Store) -> (r: Result<(), WcError>)
        requires
            old(store).wf(),
            old(self).source is Present,
            old(self).doc is Present,
        ensures
            final(store).wf(),
            *final(self) == *old(self),
            r is Ok,
            ({
                let s = (match old(self).source {
                    Fetched::Present(s) => s@,
                    _ => Seq::empty(),
                });
                let d = (match old(self).doc {
                    Fetched::Present(d) => d,
                    _ => arbitrary(),
                });
                let bk = backup_path(fp_of(*old(self)), d.rev);
                if old(store)@.contains_key(bk) {
                    final(store)@ == old(store)@
                } else {
                    final(store)@ == old(store)@.insert(bk, s)
                }
            }),
            final(store).size() <= old(store).size() + 1,
    {
        let rev = match &self.doc {
            Fetched::Present(d) => d.rev(),
            _ => {
                proof {
                    assert(false);
                }
                unreached()
            }
        };
        let bk = self.path_rev_form(rev);
        if store.contains(bk.as_str()) {
            return Ok(());
        }
        match &self.source {
            Fetched::Present(s) => {
                store.insert(bk.as_str(), s.clone());
                Ok(())
            }
            _ => {
                proof {
                    assert(false);
                }
                unreached()
            }
        }
    }

    /// Saves the canonical file and then its backup.
    pub fn file_save_and_rev(&mut self, store: &mut Store) -> (r: Result<(), WcError>)
        requires
            old(store).wf(),
            old(self).source is Present,
            old(self).doc is Present,
        ensures
            final(store).wf(),
            *final(self) == *old(self),
            r is Ok,
            ({
                let s = (match old(self).source {
                    Fetched::Present(s) => s@,
                    _ => Seq::empty(),
                });
                let d = (match old(self).doc {
                    Fetched::Present(d) => d,
                    _ => arbitrary(),
                });
                final(store)@ == saved_with_backup(old(store)@, fp_of(*old(self)), s, d.rev)
            }),
            final(store).size() <= old(store).size() + 2,
    {
        let r1 = self.file_save(store);
        proof {
            assert(r1 is Ok);
        }
        self.file_save_rev(store)
    }

    /// True when the page's document holds content beyond the structural
    /// subsection.
    pub fn json_subsections_data_exists(&mut self, store: &Store) -> (r: bool)
        requires
            store.wf(),
        ensures
            r == (match eff_doc(*old(self), store@) {
                Some(d) => crate::doc::has_real_content(d),
                None => false,
            }),
    {
        match self.document(store) {
            Some(d) => d.subsections_data_exists(),
            None => false,
        }
    }

    /// The save protocol for edits.  The candidate document must carry the
    /// page's current revision; the revision is then advanced by one, the
    /// page text re-derived from the updated document, and the result
    /// persisted together with its backup.  Returns the new revision.
    ///
    /// Exactly one of these happens, decided by the current state:
    /// - no stored file and no cached text: `NotFound`, store unchanged;
    /// - a text that holds no document: `Corrupt`, store unchanged;
    /// - a candidate revision other than the current one:
    ///   `RevisionConflict`, store unchanged;
    /// - a current revision too large to advance: `Corrupt`, store
    ///   unchanged;
    /// - otherwise success with revision `current + 1`.
    pub fn replace_document_and_save(&mut self, store: &mut Store, candidate: Document) -> (r:
        Result<u64, WcError>)
        requires
            old(store).wf(),
        ensures
            final(store).wf(),
            final(self).stor_root == old(self).stor_root,
            final(self).page_path == old(self).page_path,
            (match eff_doc(*old(self), old(store)@) {
                Some(d0) => {
                    if candidate.rev != d0.rev {
                        r == Result::<u64, WcError>::Err(WcError::RevisionConflict)
                            && final(store)@ == old(store)@
                    } else if d0.rev == u64::MAX {
                        r == Result::<u64, WcError>::Err(WcError::Corrupt)
                            && final(store)@ == old(store)@
                    } else {
                        let upd = DocV { rev: (d0.rev + 1) as u64, ..candidate@ };
                        r == Result::<u64, WcError>::Ok((d0.rev + 1) as u64) && final(store)@
                            == saved_with_backup(
                            old(store)@,
                            fp_of(*old(self)),
                            ser_page(upd),
                            upd.rev,
                        ) && eff_doc(*final(self), final(store)@) == Some(upd)
                    }
                },
                None => r is Err && !(r matches Err(WcError::RevisionConflict)) && final(store)@
                    == old(store)@,
            }),
            final(store).size() <= old(store).size() + 2,
    {
        let cur = match self.document(store) {
            Some(d) => d,
            None => {
                let e = match &self.source {
                    Fetched::Missing => WcError::NotFound,
                    _ => WcError::Corrupt,
                };
                return Err(e);
            }
        };
        if candidate.rev() != cur.rev() {
            return Err(WcError::RevisionConflict);
        }
        let mut upd = candidate;
        if upd.rev_replace_one_up().is_err() {
            return Err(WcError::Corrupt);
        }
        let new_rev = upd.rev();
        let src = embed::source_from_document(&upd);
        self.source = Fetched::Present(src);
        self.doc = Fetched::Present(upd);
        self.doc_dirty = false;
        let saved = self.file_save_and_rev(store);
        proof {
            assert(saved is Ok);
            crate::embed::lemma_page_round_trip(DocV { rev: new_rev, ..candidate@ });
        }
        Ok(new_rev)
    }
}

} // verus!
