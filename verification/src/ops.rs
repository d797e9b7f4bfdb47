use vstd::prelude::*;
use crate::doc::{DocV, Document, NaviEntry};
use crate::embed::ser_page;
use crate::errors::WcError;
use crate::link::{self, Loc};
use crate::page::{lemma_backup_ne, saved_with_backup, stored_doc, Fetched, Page};
use crate::rewrite::{is_ws, ws_end};
use crate::store::Store;
use crate::text;

verus! {

/// The raw text of the page at `path`, or nothing when the file is
/// absent.
pub fn get_bytes(store: &Store, stor_root: &str, path: &str) -> (r: Option<String>)
    requires
        store.wf(),
    ensures
        (r matches Some(s) ==> store@.contains_key(stor_root@ + path@) && s@ == store@[stor_root@
            + path@]),
        (r is None ==> !store@.contains_key(stor_root@ + path@)),
{
    let fp = crate::file_path(stor_root, path);
    match store.get(fp.as_str()) {
        Some(s) => Some(s.clone()),
        None => None,
    }
}

/// What one `save_document` call does to the store: nothing on a missing
/// or corrupt file, on a revision mismatch, or on a revision that cannot
/// grow; otherwise the candidate with the advanced revision is serialized
/// and saved with its backup.
pub open spec fn save_doc_spec(m: Map<Seq<char>, Seq<char>>, fp: Seq<char>, cand: DocV) -> (
    Option<u64>,
    Map<Seq<char>, Seq<char>>,
) {
    match stored_doc(m, fp) {
        None => (None, m),
        Some(d0) => if cand.rev != d0.rev || d0.rev == u64::MAX {
            (None, m)
        } else {
            let upd = DocV { rev: (d0.rev + 1) as u64, ..cand };
            (Some((d0.rev + 1) as u64), saved_with_backup(m, fp, ser_page(upd), upd.rev))
        },
    }
}

/// After a successful save, the stored document is the updated candidate.
pub proof fn lemma_save_doc_stored(m: Map<Seq<char>, Seq<char>>, fp: Seq<char>, cand: DocV)
    requires
        (save_doc_spec(m, fp, cand).0 matches Some(n)),
    ensures
        ({
            let upd = DocV { rev: (cand.rev + 1) as u64, ..cand };
            stored_doc(save_doc_spec(m, fp, cand).1, fp) == Some(upd)
        }),
{
    let d0 = stored_doc(m, fp).unwrap();
    let upd = DocV { rev: (d0.rev + 1) as u64, ..cand };
    let m1 = m.insert(fp, ser_page(upd));
    lemma_backup_ne(fp, upd.rev);
    assert(save_doc_spec(m, fp, cand).1[fp] == ser_page(upd));
    crate::embed::lemma_page_round_trip(upd);
}

/// The save protocol at the operations boundary (spec functions above say
/// exactly what happens; see `Page::replace_document_and_save` for the
/// case-by-case story).  Returns the new revision on success.
pub fn save_document(store: &mut Store, stor_root: &str, path: &str, candidate: Document) -> (r:
    Result<u64, WcError>)
    requires
        old(store).wf(),
    ensures
        final(store).wf(),
        (match save_doc_spec(old(store)@, stor_root@ + path@, candidate@) {
            (Some(n), m2) => r == Result::<u64, WcError>::Ok(n) && final(store)@ == m2,
            (None, m2) => r is Err && final(store)@ == old(store)@,
        }),
        (match stored_doc(old(store)@, stor_root@ + path@) {
            None => r is Err && !(r matches Err(WcError::RevisionConflict)),
            Some(d0) => {
                &&& (candidate.rev != d0.rev ==> r == Result::<u64, WcError>::Err(
                    WcError::RevisionConflict,
                ))
                &&& (candidate.rev == d0.rev && d0.rev < u64::MAX ==> r == Result::<
                    u64,
                    WcError,
                >::Ok((d0.rev + 1) as u64))
            },
        }),
{
    let mut page = Page::new(stor_root, path);
    page.replace_document_and_save(store, candidate)
}

/// Iterated saves at the spec level: each element of `cands` is offered
/// in turn.
pub open spec fn save_many(
    m: Map<Seq<char>, Seq<char>>,
    fp: Seq<char>,
    cands: Seq<DocV>,
) -> Map<Seq<char>, Seq<char>>
    decreases cands.len(),
{
    if cands.len() == 0 {
        m
    } else {
        save_many(save_doc_spec(m, fp, cands[0]).1, fp, cands.drop_first())
    }
}

/// Revision monotonicity: starting from a stored document with revision
/// `d0.rev`, a run of candidate documents whose revisions match the
/// current revision at each step all succeed, and the stored revision
/// afterwards is the initial revision plus the number of saves.  (A
/// candidate with any other revision is refused without mutating the
/// store: see `save_doc_spec`.)
pub proof fn lemma_revision_monotonic(
    m: Map<Seq<char>, Seq<char>>,
    fp: Seq<char>,
    d0: DocV,
    cands: Seq<DocV>,
)
    requires
        stored_doc(m, fp) == Some(d0),
        d0.rev + cands.len() <= u64::MAX,
        forall|i: int| 0 <= i < cands.len() ==> (#[trigger] cands[i]).rev == d0.rev + i,
    ensures
        (stored_doc(save_many(m, fp, cands), fp) matches Some(dn) && dn.rev == d0.rev
            + cands.len()),
    decreases cands.len(),
{
    if cands.len() > 0 {
        let c0 = cands[0];
        assert(c0.rev == d0.rev);
        let (res, m1) = save_doc_spec(m, fp, c0);
        assert(res matches Some(n));
        lemma_save_doc_stored(m, fp, c0);
        let upd = DocV { rev: (c0.rev + 1) as u64, ..c0 };
        assert(stored_doc(m1, fp) == Some(upd));
        assert forall|i: int| 0 <= i < cands.drop_first().len() implies (#[trigger] cands.drop_first()[i]).rev
            == upd.rev + i by {
            assert(cands.drop_first()[i] == cands[i + 1]);
        }
        lemma_revision_monotonic(m1, fp, upd, cands.drop_first());
    }
}

// ------------------------------------------------------------------
// child-page creation
// ------------------------------------------------------------------

/// Index one past the last non-whitespace character.
pub open spec fn end_trim(s: Seq<char>) -> int
    decreases s.len(),
{
    if s.len() == 0 {
        0
    } else if is_ws(s.last()) {
        end_trim(s.drop_last())
    } else {
        s.len() as int
    }
}

/// The text with leading and trailing whitespace removed.
pub open spec fn trim_of(s: Seq<char>) -> Seq<char> {
    if ws_end(s, 0) >= end_trim(s) {
        Seq::empty()
    } else {
        s.subrange(ws_end(s, 0), end_trim(s))
    }
}

proof fn lemma_end_trim_bounds(s: Seq<char>)
    ensures
        0 <= end_trim(s) <= s.len(),
        end_trim(s) > 0 ==> !is_ws(s[end_trim(s) - 1]),
        forall|m: int| end_trim(s) <= m < s.len() ==> is_ws(#[trigger] s[m]),
    decreases s.len(),
{
    if s.len() > 0 && is_ws(s.last()) {
        lemma_end_trim_bounds(s.drop_last());
        assert(forall|m: int| 0 <= m < s.len() - 1 ==> s.drop_last()[m] == s[m]);
    }
}

/// Removes leading and trailing whitespace, mirroring `trim_of`.
pub fn trim(s: &str) -> (r: String)
    ensures
        r@ == trim_of(s@),
{
    let cs = text::to_chars(s);
    proof {
        lemma_end_trim_bounds(cs@);
        crate::rewrite::lemma_ws_end_bounds(cs@, 0);
    }
    assert(cs@.subrange(0, cs@.len() as int) =~= cs@);
    // right edge
    let mut b: usize = cs.len();
    while b > 0 && crate::rewrite::is_ws_char(cs[b - 1])
        invariant
            b <= cs.len(),
            end_trim(cs@) == end_trim(cs@.subrange(0, b as int)),
        decreases b,
    {
        proof {
            assert(cs@.subrange(0, b as int).last() == cs@[b - 1]);
            assert(cs@.subrange(0, b as int).drop_last() =~= cs@.subrange(0, b - 1));
        }
        b = b - 1;
    }
    proof {
        let p = cs@.subrange(0, b as int);
        if b > 0 {
            assert(p.last() == cs@[b - 1]);
            assert(!is_ws(p.last()));
            assert(end_trim(p) == b);
        } else {
            assert(p.len() == 0);
            assert(end_trim(p) == 0);
        }
    }
    // left edge
    let mut a: usize = 0;
    while a < b && crate::rewrite::is_ws_char(cs[a])
        invariant
            a <= b <= cs.len(),
            end_trim(cs@) == b,
            ws_end(cs@, 0) == ws_end(cs@, a as int),
            ws_end(cs@, 0) >= a,
        decreases b - a,
    {
        proof {
            crate::rewrite::lemma_ws_end_bounds(cs@, a + 1);
        }
        a = a + 1;
    }
    proof {
        lemma_end_trim_bounds(cs@);
        if a < b {
            assert(!is_ws(cs@[a as int]));
            assert(ws_end(cs@, a as int) == a);
        } else {
            // everything from a on is whitespace up to b == a
            if a < cs@.len() && !is_ws(cs@[a as int]) {
                assert(ws_end(cs@, a as int) == a);
            } else if a < cs@.len() {
                // a == b and cs[a] is whitespace: positions past b are all
                // whitespace, so the first non-whitespace is at or past b
                assert(forall|m: int| b <= m < cs@.len() ==> is_ws(#[trigger] cs@[m]));
                lemma_ws_end_all(cs@, a as int);
            }
        }
    }
    let mut out: Vec<char> = Vec::new();
    let mut k = a;
    while k < b
        invariant
            a <= k <= b <= cs.len(),
            out@ == cs@.subrange(a as int, k as int),
        decreases b - k,
    {
        out.push(cs[k]);
        assert(out@ =~= cs@.subrange(a as int, k + 1));
        k = k + 1;
    }
    proof {
        if a < b {
            assert(out@ =~= trim_of(cs@));
        } else {
            assert(out@ =~= Seq::<char>::empty());
            assert(ws_end(cs@, 0) >= end_trim(cs@));
        }
    }
    text::chars_to_string(&out)
}

/// From a position where everything up to the end is whitespace, the
/// first non-whitespace position is the end.
proof fn lemma_ws_end_all(s: Seq<char>, a: int)
    requires
        0 <= a <= s.len(),
        forall|m: int| a <= m < s.len() ==> is_ws(#[trigger] s[m]),
    ensures
        ws_end(s, a) == s.len(),
    decreases s.len() - a,
{
    if a < s.len() {
        lemma_ws_end_all(s, a + 1);
    }
}

/// A child page needs a real title and a real link: both are trimmed, and
/// the title must be non-empty, the link non-empty and not a bare
/// in-page fragment.
pub fn title_href_check(title: &str, href: &str) -> (r: Result<(String, String), WcError>)
    ensures
        (r matches Ok((t, h)) ==> t@ == trim_of(title@) && h@ == trim_of(href@) && t@.len() > 0
            && h@.len() > 0 && h@[0] != '#'),
        (r is Err ==> r == Result::<(String, String), WcError>::Err(WcError::InvalidInput) && (
        trim_of(title@).len() == 0 || trim_of(href@).len() == 0 || trim_of(href@)[0] == '#')),
{
    let t = trim(title);
    if t.as_str().unicode_len() == 0 {
        return Err(WcError::InvalidInput);
    }
    let h = trim(href);
    let hc = text::to_chars(h.as_str());
    if hc.len() == 0 || hc[0] == '#' {
        return Err(WcError::InvalidInput);
    }
    Ok((t, h))
}

/// How one breadcrumb link of the parent reads from the child: resolved
/// against the parent, then expressed relative to the child where
/// possible, absolute otherwise, and empty when it cannot be resolved.
pub open spec fn child_href_of(
    p_serial: Seq<char>,
    c_serial: Seq<char>,
    href: Seq<char>,
) -> Seq<char> {
    match link::join_of(p_serial, href) {
        Some(j) => match link::relative_of(c_serial, j.serial) {
            Some(r) => r,
            None => j.serial,
        },
        None => Seq::empty(),
    }
}

/// Creates a new page under the parent: a plain document carrying the
/// given title, with the parent's breadcrumb re-anchored on the child and
/// one new entry for the child itself.  The page is returned unsaved.
/// The outcome is decided case by case: a parent without a document gives
/// `NotFound` or `Corrupt`, a degenerate title or link (or one that does
/// not resolve) gives `InvalidInput`, an occupied target gives
/// `AlreadyExists`, and everything else succeeds.
pub fn page_child_new(
    parent_page: &mut Page,
    store: &Store,
    parent_url: &Loc,
    child_title: &str,
    child_href: &str,
) -> (r: Result<Page, WcError>)
    requires
        store.wf(),
    ensures
        (match crate::page::eff_doc(*old(parent_page), store@) {
            None => if crate::page::eff_source(*old(parent_page), store@) is None {
                r == Result::<Page, WcError>::Err(WcError::NotFound)
            } else {
                r == Result::<Page, WcError>::Err(WcError::Corrupt)
            },
            Some(pd) => {
                let t = trim_of(child_title@);
                let h = trim_of(child_href@);
                if t.len() == 0 || h.len() == 0 || h[0] == '#' {
                    r == Result::<Page, WcError>::Err(WcError::InvalidInput)
                } else {
                    match link::join_of(parent_url.serial@, h) {
                        None => r == Result::<Page, WcError>::Err(WcError::InvalidInput),
                        Some(c) => if store@.contains_key(
                            old(parent_page).stor_root@ + c.path,
                        ) {
                            r == Result::<Page, WcError>::Err(WcError::AlreadyExists)
                        } else {
                            r is Ok
                        },
                    }
                }
            },
        }),
        (r matches Ok(p) ==> {
            let pd = crate::page::eff_doc(*old(parent_page), store@).unwrap();
            let t = trim_of(child_title@);
            let h = trim_of(child_href@);
            match link::join_of(parent_url.serial@, h) {
                Some(c) => {
                    &&& crate::page::eff_doc(*old(parent_page), store@) is Some
                    &&& t.len() > 0 && h.len() > 0 && h[0] != '#'
                    &&& !store@.contains_key(old(parent_page).stor_root@ + c.path)
                    &&& p.stor_root@ == old(parent_page).stor_root@
                    &&& p.page_path@ == c.path
                    &&& (p.doc matches Fetched::Present(d) && d@ == DocV {
                        title: t,
                        navi: Seq::new(
                            pd.navi.len(),
                            |i: int|
                                crate::doc::NaviEntryV {
                                    title: pd.navi[i].title,
                                    href: child_href_of(
                                        parent_url.serial@,
                                        c.serial,
                                        pd.navi[i].href,
                                    ),
                                },
                        ).push(crate::doc::NaviEntryV { title: t, href: Seq::empty() }),
                        ..crate::doc::plain_doc("0.0.4"@)
                    })
                    &&& (p.source matches Fetched::Present(s) && s@ == ser_page(
                        (match p.doc {
                            Fetched::Present(d) => d@,
                            _ => arbitrary(),
                        }),
                    ))
                },
                None => false,
            }
        }),
{
    let parent_doc = match parent_page.document(store) {
        Some(d) => d,
        None => {
            let e = match parent_page.source(store) {
                None => WcError::NotFound,
                Some(_) => WcError::Corrupt,
            };
            return Err(e);
        }
    };
    let (t, h) = match title_href_check(child_title, child_href) {
        Ok(v) => v,
        Err(e) => {
            return Err(e);
        }
    };
    let child = match link::url_join(parent_url.serial.as_str(), h.as_str()) {
        Some(c) => c,
        None => {
            return Err(WcError::InvalidInput);
        }
    };
    let mut child_page = Page::new(parent_page.stor_root(), child.path.as_str());
    if child_page.source(store).is_some() {
        return Err(WcError::AlreadyExists);
    }
    let mut doc = Document::new();
    doc.title = t.clone();
    let mut navi: Vec<NaviEntry> = Vec::new();
    let mut k: usize = 0;
    while k < parent_doc.navi.len()
        invariant
            k <= parent_doc.navi.len(),
            navi@.len() == k,
            forall|i: int|
                0 <= i < k ==> (#[trigger] navi@[i])@ == (crate::doc::NaviEntryV {
                    title: parent_doc@.navi[i].title,
                    href: child_href_of(parent_url.serial@, child@.serial, parent_doc@.navi[i].href),
                }),
        decreases parent_doc.navi.len() - k,
    {
        let e = &parent_doc.navi[k];
        let href = match link::url_join(parent_url.serial.as_str(), e.href.as_str()) {
            Some(j) => {
                match link::url_make_relative(child.serial.as_str(), j.serial.as_str()) {
                    Some(rel) => rel,
                    None => j.serial,
                }
            }
            None => String::new(),
        };
        navi.push(NaviEntry { title: e.title.clone(), href });
        k = k + 1;
    }
    navi.push(NaviEntry { title: t, href: String::new() });
    doc.navi = navi;
    proof {
        let pd = crate::page::eff_doc(*old(parent_page), store@).unwrap();
        assert(doc@.navi =~= Seq::new(
            pd.navi.len(),
            |i: int|
                crate::doc::NaviEntryV {
                    title: pd.navi[i].title,
                    href: child_href_of(parent_url.serial@, child@.serial, pd.navi[i].href),
                },
        ).push(crate::doc::NaviEntryV { title: trim_of(child_title@), href: Seq::empty() }));
    }
    let p = Page::from_document(parent_page.stor_root(), child.path.as_str(), doc);
    proof {
        assert((p.doc matches Fetched::Present(d) && d@ =~= DocV {
            title: trim_of(child_title@),
            navi: (match p.doc {
                Fetched::Present(d2) => d2@.navi,
                _ => arbitrary(),
            }),
            ..crate::doc::plain_doc("0.0.4"@)
        }));
    }
    Ok(p)
}

/// Creates and saves a child page under the page at `parent_url`, with
/// its backup.  Returns the new page's path.  The outcome is decided case
/// by case, exactly as for `page_child_new`; every failure leaves the
/// store untouched.
pub fn create_child(
    store: &mut Store,
    stor_root: &str,
    parent_url: &str,
    title: &str,
    href: &str,
) -> (r: Result<String, WcError>)
    requires
        old(store).wf(),
    ensures
        final(store).wf(),
        (r is Err ==> final(store)@ == old(store)@),
        (match link::loc_of(parent_url@) {
            None => r == Result::<String, WcError>::Err(WcError::InvalidInput),
            Some(pl) => match stored_doc(old(store)@, stor_root@ + pl.path) {
                None => if old(store)@.contains_key(stor_root@ + pl.path) {
                    r == Result::<String, WcError>::Err(WcError::Corrupt)
                } else {
                    r == Result::<String, WcError>::Err(WcError::NotFound)
                },
                Some(pd) => {
                    let t = trim_of(title@);
                    let h = trim_of(href@);
                    if t.len() == 0 || h.len() == 0 || h[0] == '#' {
                        r == Result::<String, WcError>::Err(WcError::InvalidInput)
                    } else {
                        match link::join_of(pl.serial, h) {
                            None => r == Result::<String, WcError>::Err(WcError::InvalidInput),
                            Some(c) => if old(store)@.contains_key(stor_root@ + c.path) {
                                r == Result::<String, WcError>::Err(WcError::AlreadyExists)
                            } else {
                                r is Ok
                            },
                        }
                    }
                },
            },
        }),
        (r matches Ok(p) ==> !old(store)@.contains_key(stor_root@ + p@)
            && final(store)@.contains_key(stor_root@ + p@) && (stored_doc(final(store)@, stor_root@ + p@)
            matches Some(d) && d.title == trim_of(title@) && d.rev == 1 && !crate::doc::has_real_content(
            d,
        ))),
{
    proof {
        reveal_strlit("");
        assert(""@ =~= Seq::<char>::empty());
    }
    let pl = match link::url_join(parent_url, "") {
        Some(l) => l,
        None => {
            return Err(WcError::InvalidInput);
        }
    };
    let mut parent_page = Page::new(stor_root, pl.path.as_str());
    let mut child = match page_child_new(&mut parent_page, store, &pl, title, href) {
        Ok(c) => c,
        Err(e) => {
            return Err(e);
        }
    };
    let saved = child.file_save_and_rev(store);
    proof {
        assert(saved is Ok);
        let d = (match child.doc {
            Fetched::Present(ref d) => d@,
            _ => arbitrary(),
        });
        lemma_backup_ne(child.stor_root@ + child.page_path@, d.rev);
        crate::embed::lemma_page_round_trip(d);
    }
    Ok(child.page_path)
}

} // verus!
