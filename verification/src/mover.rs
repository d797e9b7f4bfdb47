use vstd::prelude::*;
use crate::doc::{Document, NaviEntry, Subsection};
use crate::embed::page_doc;
use crate::errors::WcError;
use crate::link::{self, Loc};
use crate::page::Page;
use crate::rewrite;
use crate::store::Store;

verus! {

/// One staged relocation: the origin page, where it goes, and the
/// destination document built for it.
pub struct PlanEntry {
    pub org_path: String,
    pub org_serial: String,
    pub dest_serial: String,
    pub dest_path: String,
    pub dest_doc: Document,
}

/// The staged, not-yet-committed set of relocations, keyed by origin
/// path and kept in staging order: the page asked to move first, then
/// the descendants discovered under it.
pub struct Plan {
    pub entries: Vec<PlanEntry>,
}

/// No origin is staged twice.
pub open spec fn plan_paths_distinct(es: Seq<PlanEntry>) -> bool {
    forall|i: int, j: int|
        0 <= i < j < es.len() ==> (#[trigger] es[i].org_path@) != (#[trigger] es[j].org_path@)
}

/// Every parsed document in the store still has room for one more
/// revision.
pub open spec fn revs_small(m: Map<Seq<char>, Seq<char>>) -> bool {
    forall|k: Seq<char>|
        #[trigger] m.contains_key(k) ==> match page_doc(m[k]) {
            Some(d) => d.rev < u64::MAX,
            None => true,
        }
}

/// What staging guarantees of each entry: the origin file exists and
/// holds a document that is not yet moved, and the destination document
/// was built from it — unmoved, with a breadcrumb ending in its own
/// entry, carrying the origin's revision.
pub open spec fn entry_ok(e: PlanEntry, m: Map<Seq<char>, Seq<char>>, root: Seq<char>) -> bool {
    &&& m.contains_key(root + e.org_path@)
    &&& match page_doc(m[root + e.org_path@]) {
        Some(d) => {
            &&& d.moved_to.len() == 0
            &&& e.dest_doc@.moved_to.len() == 0
            &&& e.dest_doc@.navi.len() >= 1
            &&& e.dest_doc@.rev == d.rev
            &&& !e.dest_doc.may_changed
        },
        None => false,
    }
}

pub open spec fn plan_wf(es: Seq<PlanEntry>, m: Map<Seq<char>, Seq<char>>, root: Seq<char>) -> bool {
    &&& plan_paths_distinct(es)
    &&& forall|i: int| 0 <= i < es.len() ==> entry_ok(#[trigger] es[i], m, root)
}

impl Plan {
    pub fn new() -> (p: Plan)
        ensures
            p.entries@.len() == 0,
    {
        Plan { entries: Vec::new() }
    }

    /// Whether an origin path was staged already: the cycle guard.
    pub fn contains_org_path(&self, path: &str) -> (r: bool)
        ensures
            r == exists|i: int|
                0 <= i < self.entries@.len() && (#[trigger] self.entries@[i].org_path@) == path@,
    {
        let p = path.to_owned();
        let mut i: usize = 0;
        while i < self.entries.len()
            invariant
                p@ == path@,
                i <= self.entries.len(),
                forall|m: int| 0 <= m < i ==> (#[trigger] self.entries@[m].org_path@) != path@,
            decreases self.entries.len() - i,
        {
            if self.entries[i].org_path.eq(&p) {
                assert((self.entries@[i as int].org_path@) == path@);
                return true;
            }
            i = i + 1;
        }
        false
    }
}

/// Appending the full paths of distinct page paths keeps them distinct,
/// and each lies in the store's domain, so a plan can never outgrow the
/// store.
proof fn lemma_plan_size(es: Seq<PlanEntry>, m: Map<Seq<char>, Seq<char>>, root: Seq<char>)
    requires
        plan_wf(es, m, root),
        m.dom().finite(),
    ensures
        es.len() <= m.dom().len(),
{
    let keys = Seq::new(es.len(), |i: int| root + es[i].org_path@);
    assert(keys.no_duplicates()) by {
        assert forall|i: int, j: int|
            0 <= i < keys.len() && 0 <= j < keys.len() && i != j implies keys[i] != keys[j] by {
            lemma_concat_cancel(root, es[i].org_path@, es[j].org_path@);
        }
    }
    assert forall|i: int| 0 <= i < keys.len() implies m.dom().contains(#[trigger] keys[i]) by {
        assert(entry_ok(es[i], m, root));
    }
    keys.unique_seq_to_set();
    vstd::set_lib::lemma_len_subset(keys.to_set(), m.dom());
}

/// Equal concatenations with the same head have equal tails.
proof fn lemma_concat_cancel(root: Seq<char>, a: Seq<char>, b: Seq<char>)
    requires
        a != b,
    ensures
        root + a != root + b,
{
    if root + a == root + b {
        assert(a =~= b) by {
            assert((root + a).len() == (root + b).len());
            assert(a.len() == b.len());
            assert forall|k: int| 0 <= k < a.len() implies a[k] == b[k] by {
                assert((root + a)[root.len() + k] == a[k]);
                assert((root + b)[root.len() + k] == b[k]);
            }
        }
    }
}

/// One subsection as the move rewrites it: the metadata kept, the href
/// resolved and rewritten (or emptied when it cannot be resolved), and
/// every content text rewritten link by link.
pub open spec fn rewritten_sub(s: crate::doc::SubsectionV, org: link::LocV) -> crate::doc::SubsectionV {
    crate::doc::SubsectionV {
        parent: s.parent,
        id: s.id,
        title: s.title,
        href: (match link::resolve_spec(org, s.href) {
            Some(r) => r.0,
            None => Seq::empty(),
        }),
        content: Seq::new(
            s.content.len(),
            |j: int|
                crate::doc::ContentPieceV {
                    kind: s.content[j].kind,
                    value: rewrite::rewrite_spec(s.content[j].value, 0, org),
                },
        ),
        children: s.children,
    }
}

/// The breadcrumb a moved page gets: the destination parent's entries,
/// each link re-anchored as an absolute path on the parent's location,
/// then one entry for the page itself.
pub open spec fn dest_navi_of(
    parent: Option<(link::LocV, Seq<crate::doc::NaviEntryV>)>,
    title: Seq<char>,
) -> Seq<crate::doc::NaviEntryV> {
    (match parent {
        Some((pl, pnavi)) => Seq::new(
            pnavi.len(),
            |i: int|
                crate::doc::NaviEntryV {
                    title: pnavi[i].title,
                    href: (match link::join_of(pl.serial, pnavi[i].href) {
                        Some(j) => j.path,
                        None => Seq::empty(),
                    }),
                },
        ),
        None => Seq::empty(),
    }).push(crate::doc::NaviEntryV { title, href: Seq::empty() })
}

/// The whole destination document of a move: the system and page metadata
/// copied from the origin, the breadcrumb rebuilt under the new parent,
/// every subsection rewritten, and the id allocator of a fresh template.
pub open spec fn dest_doc_of(
    org: crate::doc::DocV,
    org_url: link::LocV,
    parent: Option<(link::LocV, Seq<crate::doc::NaviEntryV>)>,
) -> crate::doc::DocV {
    crate::doc::DocV {
        version: org.version,
        title: org.title,
        rev: org.rev,
        rev_speculation: org.rev_speculation,
        group_top: org.group_top,
        moved_to: org.moved_to,
        navi: dest_navi_of(parent, org.title),
        id_next: 1,
        subs: Seq::new(org.subs.len(), |i: int| rewritten_sub(org.subs[i], org_url)),
    }
}

/// The rewritten hrefs of a subsection list that point into the origin's
/// own directory, in subsection order: the links of the child pages that
/// move along with the page.
pub open spec fn child_links(subs: Seq<crate::doc::SubsectionV>, org: link::LocV) -> Seq<Seq<char>>
    decreases subs.len(),
{
    if subs.len() == 0 {
        Seq::empty()
    } else {
        let rest = child_links(subs.drop_first(), org);
        match link::resolve_spec(org, subs[0].href) {
            Some(r) => if r.1 {
                seq![r.0] + rest
            } else {
                rest
            },
            None => rest,
        }
    }
}

proof fn lemma_child_links_snoc(subs: Seq<crate::doc::SubsectionV>, s: crate::doc::SubsectionV, org: link::LocV)
    ensures
        child_links(subs.push(s), org) == child_links(subs, org) + (match link::resolve_spec(
            org,
            s.href,
        ) {
            Some(r) => if r.1 {
                seq![r.0]
            } else {
                Seq::empty()
            },
            None => Seq::empty(),
        }),
    decreases subs.len(),
{
    let tail = (match link::resolve_spec(org, s.href) {
        Some(r) => if r.1 {
            seq![r.0]
        } else {
            Seq::empty()
        },
        None => Seq::empty(),
    });
    if subs.len() == 0 {
        assert(subs.push(s).drop_first() =~= Seq::<crate::doc::SubsectionV>::empty());
        assert(subs.push(s)[0] == s);
        assert(child_links(Seq::<crate::doc::SubsectionV>::empty(), org)
            =~= Seq::<Seq<char>>::empty());
        assert(child_links(subs.push(s), org) =~= child_links(subs, org) + tail);
    } else {
        assert(subs.push(s).drop_first() =~= subs.drop_first().push(s));
        assert(subs.push(s)[0] == subs[0]);
        lemma_child_links_snoc(subs.drop_first(), s, org);
        assert(child_links(subs.push(s), org) =~= child_links(subs, org) + tail);
    }
}

/// No rewritten link flagged as a descendant means no child pages to
/// relocate.
pub proof fn lemma_child_links_empty(subs: Seq<crate::doc::SubsectionV>, org: link::LocV)
    requires
        forall|i: int|
            0 <= i < subs.len() ==> !(link::resolve_spec(org, (#[trigger] subs[i]).href)
                matches Some(r) && r.1),
    ensures
        child_links(subs, org).len() == 0,
    decreases subs.len(),
{
    if subs.len() > 0 {
        assert(forall|i: int| 0 <= i < subs.drop_first().len()
            ==> subs.drop_first()[i] == subs[i + 1]);
        lemma_child_links_empty(subs.drop_first(), org);
    }
}

/// Builds the destination document for one origin document, exactly as
/// `dest_doc_of` says.  Returns the rewritten hrefs that point into the
/// origin's own directory — `child_links` — as the children to relocate
/// in turn.
fn build_dest_doc(
    org_doc: &Document,
    org_url: &Loc,
    parent: Option<(&Loc, &Document)>,
) -> (r: (Document, Vec<String>))
    ensures
        (r.0@ == dest_doc_of(
            org_doc@,
            org_url@,
            (match parent {
                Some((pl, pd)) => Some((pl@, pd@.navi)),
                None => None,
            }),
        )),
        r.0@.moved_to == org_doc@.moved_to,
        r.0@.rev == org_doc@.rev,
        r.0@.navi.len() >= 1,
        !r.0.may_changed,
        r.1.deep_view() == child_links(org_doc@.subs, org_url@),
{
    let mut dd = Document::new();
    dd.version = org_doc.version.clone();
    dd.title = org_doc.title.clone();
    dd.rev = org_doc.rev;
    dd.rev_speculation = org_doc.rev_speculation;
    dd.group_top = org_doc.group_top;
    dd.moved_to = org_doc.moved_to.clone();
    // breadcrumb: the destination parent's entries, re-anchored on the
    // parent's own location, then one entry for this page itself
    let mut navi: Vec<NaviEntry> = Vec::new();
    match parent {
        Some((p_url, p_doc)) => {
            let mut k: usize = 0;
            while k < p_doc.navi.len()
                invariant
                    k <= p_doc.navi.len(),
                    navi@.len() == k,
                    forall|i: int|
                        0 <= i < k ==> (#[trigger] navi@[i])@ == (crate::doc::NaviEntryV {
                            title: p_doc@.navi[i].title,
                            href: (match link::join_of(p_url@.serial, p_doc@.navi[i].href) {
                                Some(j) => j.path,
                                None => Seq::empty(),
                            }),
                        }),
                decreases p_doc.navi.len() - k,
            {
                let e = &p_doc.navi[k];
                let href = match link::url_join(p_url.serial.as_str(), e.href.as_str()) {
                    Some(j) => j.path,
                    None => String::new(),
                };
                navi.push(NaviEntry { title: e.title.clone(), href });
                k = k + 1;
            }
        }
        None => {}
    }
    navi.push(NaviEntry { title: org_doc.title.clone(), href: String::new() });
    proof {
        assert(navi.deep_view() =~= dest_navi_of(
            (match parent {
                Some((pl, pd)) => Some((pl@, pd@.navi)),
                None => None,
            }),
            org_doc@.title,
        ));
    }
    dd.navi = navi;
    // subsections: copy, rewriting each href and each content text
    let mut children_href: Vec<String> = Vec::new();
    let mut subs: Vec<Subsection> = Vec::new();
    let mut i: usize = 0;
    assert(children_href.deep_view() =~= child_links(org_doc@.subs.subrange(0, 0), org_url@));
    while i < org_doc.subs.len()
        invariant
            i <= org_doc.subs.len(),
            subs@.len() == i,
            forall|m: int|
                0 <= m < i ==> (#[trigger] subs@[m])@ == rewritten_sub(
                    org_doc@.subs[m],
                    org_url@,
                ),
            children_href.deep_view() == child_links(
                org_doc@.subs.subrange(0, i as int),
                org_url@,
            ),
        decreases org_doc.subs.len() - i,
    {
        let s = &org_doc.subs[i];
        let ghost c0 = children_href.deep_view();
        let href = match link::href_move(org_url, s.href.as_str()) {
            Some((h, is_child)) => {
                if is_child {
                    children_href.push(h.clone());
                    assert(children_href.deep_view() =~= c0.push(h@));
                }
                h
            }
            None => String::new(),
        };
        proof {
            let pre = org_doc@.subs.subrange(0, i as int);
            lemma_child_links_snoc(pre, org_doc@.subs[i as int], org_url@);
            assert(pre.push(org_doc@.subs[i as int]) =~= org_doc@.subs.subrange(0, i + 1));
            assert(children_href.deep_view() =~= child_links(
                org_doc@.subs.subrange(0, i + 1),
                org_url@,
            ));
        }
        let mut content: Vec<crate::doc::ContentPiece> = Vec::new();
        let mut j: usize = 0;
        while j < s.content.len()
            invariant
                j <= s.content.len(),
                content@.len() == j,
                s == org_doc.subs[i as int],
                i < org_doc.subs.len(),
                forall|m: int|
                    0 <= m < j ==> (#[trigger] content@[m])@ == (crate::doc::ContentPieceV {
                        kind: org_doc@.subs[i as int].content[m].kind,
                        value: rewrite::rewrite_spec(
                            org_doc@.subs[i as int].content[m].value,
                            0,
                            org_url@,
                        ),
                    }),
            decreases s.content.len() - j,
        {
            let p = &s.content[j];
            content.push(
                crate::doc::ContentPiece {
                    kind: p.kind.clone(),
                    value: rewrite::rewrite_content(p.value.as_str(), org_url),
                },
            );
            j = j + 1;
        }
        let mut children: Vec<u64> = Vec::new();
        let mut c: usize = 0;
        while c < s.children.len()
            invariant
                c <= s.children.len(),
                s == org_doc.subs[i as int],
                i < org_doc.subs.len(),
                children@ == org_doc@.subs[i as int].children.subrange(0, c as int),
            decreases s.children.len() - c,
        {
            children.push(s.children[c]);
            assert(children@ =~= org_doc@.subs[i as int].children.subrange(0, c + 1));
            c = c + 1;
        }
        let sub = Subsection {
            parent: s.parent,
            id: s.id,
            title: s.title.clone(),
            href,
            content,
            children,
        };
        proof {
            assert(sub@ =~= rewritten_sub(org_doc@.subs[i as int], org_url@)) by {
                assert(sub@.children =~= org_doc@.subs[i as int].children);
                assert(sub@.content =~= rewritten_sub(org_doc@.subs[i as int], org_url@).content);
            }
        }
        subs.push(sub);
        i = i + 1;
    }
    proof {
        assert(subs.deep_view() =~= Seq::new(
            org_doc@.subs.len(),
            |m: int| rewritten_sub(org_doc@.subs[m], org_url@),
        ));
        assert(org_doc@.subs.subrange(0, org_doc@.subs.len() as int) =~= org_doc@.subs);
    }
    dd.subs = subs;
    proof {
        assert(dd@ =~= dest_doc_of(
            org_doc@,
            org_url@,
            (match parent {
                Some((pl, pd)) => Some((pl@, pd@.navi)),
                None => None,
            }),
        ));
    }
    (dd, children_href)
}

/// Whether staging would skip the child behind the rewritten link `h`:
/// its origin or destination URL does not resolve, or no parsable page
/// sits at its origin.
pub open spec fn child_skipped(
    m: Map<Seq<char>, Seq<char>>,
    root: Seq<char>,
    org: link::LocV,
    dest: link::LocV,
    h: Seq<char>,
) -> bool {
    match link::join_of(org.serial, h) {
        None => true,
        Some(co) => link::join_of(dest.serial, h) is None || crate::page::stored_doc(
            m,
            root + co.path,
        ) is None,
    }
}

/// The child behind the rewritten link `h` stands in the plan: an entry
/// whose origin is the link resolved against the origin page and whose
/// destination is the link resolved against the destination.
pub open spec fn child_staged(
    es: Seq<PlanEntry>,
    m: Map<Seq<char>, Seq<char>>,
    root: Seq<char>,
    org: link::LocV,
    dest: link::LocV,
    h: Seq<char>,
) -> bool {
    match (link::join_of(org.serial, h), link::join_of(dest.serial, h)) {
        (Some(co), Some(cd)) => crate::page::stored_doc(m, root + co.path) is Some ==> exists|
            j: int,
        |
            0 <= j < es.len() && (#[trigger] es[j]).org_path@ == co.path && es[j].dest_serial@
                == cd.serial && es[j].dest_path@ == cd.path,
        _ => true,
    }
}

/// A staged child stays staged as the plan grows.
proof fn lemma_child_staged_grow(
    es1: Seq<PlanEntry>,
    es2: Seq<PlanEntry>,
    m: Map<Seq<char>, Seq<char>>,
    root: Seq<char>,
    org: link::LocV,
    dest: link::LocV,
    h: Seq<char>,
)
    requires
        es1.is_prefix_of(es2),
        child_staged(es1, m, root, org, dest, h),
    ensures
        child_staged(es2, m, root, org, dest, h),
{
    if let (Some(co), Some(cd)) = (link::join_of(org.serial, h), link::join_of(dest.serial, h)) {
        if crate::page::stored_doc(m, root + co.path) is Some {
            let j = choose|j: int|
                0 <= j < es1.len() && (#[trigger] es1[j]).org_path@ == co.path && es1[j].dest_serial@
                    == cd.serial && es1[j].dest_path@ == cd.path;
            assert(es2[j] == es1[j]);
        }
    }
}

/// Stages the page at `org_url` for relocation to `dest_url`, then every
/// child page its rewritten links point into, depth first.  Fails with
/// `CycleDetected` when the origin was staged before, `AlreadyMoved` when
/// its document is already marked moved, and `DestinationOccupied` when
/// the destination already holds real content — each guard leaving the
/// plan untouched; a child page that cannot be loaded or parsed is
/// skipped, but a failure among the staged pages themselves aborts the
/// whole staging.  Staging succeeds at least whenever the three guards
/// pass and every child is skippable, and on success every loadable child
/// stands in the plan with the parent's destination as its parent.
#[verifier::rlimit(100)]
pub fn stage_page(
    store: &Store,
    plan: &mut Plan,
    stor_root: &str,
    org_doc: &Document,
    org_url: &Loc,
    dest_url: &Loc,
    parent: Option<(&Loc, &Document)>,
) -> (r: Result<(), WcError>)
    requires
        store.wf(),
        plan_wf(old(plan).entries@, store@, stor_root@),
        store@.contains_key(stor_root@ + org_url.path@),
        (page_doc(store@[stor_root@ + org_url.path@]) matches Some(d) && d == org_doc@),
    ensures
        plan_wf(final(plan).entries@, store@, stor_root@),
        old(plan).entries@.is_prefix_of(final(plan).entries@),
        (r is Ok ==> final(plan).entries@.len() > old(plan).entries@.len() && {
            let e = final(plan).entries@[old(plan).entries@.len() as int];
            &&& e.org_path@ == org_url.path@
            &&& e.dest_serial@ == dest_url.serial@
            &&& e.dest_path@ == dest_url.path@
            &&& e.dest_doc@ == dest_doc_of(
                org_doc@,
                org_url@,
                (match parent {
                    Some((pl, pd)) => Some((pl@, pd@.navi)),
                    None => None,
                }),
            )
        }),
        ((exists|i: int|
            0 <= i < old(plan).entries@.len() && (#[trigger] old(plan).entries@[i].org_path@)
                == org_url.path@) ==> r == Result::<(), WcError>::Err(WcError::CycleDetected)
            && final(plan).entries@ == old(plan).entries@),
        (org_doc.moved_to@.len() > 0 && !(exists|i: int|
            0 <= i < old(plan).entries@.len() && (#[trigger] old(plan).entries@[i].org_path@)
                == org_url.path@) ==> r == Result::<(), WcError>::Err(WcError::AlreadyMoved)
            && final(plan).entries@ == old(plan).entries@),
        (!(exists|i: int|
            0 <= i < old(plan).entries@.len() && (#[trigger] old(plan).entries@[i].org_path@)
                == org_url.path@) && org_doc.moved_to@.len() == 0 && (crate::page::stored_doc(
            store@,
            stor_root@ + dest_url.path@,
        ) matches Some(dd) && crate::doc::has_real_content(dd)) ==> r == Result::<
            (),
            WcError,
        >::Err(WcError::DestinationOccupied) && final(plan).entries@ == old(plan).entries@),
        (!(exists|i: int|
            0 <= i < old(plan).entries@.len() && (#[trigger] old(plan).entries@[i].org_path@)
                == org_url.path@) && org_doc.moved_to@.len() == 0 && !(crate::page::stored_doc(
            store@,
            stor_root@ + dest_url.path@,
        ) matches Some(dd) && crate::doc::has_real_content(dd)) && (forall|k: int|
            0 <= k < child_links(org_doc@.subs, org_url@).len() ==> child_skipped(
                store@,
                stor_root@,
                org_url@,
                dest_url@,
                #[trigger] child_links(org_doc@.subs, org_url@)[k],
            )) ==> r is Ok && final(plan).entries@.len() == old(plan).entries@.len() + 1),
        (r is Ok ==> forall|k: int|
            0 <= k < child_links(org_doc@.subs, org_url@).len() ==> child_staged(
                final(plan).entries@,
                store@,
                stor_root@,
                org_url@,
                dest_url@,
                #[trigger] child_links(org_doc@.subs, org_url@)[k],
            )),
    decreases store@.dom().len() - old(plan).entries@.len(),
{
    proof {
        store.lemma_dom_size();
        lemma_plan_size(plan.entries@, store@, stor_root@);
    }
    // cycle guard: an origin staged before must not be staged again
    if plan.contains_org_path(org_url.path.as_str()) {
        return Err(WcError::CycleDetected);
    }
    // a page already marked moved is not moved again
    if org_doc.moved_to.as_str().unicode_len() > 0 {
        return Err(WcError::AlreadyMoved);
    }
    // never overwrite real content at the destination
    let mut dest_page = Page::new(stor_root, dest_url.path.as_str());
    if dest_page.json_subsections_data_exists(store) {
        return Err(WcError::DestinationOccupied);
    }
    let (dd, children_href) = build_dest_doc(org_doc, org_url, parent);
    let dd_for_children = dd.duplicate();
    let entry = PlanEntry {
        org_path: org_url.path.clone(),
        org_serial: org_url.serial.clone(),
        dest_serial: dest_url.serial.clone(),
        dest_path: dest_url.path.clone(),
        dest_doc: dd,
    };
    let ghost n0 = plan.entries@.len();
    plan.entries.push(entry);
    proof {
        assert(plan_wf(plan.entries@, store@, stor_root@)) by {
            assert(forall|i: int|
                0 <= i < n0 ==> plan.entries@[i] == old(plan).entries@[i]);
            assert(entry_ok(plan.entries@[n0 as int], store@, stor_root@));
            assert forall|i: int, j: int|
                0 <= i < j < plan.entries@.len() implies (#[trigger] plan.entries@[i].org_path@)
                != (#[trigger] plan.entries@[j].org_path@) by {
                if j == n0 {
                    assert(!(exists|k: int|
                        0 <= k < n0 && (#[trigger] old(plan).entries@[k].org_path@)
                            == org_url.path@));
                    assert(old(plan).entries@[i].org_path@ != org_url.path@);
                }
            }
        }
    }
    // stage each child in turn; children that fail to load or parse are
    // skipped, but a staging failure below aborts the whole move
    let ghost links = child_links(org_doc@.subs, org_url@);
    let mut k: usize = 0;
    while k < children_href.len()
        invariant
            store.wf(),
            plan_wf(plan.entries@, store@, stor_root@),
            old(plan).entries@.is_prefix_of(plan.entries@),
            plan.entries@.len() > n0,
            n0 == old(plan).entries@.len(),
            plan.entries@[n0 as int].org_path@ == org_url.path@,
            plan.entries@[n0 as int].dest_serial@ == dest_url.serial@,
            plan.entries@[n0 as int].dest_path@ == dest_url.path@,
            plan.entries@[n0 as int].dest_doc@ == dest_doc_of(
                org_doc@,
                org_url@,
                (match parent {
                    Some((pl, pd)) => Some((pl@, pd@.navi)),
                    None => None,
                }),
            ),
            k <= children_href.len(),
            org_doc.moved_to@.len() == 0,
            links == child_links(org_doc@.subs, org_url@),
            children_href.deep_view() == links,
            !(exists|i: int|
                0 <= i < old(plan).entries@.len() && (#[trigger] old(plan).entries@[i].org_path@)
                    == org_url.path@),
            !(crate::page::stored_doc(store@, stor_root@ + dest_url.path@) matches Some(dd)
                && crate::doc::has_real_content(dd)),
            forall|m: int|
                0 <= m < k ==> #[trigger] child_staged(
                    plan.entries@,
                    store@,
                    stor_root@,
                    org_url@,
                    dest_url@,
                    links[m],
                ),
            (forall|t: int|
                0 <= t < links.len() ==> child_skipped(
                    store@,
                    stor_root@,
                    org_url@,
                    dest_url@,
                    #[trigger] links[t],
                )) ==> plan.entries@.len() == n0 + 1,
        decreases children_href.len() - k,
    {
        let ghost k0 = k as int;
        let child_href = &children_href[k];
        k = k + 1;
        proof {
            assert(links[k0] == child_href@);
        }
        let child_org = match link::url_join(org_url.serial.as_str(), child_href.as_str()) {
            Some(l) => l,
            None => {
                assert(child_staged(
                    plan.entries@,
                    store@,
                    stor_root@,
                    org_url@,
                    dest_url@,
                    links[k0],
                ));
                continue ;
            }
        };
        let child_dest = match link::url_join(dest_url.serial.as_str(), child_href.as_str()) {
            Some(l) => l,
            None => {
                assert(child_staged(
                    plan.entries@,
                    store@,
                    stor_root@,
                    org_url@,
                    dest_url@,
                    links[k0],
                ));
                continue ;
            }
        };
        let mut child_page = Page::new(stor_root, child_org.path.as_str());
        let child_doc = match child_page.document(store) {
            Some(d) => d,
            None => {
                assert(child_staged(
                    plan.entries@,
                    store@,
                    stor_root@,
                    org_url@,
                    dest_url@,
                    links[k0],
                ));
                continue ;
            }
        };
        proof {
            store.lemma_dom_size();
            lemma_plan_size(plan.entries@, store@, stor_root@);
            // this child is not skippable: its pages resolve and its origin
            // parses, so the all-skipped hypothesis cannot hold
            assert(!child_skipped(store@, stor_root@, org_url@, dest_url@, links[k0]));
        }
        let ghost pre = plan.entries@;
        let res = stage_page(
            store,
            plan,
            stor_root,
            &child_doc,
            &child_org,
            &child_dest,
            Some((dest_url, &dd_for_children)),
        );
        proof {
            assert(old(plan).entries@.is_prefix_of(pre));
            assert(pre.is_prefix_of(plan.entries@));
            assert(old(plan).entries@.is_prefix_of(plan.entries@));
            assert(plan.entries@[n0 as int] == pre[n0 as int]);
        }
        if res.is_err() {
            return res;
        }
        proof {
            assert forall|m: int| 0 <= m < k implies #[trigger] child_staged(
                plan.entries@,
                store@,
                stor_root@,
                org_url@,
                dest_url@,
                links[m],
            ) by {
                if m < k0 {
                    lemma_child_staged_grow(
                        pre,
                        plan.entries@,
                        store@,
                        stor_root@,
                        org_url@,
                        dest_url@,
                        links[m],
                    );
                } else {
                    let j = pre.len() as int;
                    assert(plan.entries@[j].org_path@ == child_org.path@);
                    assert(plan.entries@[j].dest_serial@ == child_dest.serial@);
                    assert(plan.entries@[j].dest_path@ == child_dest.path@);
                    assert(link::join_of(org_url.serial@, links[k0]) == Some(child_org@));
                    assert(link::join_of(dest_url.serial@, links[k0]) == Some(child_dest@));
                    assert(child_staged(
                        plan.entries@,
                        store@,
                        stor_root@,
                        org_url@,
                        dest_url@,
                        links[k0],
                    ));
                }
            }
        }
    }
    Ok(())
}

/// Commit, first phase: materialize every staged destination, with its
/// backup.  Every file in the final store either kept its old text or
/// holds the serialized form of one staged destination document, no file
/// disappears, and — as long as no destination path is backup-shaped —
/// every staged destination's file afterwards holds a staged document's
/// serialization.  With a single staged entry the outcome is exact.
fn commit_dests(store: &mut Store, stor_root: &str, plan: &Plan)
    requires
        old(store).wf(),
    ensures
        final(store).wf(),
        forall|k: Seq<char>|
            old(store)@.contains_key(k) ==> final(store)@.contains_key(k),
        forall|k: Seq<char>|
            #[trigger] final(store)@.contains_key(k) ==> (old(store)@.contains_key(k)
                && final(store)@[k] == old(store)@[k]) || (exists|i: int|
                0 <= i < plan.entries@.len() && final(store)@[k] == crate::embed::ser_page(
                    (#[trigger] plan.entries@[i]).dest_doc@,
                )),
        (plan.entries@.len() == 1 ==> final(store)@ == crate::page::saved_with_backup(
            old(store)@,
            stor_root@ + plan.entries@[0].dest_path@,
            crate::embed::ser_page(plan.entries@[0].dest_doc@),
            plan.entries@[0].dest_doc@.rev,
        )),
        ((forall|i: int|
            0 <= i < plan.entries@.len() ==> !crate::text::ends_dot_digits(
                stor_root@ + (#[trigger] plan.entries@[i]).dest_path@,
            )) ==> forall|i: int|
            0 <= i < plan.entries@.len() ==> final(store)@.contains_key(
                stor_root@ + (#[trigger] plan.entries@[i]).dest_path@,
            ) && (exists|j: int|
                0 <= j < plan.entries@.len() && final(store)@[stor_root@ + plan.entries@[i].dest_path@]
                    == crate::embed::ser_page((#[trigger] plan.entries@[j]).dest_doc@))),
{
    let mut i: usize = 0;
    while i < plan.entries.len()
        invariant
            store.wf(),
            i <= plan.entries.len(),
            forall|k: Seq<char>|
                old(store)@.contains_key(k) ==> store@.contains_key(k),
            forall|k: Seq<char>|
                #[trigger] store@.contains_key(k) ==> (old(store)@.contains_key(k) && store@[k]
                    == old(store)@[k]) || (exists|j: int|
                    0 <= j < plan.entries@.len() && store@[k] == crate::embed::ser_page(
                        (#[trigger] plan.entries@[j]).dest_doc@,
                    )),
            (plan.entries@.len() == 1 && i == 1 ==> store@ == crate::page::saved_with_backup(
                old(store)@,
                stor_root@ + plan.entries@[0].dest_path@,
                crate::embed::ser_page(plan.entries@[0].dest_doc@),
                plan.entries@[0].dest_doc@.rev,
            )),
            (plan.entries@.len() == 1 && i == 0 ==> store@ == old(store)@),
            ((forall|t: int|
                0 <= t < plan.entries@.len() ==> !crate::text::ends_dot_digits(
                    stor_root@ + (#[trigger] plan.entries@[t]).dest_path@,
                )) ==> forall|m: int|
                0 <= m < i ==> store@.contains_key(
                    stor_root@ + (#[trigger] plan.entries@[m]).dest_path@,
                ) && (exists|j: int|
                    0 <= j < plan.entries@.len() && store@[stor_root@ + plan.entries@[m].dest_path@]
                        == crate::embed::ser_page((#[trigger] plan.entries@[j]).dest_doc@))),
        decreases plan.entries.len() - i,
    {
        let e = &plan.entries[i];
        let mut dest_page = Page::from_document(
            stor_root,
            e.dest_path.as_str(),
            e.dest_doc.duplicate(),
        );
        let ghost m_pre = store@;
        let _saved = dest_page.file_save_and_rev(store);
        proof {
            let dv = plan.entries@[i as int].dest_doc@;
            let fpi = stor_root@ + plan.entries@[i as int].dest_path@;
            assert forall|k: Seq<char>| #[trigger] store@.contains_key(k) implies (
            old(store)@.contains_key(k) && store@[k] == old(store)@[k]) || (exists|j: int|
                0 <= j < plan.entries@.len() && store@[k] == crate::embed::ser_page(
                    (#[trigger] plan.entries@[j]).dest_doc@,
                )) by {
                if !(m_pre.contains_key(k) && store@[k] == m_pre[k]) {
                    assert(store@[k] == crate::embed::ser_page(dv));
                    assert(0 <= i < plan.entries@.len() && store@[k] == crate::embed::ser_page(
                        plan.entries@[i as int].dest_doc@,
                    ));
                }
            }
            if forall|t: int|
                0 <= t < plan.entries@.len() ==> !crate::text::ends_dot_digits(
                    stor_root@ + (#[trigger] plan.entries@[t]).dest_path@,
                ) {
                let bk = crate::page::backup_path(fpi, dv.rev);
                crate::text::lemma_backup_shape(fpi, dv.rev);
                assert forall|m: int| 0 <= m < i + 1 implies store@.contains_key(
                    stor_root@ + (#[trigger] plan.entries@[m]).dest_path@,
                ) && (exists|j: int|
                    0 <= j < plan.entries@.len() && store@[stor_root@ + plan.entries@[m].dest_path@]
                        == crate::embed::ser_page(
                        (#[trigger] plan.entries@[j]).dest_doc@,
                    )) by {
                    let fpm = stor_root@ + plan.entries@[m].dest_path@;
                    assert(!crate::text::ends_dot_digits(fpm));
                    assert(fpm != bk);
                    if m == i {
                        assert(store@[fpm] == crate::embed::ser_page(dv));
                    } else {
                        if fpm == fpi {
                            assert(store@[fpm] == crate::embed::ser_page(dv));
                        } else {
                            assert(store@[fpm] == m_pre[fpm]);
                        }
                    }
                }
            }
        }
        i = i + 1;
    }
}

/// The breadcrumb title an origin page gets when it is marked moved.
pub open spec fn moved_title(title: Seq<char>, dest: Seq<char>) -> Seq<char> {
    "Moved("@ + title + ") to "@ + dest
}

/// An origin document as the commit leaves it: marked moved to `dest`,
/// the last breadcrumb entry retitled, and the revision advanced by one.
pub open spec fn marked_doc(d: crate::doc::DocV, dest: Seq<char>) -> crate::doc::DocV {
    crate::doc::DocV {
        moved_to: dest,
        rev: (d.rev + 1) as u64,
        navi: d.navi.update(
            d.navi.len() - 1,
            crate::doc::NaviEntryV { title: moved_title(d.title, dest), href: d.navi.last().href },
        ),
        ..d
    }
}

/// A key the second commit phase can never write: not backup-shaped and
/// not any staged origin's file.
pub open spec fn untouched_by_phase_b(k: Seq<char>, es: Seq<PlanEntry>, root: Seq<char>) -> bool {
    !crate::text::ends_dot_digits(k) && forall|i: int|
        0 <= i < es.len() ==> k != root + (#[trigger] es[i]).org_path@
}

/// The hypotheses under which an origin's marking is pinned: its file
/// holds an unmoved document with a breadcrumb and room for one more
/// revision.
pub open spec fn origin_good(m: Map<Seq<char>, Seq<char>>, fp: Seq<char>) -> bool {
    m.contains_key(fp) && match page_doc(m[fp]) {
        Some(d) => d.moved_to.len() == 0 && d.navi.len() >= 1 && d.rev < u64::MAX,
        None => false,
    }
}

/// Commit, second phase: reload each origin's current document, retitle
/// the last breadcrumb entry, mark the page moved, and save through the
/// revision-checked path.  An origin that cannot be loaded, is already
/// marked, has no breadcrumb, or cannot advance its revision is skipped,
/// never failing the others.
///
/// The contract pins three things.  Keys that are neither an origin's
/// file nor backup-shaped are untouched.  When no origin file is
/// backup-shaped, every origin whose file held an unmoved document with a
/// breadcrumb and a small revision (`origin_good`) afterwards holds that
/// document marked (`marked_doc`).  And the same holds for the plan's
/// first entry — the page the move was asked for — under its own
/// non-backup-shaped path alone.
#[verifier::rlimit(100)]
fn commit_origins(store: &mut Store, stor_root: &str, plan: &Plan)
    requires
        old(store).wf(),
        plan_paths_distinct(plan.entries@),
        plan.entries@.len() > 0 ==> !crate::text::ends_dot_digits(
            stor_root@ + plan.entries@[0].org_path@,
        ),
    ensures
        final(store).wf(),
        forall|k: Seq<char>|
            #[trigger] untouched_by_phase_b(k, plan.entries@, stor_root@)
                ==> final(store)@.contains_key(k) == old(store)@.contains_key(k)
                && (old(store)@.contains_key(k) ==> final(store)@[k] == old(store)@[k]),
        ((forall|t: int|
            0 <= t < plan.entries@.len() ==> !crate::text::ends_dot_digits(
                stor_root@ + (#[trigger] plan.entries@[t]).org_path@,
            )) ==> forall|i: int|
            0 <= i < plan.entries@.len() && origin_good(
                old(store)@,
                stor_root@ + (#[trigger] plan.entries@[i]).org_path@,
            ) ==> {
                let fpi = stor_root@ + plan.entries@[i].org_path@;
                &&& final(store)@.contains_key(fpi)
                &&& page_doc(final(store)@[fpi]) == Some(
                    marked_doc(page_doc(old(store)@[fpi]).unwrap(), plan.entries@[i].dest_serial@),
                )
            }),
        (plan.entries@.len() > 0 && origin_good(
            old(store)@,
            stor_root@ + plan.entries@[0].org_path@,
        ) ==> {
            let fp0 = stor_root@ + plan.entries@[0].org_path@;
            &&& final(store)@.contains_key(fp0)
            &&& page_doc(final(store)@[fp0]) == Some(
                marked_doc(page_doc(old(store)@[fp0]).unwrap(), plan.entries@[0].dest_serial@),
            )
        }),
{
    let ghost all_plain = forall|t: int|
        0 <= t < plan.entries@.len() ==> !crate::text::ends_dot_digits(
            stor_root@ + (#[trigger] plan.entries@[t]).org_path@,
        );
    let mut i: usize = 0;
    while i < plan.entries.len()
        invariant
            store.wf(),
            i <= plan.entries.len(),
            plan_paths_distinct(plan.entries@),
            plan.entries@.len() > 0 ==> !crate::text::ends_dot_digits(
                stor_root@ + plan.entries@[0].org_path@,
            ),
            all_plain == (forall|t: int|
                0 <= t < plan.entries@.len() ==> !crate::text::ends_dot_digits(
                    stor_root@ + (#[trigger] plan.entries@[t]).org_path@,
                )),
            forall|k: Seq<char>|
                #[trigger] untouched_by_phase_b(k, plan.entries@, stor_root@)
                    ==> store@.contains_key(k) == old(store)@.contains_key(k)
                    && (old(store)@.contains_key(k) ==> store@[k] == old(store)@[k]),
            forall|m: int|
                i <= m < plan.entries@.len() && (m == 0 || all_plain) ==> {
                    let fpm = stor_root@ + (#[trigger] plan.entries@[m]).org_path@;
                    &&& store@.contains_key(fpm) == old(store)@.contains_key(fpm)
                    &&& (old(store)@.contains_key(fpm) ==> store@[fpm] == old(store)@[fpm])
                },
            forall|m: int|
                0 <= m < i && (m == 0 || all_plain) && origin_good(
                    old(store)@,
                    stor_root@ + (#[trigger] plan.entries@[m]).org_path@,
                ) ==> {
                    let fpm = stor_root@ + plan.entries@[m].org_path@;
                    &&& store@.contains_key(fpm)
                    &&& page_doc(store@[fpm]) == Some(
                        marked_doc(
                            page_doc(old(store)@[fpm]).unwrap(),
                            plan.entries@[m].dest_serial@,
                        ),
                    )
                },
        decreases plan.entries.len() - i,
    {
        let e = &plan.entries[i];
        let mut org_page = Page::new(stor_root, e.org_path.as_str());
        let ghost m_pre = store@;
        let ghost fpi = stor_root@ + plan.entries@[i as int].org_path@;
        let cur = match org_page.document(store) {
            Some(d) => d,
            None => {
                i = i + 1;
                continue ;
            }
        };
        let mut upd = cur.duplicate();
        if upd.mark_moved(e.dest_serial.as_str()).is_err() {
            i = i + 1;
            continue ;
        }
        if upd.navi.len() == 0 {
            i = i + 1;
            continue ;
        }
        let last = upd.navi.len() - 1;
        let mut t = String::from_str("Moved(");
        t.append(cur.title.as_str());
        t.append(") to ");
        t.append(e.dest_serial.as_str());
        proof {
            assert(t@ == moved_title(cur.title@, plan.entries@[i as int].dest_serial@));
        }
        upd.navi[last].title = t;
        proof {
            assert(upd@.navi =~= cur@.navi.update(
                cur@.navi.len() - 1,
                crate::doc::NaviEntryV {
                    title: moved_title(cur@.title, plan.entries@[i as int].dest_serial@),
                    href: cur@.navi.last().href,
                },
            ));
            assert(upd@.rev == cur@.rev);
        }
        let res = org_page.replace_document_and_save(store, upd);
        proof {
            if (i == 0 || all_plain) && origin_good(old(store)@, fpi) {
                // the current document is the stored one, the guards all
                // pass, and the save succeeds
                let d = page_doc(old(store)@[fpi]).unwrap();
                assert(cur@ == d);
                assert(res is Ok);
                let updv = upd@;
                let bk = crate::page::backup_path(fpi, (updv.rev + 1) as u64);
                crate::text::lemma_backup_shape(fpi, (updv.rev + 1) as u64);
                assert(bk != fpi);
                crate::embed::lemma_page_round_trip(
                    crate::doc::DocV { rev: (updv.rev + 1) as u64, ..updv },
                );
                assert(crate::doc::DocV { rev: (updv.rev + 1) as u64, ..updv } =~= marked_doc(
                    d,
                    plan.entries@[i as int].dest_serial@,
                ));
                assert(store@.contains_key(fpi));
                assert(page_doc(store@[fpi]) == Some(
                    marked_doc(d, plan.entries@[i as int].dest_serial@),
                ));
            }
            // whatever happened, only this origin's file and its backup
            // were written
            if res is Ok {
                let updv = upd@;
                crate::text::lemma_backup_shape(fpi, (updv.rev + 1) as u64);
                assert forall|k: Seq<char>|
                    k != fpi && k != crate::page::backup_path(fpi, (updv.rev + 1) as u64)
                        implies #[trigger] store@.contains_key(k) == m_pre.contains_key(k) && (
                    m_pre.contains_key(k) ==> store@[k] == m_pre[k]) by {}
                assert forall|m: int|
                    i + 1 <= m < plan.entries@.len() && (m == 0 || all_plain) implies {
                    let fpm = stor_root@ + (#[trigger] plan.entries@[m]).org_path@;
                    &&& store@.contains_key(fpm) == old(store)@.contains_key(fpm)
                    &&& (old(store)@.contains_key(fpm) ==> store@[fpm] == old(store)@[fpm])
                } by {
                    let fpm = stor_root@ + plan.entries@[m].org_path@;
                    lemma_concat_cancel(
                        stor_root@,
                        plan.entries@[m].org_path@,
                        plan.entries@[i as int].org_path@,
                    );
                    assert(fpm != fpi);
                    assert(!crate::text::ends_dot_digits(fpm));
                    assert(fpm != crate::page::backup_path(fpi, (updv.rev + 1) as u64)) by {
                        crate::text::lemma_backup_shape(fpi, (updv.rev + 1) as u64);
                    }
                }
                assert forall|m: int|
                    0 <= m < i && (m == 0 || all_plain) && origin_good(
                        old(store)@,
                        stor_root@ + (#[trigger] plan.entries@[m]).org_path@,
                    ) implies {
                    let fpm = stor_root@ + plan.entries@[m].org_path@;
                    &&& store@.contains_key(fpm)
                    &&& page_doc(store@[fpm]) == Some(
                        marked_doc(
                            page_doc(old(store)@[fpm]).unwrap(),
                            plan.entries@[m].dest_serial@,
                        ),
                    )
                } by {
                    let fpm = stor_root@ + plan.entries@[m].org_path@;
                    lemma_concat_cancel(
                        stor_root@,
                        plan.entries@[m].org_path@,
                        plan.entries@[i as int].org_path@,
                    );
                    assert(fpm != fpi);
                    assert(!crate::text::ends_dot_digits(fpm));
                    assert(fpm != crate::page::backup_path(fpi, (updv.rev + 1) as u64)) by {
                        crate::text::lemma_backup_shape(fpi, (updv.rev + 1) as u64);
                    }
                }
            }
        }
        i = i + 1;
    }
}

/// A path that begins with `/` and is not backup-shaped stays
/// non-backup-shaped under any root prefix.
proof fn lemma_edd_concat(root: Seq<char>, p: Seq<char>)
    requires
        p.len() >= 1,
        p[0] == '/',
        !crate::text::ends_dot_digits(p),
    ensures
        !crate::text::ends_dot_digits(root + p),
{
    let fp = root + p;
    if crate::text::ends_dot_digits(fp) {
        let k = choose|k: int|
            0 <= k < fp.len() - 1 && fp[k] == '.' && forall|m: int|
                k < m < fp.len() ==> crate::text::is_digit(#[trigger] fp[m]);
        assert(fp[root.len() as int] == p[0]);
        assert(!crate::text::is_digit('/')) by {
            assert('/' as u32 == 47);
        }
        if k < root.len() {
            assert(crate::text::is_digit(fp[root.len() as int]));
        } else {
            let k2 = k - root.len();
            assert(p[k2] == '.');
            assert(forall|m: int|
                k2 < m < p.len() ==> crate::text::is_digit(#[trigger] p[m])) by {
                assert(forall|m: int| k2 < m < p.len() ==> p[m] == fp[m + root.len()]);
            }
            assert(crate::text::ends_dot_digits(p));
        }
    }
}

/// The guard a move runs before anything is staged or written, and the
/// error it stops with: an unresolvable origin, destination or parent URL
/// is `InvalidInput`, as are an origin path that is not `/`-rooted or has
/// a backup's shape and an empty destination; a missing origin file is
/// `NotFound` and an unparseable one `Corrupt`; an origin already marked
/// is `AlreadyMoved`; a destination holding real content is
/// `DestinationOccupied`.  `None` means staging begins.
pub open spec fn move_guard_outcome(
    m: Map<Seq<char>, Seq<char>>,
    root: Seq<char>,
    page_url: Seq<char>,
    dest_url: Seq<char>,
    parent_url: Option<Seq<char>>,
) -> Option<WcError> {
    match link::loc_of(page_url) {
        None => Some(WcError::InvalidInput),
        Some(o) => if o.path.len() == 0 || o.path[0] != '/' || crate::text::ends_dot_digits(
            o.path,
        ) {
            Some(WcError::InvalidInput)
        } else {
            match crate::page::stored_doc(m, root + o.path) {
                None => if m.contains_key(root + o.path) {
                    Some(WcError::Corrupt)
                } else {
                    Some(WcError::NotFound)
                },
                Some(d) => if d.moved_to.len() > 0 {
                    Some(WcError::AlreadyMoved)
                } else {
                    match link::loc_of(dest_url) {
                        None => Some(WcError::InvalidInput),
                        Some(dst) => if dst.serial.len() == 0 {
                            Some(WcError::InvalidInput)
                        } else if (match parent_url {
                            Some(pu) => link::loc_of(pu) is None,
                            None => false,
                        }) {
                            Some(WcError::InvalidInput)
                        } else if (crate::page::stored_doc(m, root + dst.path) matches Some(dd)
                            && crate::doc::has_real_content(dd)) {
                            Some(WcError::DestinationOccupied)
                        } else {
                            None
                        },
                    }
                },
            }
        },
    }
}

/// No subsection link of the document is flagged as a descendant of the
/// origin: the move touches this one page alone.
pub open spec fn no_descendant_links(d: crate::doc::DocV, o: link::LocV) -> bool {
    forall|i: int|
        0 <= i < d.subs.len() ==> !(link::resolve_spec(o, (#[trigger] d.subs[i]).href)
            matches Some(t) && t.1)
}

/// Relocates the page at `page_url` (with its whole subtree of descendant
/// pages) to `dest_url`, as a child of `parent_url` when one is given:
/// stage everything first, then write all destinations, then mark all
/// origins moved through the revision-checked save.
///
/// The contract pins, in turn: that every guard error is exactly
/// `move_guard_outcome` and that any failure leaves the store untouched;
/// that a single-page move (no descendant links) succeeds and writes
/// exactly the rewritten destination and the marked origin; and that any
/// successful move leaves the origin's stored document marked with a
/// non-empty destination, so that a second move of the same origin stops
/// with `AlreadyMoved`.
#[verifier::rlimit(100)]
pub fn page_move(
    store: &mut Store,
    stor_root: &str,
    page_url: &str,
    dest_url: &str,
    parent_url: Option<&str>,
) -> (r: Result<(), WcError>)
    requires
        old(store).wf(),
    ensures
        final(store).wf(),
        (r is Err ==> final(store)@ == old(store)@),
        (match move_guard_outcome(
            old(store)@,
            stor_root@,
            page_url@,
            dest_url@,
            (match parent_url {
                Some(pu) => Some(pu@),
                None => None,
            }),
        ) {
            Some(e) => r == Result::<(), WcError>::Err(e),
            None => true,
        }),
        (move_guard_outcome(
            old(store)@,
            stor_root@,
            page_url@,
            dest_url@,
            (match parent_url {
                Some(pu) => Some(pu@),
                None => None,
            }),
        ) is None && (link::loc_of(page_url@) matches Some(o) && (crate::page::stored_doc(
            old(store)@,
            stor_root@ + o.path,
        ) matches Some(d) && no_descendant_links(d, o))) ==> r is Ok),
        ((move_guard_outcome(
            old(store)@,
            stor_root@,
            page_url@,
            dest_url@,
            (match parent_url {
                Some(pu) => Some(pu@),
                None => None,
            }),
        ) is None && parent_url is None && (link::loc_of(page_url@) matches Some(o)
            && (link::loc_of(dest_url@) matches Some(dst) && (crate::page::stored_doc(
            old(store)@,
            stor_root@ + o.path,
        ) matches Some(d) && {
            &&& no_descendant_links(d, o)
            &&& o.path != dst.path
            &&& dst.path.len() > 0
            &&& dst.path[0] == '/'
            &&& !crate::text::ends_dot_digits(dst.path)
            &&& d.navi.len() >= 1
            &&& d.rev < u64::MAX
        })))) ==> {
            let o = link::loc_of(page_url@).unwrap();
            let dst = link::loc_of(dest_url@).unwrap();
            let d = crate::page::stored_doc(old(store)@, stor_root@ + o.path).unwrap();
            &&& r is Ok
            &&& final(store)@.contains_key(stor_root@ + dst.path)
            &&& final(store)@[stor_root@ + dst.path] == crate::embed::ser_page(
                dest_doc_of(d, o, None),
            )
            &&& final(store)@.contains_key(stor_root@ + o.path)
            &&& page_doc(final(store)@[stor_root@ + o.path]) == Some(marked_doc(d, dst.serial))
        }),
        (match link::loc_of(page_url@) {
            Some(o) => (r is Ok && revs_small(old(store)@) && old(store)@.contains_key(
                stor_root@ + o.path,
            ) && (page_doc(old(store)@[stor_root@ + o.path]) matches Some(d) && d.navi.len()
                >= 1)) ==> final(store)@.contains_key(stor_root@ + o.path) && (page_doc(
                final(store)@[stor_root@ + o.path],
            ) matches Some(d2) && d2.moved_to.len() > 0),
            None => true,
        }),
{
    proof {
        reveal_strlit("");
        assert(""@ =~= Seq::<char>::empty());
    }
    let org = match link::url_join(page_url, "") {
        Some(l) => l,
        None => {
            return Err(WcError::InvalidInput);
        }
    };
    let pc = crate::text::to_chars(org.path.as_str());
    if pc.len() == 0 || pc[0] != '/' {
        return Err(WcError::InvalidInput);
    }
    if crate::text::is_backup_shaped(&pc) {
        return Err(WcError::InvalidInput);
    }
    let mut org_page = Page::new(stor_root, org.path.as_str());
    let org_doc = match org_page.document(store) {
        Some(d) => d,
        None => {
            let e = match org_page.source(store) {
                None => WcError::NotFound,
                Some(_) => WcError::Corrupt,
            };
            return Err(e);
        }
    };
    if org_doc.moved_to.as_str().unicode_len() > 0 {
        return Err(WcError::AlreadyMoved);
    }
    let dest = match link::url_join(dest_url, "") {
        Some(l) => l,
        None => {
            return Err(WcError::InvalidInput);
        }
    };
    let dsc = crate::text::to_chars(dest.serial.as_str());
    if dsc.len() == 0 {
        return Err(WcError::InvalidInput);
    }
    let parent_loc: Option<Loc>;
    let mut parent_doc_opt: Option<Document> = None;
    match parent_url {
        Some(pu) => {
            let pl = match link::url_join(pu, "") {
                Some(l) => l,
                None => {
                    return Err(WcError::InvalidInput);
                }
            };
            let mut pp = Page::new(stor_root, pl.path.as_str());
            parent_doc_opt = pp.document(store);
            parent_loc = Some(pl);
        }
        None => {
            parent_loc = None;
        }
    }
    // the destination-occupied guard, run here so that the guard outcome
    // is settled before any staging work
    let mut dest_probe = Page::new(stor_root, dest.path.as_str());
    let dest_occupied = dest_probe.json_subsections_data_exists(store);
    let mut plan = Plan::new();
    let ghost m0 = store@;
    proof {
        if no_descendant_links(org_doc@, org@) {
            lemma_child_links_empty(org_doc@.subs, org@);
        }
    }
    let staged = match (&parent_loc, &parent_doc_opt) {
        (Some(pl), Some(pd)) => stage_page(
            store,
            &mut plan,
            stor_root,
            &org_doc,
            &org,
            &dest,
            Some((pl, pd)),
        ),
        _ => stage_page(store, &mut plan, stor_root, &org_doc, &org, &dest, None),
    };
    if let Err(e) = staged {
        return Err(e);
    }
    proof {
        lemma_edd_concat(stor_root@, org.path@);
        if no_descendant_links(org_doc@, org@) {
            lemma_child_links_empty(org_doc@.subs, org@);
        }
    }
    commit_dests(store, stor_root, &plan);
    let ghost m1 = store@;
    proof {
        let fp0 = stor_root@ + org.path@;
        if revs_small(m0) && m0.contains_key(fp0) && (page_doc(m0[fp0]) matches Some(d)
            && d.navi.len() >= 1) {
            // after the first phase the origin's file holds either its old
            // text or a staged destination; both parse to an unmoved
            // document with a breadcrumb and a small revision
            assert(m1.contains_key(fp0));
            if !(m0.contains_key(fp0) && m1[fp0] == m0[fp0]) {
                let i = choose|i: int|
                    0 <= i < plan.entries@.len() && m1[fp0] == crate::embed::ser_page(
                        (#[trigger] plan.entries@[i]).dest_doc@,
                    );
                crate::embed::lemma_page_round_trip(plan.entries@[i].dest_doc@);
                assert(entry_ok(plan.entries@[i], m0, stor_root@));
                assert(m0.contains_key(stor_root@ + plan.entries@[i].org_path@));
            }
            assert(page_doc(m1[fp0]) matches Some(d1) && d1.moved_to.len() == 0 && d1.navi.len()
                >= 1 && d1.rev < u64::MAX);
        }
        // a single-page move: the plan is exactly the one entry, and the
        // first phase did exactly one save with backup
        if no_descendant_links(org_doc@, org@) && !dest_occupied {
            assert(plan.entries@.len() == 1);
        }
    }
    commit_origins(store, stor_root, &plan);
    proof {
        let fp0 = stor_root@ + org.path@;
        assert(plan.entries@[0].org_path@ == org.path@);
        assert(stor_root@ + plan.entries@[0].org_path@ == fp0);
        // the detailed single-page clause
        if no_descendant_links(org_doc@, org@) && !dest_occupied && org.path@ != dest.path@
            && dest.path@.len() > 0 && dest.path@[0] == '/' && !crate::text::ends_dot_digits(
            dest.path@,
        ) && org_doc@.navi.len() >= 1 && org_doc@.rev < u64::MAX && m0.contains_key(fp0)
            && page_doc(m0[fp0]) == Some(org_doc@) && parent_loc is None {
            let dfp = stor_root@ + dest.path@;
            let dd = plan.entries@[0].dest_doc@;
            assert(dd == dest_doc_of(org_doc@, org@, None));
            lemma_edd_concat(stor_root@, dest.path@);
            // first phase: the destination file holds the rewritten page
            assert(m1 == crate::page::saved_with_backup(
                m0,
                dfp,
                crate::embed::ser_page(dd),
                dd.rev,
            ));
            crate::page::lemma_backup_ne(dfp, dd.rev);
            assert(m1[dfp] == crate::embed::ser_page(dd));
            // the origin's file was not touched by the first phase
            lemma_concat_cancel(stor_root@, org.path@, dest.path@);
            crate::text::lemma_backup_shape(dfp, dd.rev);
            assert(m1[fp0] == m0[fp0]);
            assert(m1.contains_key(fp0));
            // second phase: the origin is marked, the destination untouched
            assert(origin_good(m1, fp0));
            assert(page_doc(store@[fp0]) == Some(marked_doc(org_doc@, dest.serial@)));
            assert(untouched_by_phase_b(dfp, plan.entries@, stor_root@)) by {
                assert(forall|t: int|
                    0 <= t < plan.entries@.len() ==> dfp != stor_root@ + (
                    #[trigger] plan.entries@[t]).org_path@);
            }
            assert(store@[dfp] == crate::embed::ser_page(dd));
        }
    }
    Ok(())
}

} // verus!
