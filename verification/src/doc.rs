use vstd::prelude::*;
use crate::errors::WcError;

verus! {

/// One free-text entry of a subsection: a kind tag and its text.
#[derive(Debug, Clone, PartialEq, Eq)]
pub struct ContentPiece {
    pub kind: String,
    pub value: String,
}

#[verifier::ext_equal]
pub ghost struct ContentPieceV {
    pub kind: Seq<char>,
    pub value: Seq<char>,
}

impl View for ContentPiece {
    type V = ContentPieceV;

    open spec fn view(&self) -> ContentPieceV {
        ContentPieceV { kind: self.kind@, value: self.value@ }
    }
}

impl DeepView for ContentPiece {
    type V = ContentPieceV;

    open spec fn deep_view(&self) -> ContentPieceV {
        self@
    }
}

/// One breadcrumb entry: a display title and the link it points to.
#[derive(Debug, Clone, PartialEq, Eq)]
pub struct NaviEntry {
    pub title: String,
    pub href: String,
}

#[verifier::ext_equal]
pub ghost struct NaviEntryV {
    pub title: Seq<char>,
    pub href: Seq<char>,
}

impl View for NaviEntry {
    type V = NaviEntryV;

    open spec fn view(&self) -> NaviEntryV {
        NaviEntryV { title: self.title@, href: self.href@ }
    }
}

impl DeepView for NaviEntry {
    type V = NaviEntryV;

    open spec fn deep_view(&self) -> NaviEntryV {
        self@
    }
}

/// A node of a page's content tree, linked to other nodes by numeric ids.
#[derive(Debug, Clone, PartialEq, Eq)]
pub struct Subsection {
    pub parent: u64,
    pub id: u64,
    pub title: String,
    pub href: String,
    pub content: Vec<ContentPiece>,
    pub children: Vec<u64>,
}

#[verifier::ext_equal]
pub ghost struct SubsectionV {
    pub parent: u64,
    pub id: u64,
    pub title: Seq<char>,
    pub href: Seq<char>,
    pub content: Seq<ContentPieceV>,
    pub children: Seq<u64>,
}

impl View for Subsection {
    type V = SubsectionV;

    open spec fn view(&self) -> SubsectionV {
        SubsectionV {
            parent: self.parent,
            id: self.id,
            title: self.title@,
            href: self.href@,
            content: self.content.deep_view(),
            children: self.children@,
        }
    }
}

impl DeepView for Subsection {
    type V = SubsectionV;

    open spec fn deep_view(&self) -> SubsectionV {
        self@
    }
}

impl Subsection {
    /// An empty subsection under the given parent.
    pub fn empty(parent: u64, id: u64) -> (s: Subsection)
        ensures
            s@ == empty_subsection(parent, id),
    {
        let s = Subsection {
            parent,
            id,
            title: String::new(),
            href: String::new(),
            content: Vec::new(),
            children: Vec::new(),
        };
        assert(s@ =~= empty_subsection(parent, id));
        s
    }

    pub fn id(&self) -> (r: u64)
        ensures
            r == self.id,
    {
        self.id
    }

    pub fn title_set(&mut self, title: &str)
        ensures
            (final(self)@ == SubsectionV { title: title@, ..old(self)@ }),
    {
        self.title = title.to_owned();
    }

    pub fn href_set(&mut self, href: &str)
        ensures
            (final(self)@ == SubsectionV { href: href@, ..old(self)@ }),
    {
        self.href = href.to_owned();
    }

    pub fn contents_mut(&mut self) -> (r: &mut Vec<ContentPiece>)
        ensures
            *r == old(self).content,
            (final(self)@ == SubsectionV { content: final(r).deep_view(), ..old(self)@ }),
    {
        &mut self.content
    }
}

pub open spec fn empty_subsection(parent: u64, id: u64) -> SubsectionV {
    SubsectionV {
        parent,
        id,
        title: Seq::empty(),
        href: Seq::empty(),
        content: Seq::empty(),
        children: Seq::empty(),
    }
}

/// The structured payload embedded in a page: title, revision counter,
/// breadcrumb list and subsection tree.  The `may_changed` flag is
/// bookkeeping on the in-memory value and is not part of the stored form
/// (and therefore not part of the view).
#[derive(Debug, Clone, PartialEq, Eq)]
pub struct Document {
    pub version: String,
    pub title: String,
    pub rev: u64,
    pub rev_speculation: u64,
    pub group_top: bool,
    pub moved_to: String,
    pub navi: Vec<NaviEntry>,
    pub id_next: u64,
    pub subs: Vec<Subsection>,
    pub may_changed: bool,
}

#[verifier::ext_equal]
pub ghost struct DocV {
    pub version: Seq<char>,
    pub title: Seq<char>,
    pub rev: u64,
    pub rev_speculation: u64,
    pub group_top: bool,
    pub moved_to: Seq<char>,
    pub navi: Seq<NaviEntryV>,
    pub id_next: u64,
    pub subs: Seq<SubsectionV>,
}

impl View for Document {
    type V = DocV;

    open spec fn view(&self) -> DocV {
        DocV {
            version: self.version@,
            title: self.title@,
            rev: self.rev,
            rev_speculation: self.rev_speculation,
            group_top: self.group_top,
            moved_to: self.moved_to@,
            navi: self.navi.deep_view(),
            id_next: self.id_next,
            subs: self.subs.deep_view(),
        }
    }
}

/// The freshly created document: revision 1, one structural subsection with
/// id 0 whose parent is itself, and the next id counter at 1.
pub open spec fn plain_doc(version: Seq<char>) -> DocV {
    DocV {
        version,
        title: Seq::empty(),
        rev: 1,
        rev_speculation: 0,
        group_top: false,
        moved_to: Seq::empty(),
        navi: Seq::empty(),
        id_next: 1,
        subs: seq![empty_subsection(0, 0)],
    }
}

/// A document has real content exactly when some subsection beyond the
/// structural one with id 0 exists.
pub open spec fn has_real_content(d: DocV) -> bool {
    d.subs.len() > 1
}

/// Index of the first subsection with the given id, or -1 when none exists.
pub open spec fn find_sub_idx(subs: Seq<SubsectionV>, id: u64) -> int
    decreases subs.len(),
{
    if subs.len() == 0 {
        -1
    } else if subs[0].id == id {
        0
    } else {
        let r = find_sub_idx(subs.drop_first(), id);
        if r == -1 {
            -1
        } else {
            r + 1
        }
    }
}

/// Index of the first subsection with the given href, or -1 when none
/// exists.
pub open spec fn find_sub_by_href(subs: Seq<SubsectionV>, href: Seq<char>) -> int
    decreases subs.len(),
{
    if subs.len() == 0 {
        -1
    } else if subs[0].href == href {
        0
    } else {
        let r = find_sub_by_href(subs.drop_first(), href);
        if r == -1 {
            -1
        } else {
            r + 1
        }
    }
}

proof fn lemma_find_by_href_first_is(subs: Seq<SubsectionV>, href: Seq<char>, k: int)
    requires
        0 <= k < subs.len(),
        subs[k].href == href,
        forall|m: int| 0 <= m < k ==> (#[trigger] subs[m]).href != href,
    ensures
        find_sub_by_href(subs, href) == k,
    decreases subs.len(),
{
    if k > 0 {
        assert(subs[0].href != href);
        assert(forall|m: int| 0 <= m < subs.drop_first().len()
            ==> subs.drop_first()[m] == subs[m + 1]);
        lemma_find_by_href_first_is(subs.drop_first(), href, k - 1);
    }
}

proof fn lemma_find_by_href_none(subs: Seq<SubsectionV>, href: Seq<char>)
    requires
        forall|m: int| 0 <= m < subs.len() ==> (#[trigger] subs[m]).href != href,
    ensures
        find_sub_by_href(subs, href) == -1,
    decreases subs.len(),
{
    if subs.len() > 0 {
        assert(forall|m: int| 0 <= m < subs.drop_first().len()
            ==> subs.drop_first()[m] == subs[m + 1]);
        lemma_find_by_href_none(subs.drop_first(), href);
    }
}

pub proof fn lemma_find_sub_idx(subs: Seq<SubsectionV>, id: u64)
    ensures
        find_sub_idx(subs, id) == -1 ==> forall|k: int|
            0 <= k < subs.len() ==> (#[trigger] subs[k]).id != id,
        find_sub_idx(subs, id) != -1 ==> {
            let r = find_sub_idx(subs, id);
            &&& 0 <= r < subs.len()
            &&& subs[r].id == id
            &&& forall|k: int| 0 <= k < r ==> (#[trigger] subs[k]).id != id
        },
    decreases subs.len(),
{
    if subs.len() > 0 && subs[0].id != id {
        let rest = subs.drop_first();
        lemma_find_sub_idx(rest, id);
        if find_sub_idx(rest, id) == -1 {
            assert forall|k: int| 0 <= k < subs.len() implies (#[trigger] subs[k]).id != id by {
                if k > 0 {
                    assert(rest[k - 1] == subs[k]);
                }
            }
        } else {
            let r = find_sub_idx(rest, id);
            assert(rest[r] == subs[r + 1]);
            assert forall|k: int| 0 <= k < r + 1 implies (#[trigger] subs[k]).id != id by {
                if k > 0 {
                    assert(rest[k - 1] == subs[k]);
                }
            }
        }
    }
}

/// Position of the first subsection carrying `id`, mirroring `find_sub_idx`.
fn find_idx(subs: &Vec<Subsection>, id: u64) -> (r: Option<usize>)
    ensures
        (r matches Some(k) ==> find_sub_idx(subs.deep_view(), id) == k && k < subs.len()),
        (r is None ==> find_sub_idx(subs.deep_view(), id) == -1),
{
    proof {
        lemma_find_sub_idx(subs.deep_view(), id);
    }
    let mut k: usize = 0;
    while k < subs.len()
        invariant
            k <= subs.len(),
            subs.deep_view().len() == subs.len(),
            forall|m: int| 0 <= m < k ==> (#[trigger] subs.deep_view()[m]).id != id,
        decreases subs.len() - k,
    {
        if subs[k].id == id {
            proof {
                lemma_find_first_is(subs.deep_view(), id, k as int);
            }
            return Some(k);
        }
        assert(subs.deep_view()[k as int].id != id);
        k = k + 1;
    }
    proof {
        if find_sub_idx(subs.deep_view(), id) != -1 {
            let r = find_sub_idx(subs.deep_view(), id);
            assert(subs.deep_view()[r].id != id);
        }
    }
    None
}

impl Document {
    /// The plain document template that every new page starts from.
    pub fn new() -> (d: Document)
        ensures
            d@ == plain_doc("0.0.4"@),
            !d.may_changed,
    {
        let d = Document {
            version: String::from_str("0.0.4"),
            title: String::new(),
            rev: 1,
            rev_speculation: 0,
            group_top: false,
            moved_to: String::new(),
            navi: Vec::new(),
            id_next: 1,
            subs: vec![Subsection::empty(0, 0)],
            may_changed: false,
        };
        assert(d@.subs =~= seq![empty_subsection(0, 0)]);
        assert(d@.navi =~= Seq::<NaviEntryV>::empty());
        d
    }

    pub fn rev(&self) -> (r: u64)
        ensures
            r == self.rev,
    {
        self.rev
    }

    /// The revision the next successful save will carry.
    pub fn rev_plus_one(&self) -> (r: Option<u64>)
        ensures
            self.rev < u64::MAX ==> r == Some((self.rev + 1) as u64),
            (self.rev == u64::MAX ==> r is None),
    {
        self.rev.checked_add(1)
    }

    /// Replaces the revision with its successor; fails (leaving the
    /// document unchanged except for the dirty flag) when it cannot grow.
    pub fn rev_replace_one_up(&mut self) -> (r: Result<(), ()>)
        ensures
            final(self).may_changed,
            (old(self).rev < u64::MAX ==> r is Ok && final(self)@ == DocV {
                rev: (old(self).rev + 1) as u64,
                ..old(self)@
            }),
            (old(self).rev == u64::MAX ==> r is Err && final(self)@ == old(self)@),
    {
        self.may_changed = true;
        match self.rev.checked_add(1) {
            Some(r) => {
                self.rev = r;
                Ok(())
            }
            None => Err(()),
        }
    }

    pub fn subsection_id_next(&self) -> (r: u64)
        ensures
            r == self.id_next,
    {
        self.id_next
    }

    /// Hands out the next subsection id and advances the allocator; ids are
    /// never reused.
    pub fn subsection_id_new(&mut self) -> (r: Option<u64>)
        ensures
            final(self).may_changed,
            (old(self).id_next < u64::MAX ==> r == Some(old(self).id_next) && final(self)@ == DocV {
                id_next: (old(self).id_next + 1) as u64,
                ..old(self)@
            }),
            (old(self).id_next == u64::MAX ==> r is None && final(self)@ == old(self)@),
    {
        self.may_changed = true;
        match self.id_next.checked_add(1) {
            Some(n) => {
                let id = self.id_next;
                self.id_next = n;
                Some(id)
            }
            None => None,
        }
    }

    /// First subsection carrying the given id.
    pub fn subsection(&self, id: u64) -> (r: Option<&Subsection>)
        ensures
            (find_sub_idx(self@.subs, id) == -1 ==> r is None),
            (find_sub_idx(self@.subs, id) != -1 ==> (r matches Some(s) && s@ == self@.subs[
                find_sub_idx(self@.subs, id)
            ])),
    {
        match find_idx(&self.subs, id) {
            Some(k) => Some(&self.subs[k]),
            None => None,
        }
    }

    /// First subsection whose href equals the given one, in storage
    /// (insertion) order: the first match wins.
    pub fn subsection_by_name(&self, href: &str) -> (r: Option<&Subsection>)
        ensures
            (find_sub_by_href(self@.subs, href@) == -1 <==> r is None),
            (find_sub_by_href(self@.subs, href@) != -1 ==> (r matches Some(s) && s@ == self@.subs[
                find_sub_by_href(self@.subs, href@)
            ])),
    {
        let h = href.to_owned();
        let mut k: usize = 0;
        while k < self.subs.len()
            invariant
                h@ == href@,
                k <= self.subs.len(),
                self@.subs.len() == self.subs.len(),
                forall|m: int| 0 <= m < k ==> (#[trigger] self@.subs[m]).href != href@,
            decreases self.subs.len() - k,
        {
            if self.subs[k].href.eq(&h) {
                proof {
                    lemma_find_by_href_first_is(self@.subs, href@, k as int);
                }
                return Some(&self.subs[k]);
            }
            k = k + 1;
        }
        proof {
            lemma_find_by_href_none(self@.subs, href@);
        }
        None
    }

    /// Creates a fresh, empty subsection under `parent_id`.  Fails exactly
    /// when the id allocator cannot grow, when the parent does not exist,
    /// or when the freshly allocated id is somehow already taken (a
    /// defensive check).  On success the new subsection is appended, its id
    /// is recorded among the parent's children, and the new id is returned.
    pub fn subsection_new(&mut self, parent_id: u64) -> (r: Option<u64>)
        ensures
            final(self).may_changed,
            (r is Some <==> old(self).id_next < u64::MAX && find_sub_idx(
                old(self)@.subs,
                parent_id,
            ) != -1 && find_sub_idx(old(self)@.subs, old(self).id_next) == -1),
            (r matches Some(id) ==> {
                let pi = find_sub_idx(old(self)@.subs, parent_id);
                &&& id == old(self).id_next
                &&& 0 <= pi < old(self)@.subs.len()
                &&& final(self)@ == DocV {
                    id_next: (old(self).id_next + 1) as u64,
                    subs: old(self)@.subs.update(
                        pi,
                        SubsectionV {
                            children: old(self)@.subs[pi].children.push(id),
                            ..old(self)@.subs[pi]
                        },
                    ).push(empty_subsection(parent_id, id)),
                    ..old(self)@
                }
                &&& has_real_content(final(self)@)
            }),
            (r is None ==> final(self)@ == DocV { id_next: final(self)@.id_next, ..old(self)@ }
                && (final(self)@.id_next == old(self)@.id_next || final(self)@.id_next == old(
                self,
            )@.id_next + 1)),
    {
        let ghost subs0 = self@.subs;
        let id = match self.subsection_id_new() {
            Some(id) => id,
            None => {
                return None;
            }
        };
        // find the parent's position
        let pi = match find_idx(&self.subs, parent_id) {
            Some(k) => k,
            None => {
                return None;
            }
        };
        // defensive: the freshly allocated id must not be in use already
        if find_idx(&self.subs, id).is_some() {
            return None;
        }
        let sub = Subsection::empty(parent_id, id);
        self.subs[pi].children.push(id);
        self.subs.push(sub);
        proof {
            assert(final(self)@.subs =~= subs0.update(
                pi as int,
                SubsectionV {
                    children: subs0[pi as int].children.push(id),
                    ..subs0[pi as int]
                },
            ).push(empty_subsection(parent_id, id)));
        }
        Some(id)
    }

    /// The subsection tree, in insertion order.
    pub fn subsections(&self) -> (r: &Vec<Subsection>)
        ensures
            r == self.subs,
    {
        &self.subs
    }

    /// Mutable access to the subsection tree; marks the document as
    /// possibly changed.
    pub fn subsections_mut(&mut self) -> (r: &mut Vec<Subsection>)
        ensures
            *r == old(self).subs,
            final(self).may_changed,
            (*final(self) == Document { subs: *final(r), may_changed: true, ..*old(self) }),
    {
        self.may_changed = true;
        &mut self.subs
    }

    /// True exactly when the document holds content beyond the structural
    /// subsection with id 0.
    pub fn subsections_data_exists(&self) -> (r: bool)
        ensures
            r == has_real_content(self@),
    {
        self.subs.len() > 1
    }

    /// Where the page was moved to, or nothing when it was never moved.
    pub fn moved_to(&self) -> (r: Option<String>)
        ensures
            (self.moved_to@.len() == 0 ==> r is None),
            (self.moved_to@.len() > 0 ==> (r matches Some(s) && s@ == self.moved_to@)),
    {
        if self.moved_to.as_str().unicode_len() == 0 {
            None
        } else {
            Some(self.moved_to.clone())
        }
    }

    /// Records the destination of a move.  The transition is one-way: once
    /// `moved_to` is non-empty it can never be set again.
    pub fn mark_moved(&mut self, dest: &str) -> (r: Result<(), WcError>)
        ensures
            final(self).may_changed,
            (old(self).moved_to@.len() > 0 ==> r == Result::<(), WcError>::Err(
                WcError::AlreadyMoved,
            ) && final(self)@ == old(self)@),
            (old(self).moved_to@.len() == 0 ==> r is Ok && final(self)@ == DocV {
                moved_to: dest@,
                ..old(self)@
            }),
    {
        self.may_changed = true;
        if self.moved_to.as_str().unicode_len() > 0 {
            return Err(WcError::AlreadyMoved);
        }
        self.moved_to = dest.to_owned();
        Ok(())
    }

    pub fn may_changed(&self) -> (r: bool)
        ensures
            r == self.may_changed,
    {
        self.may_changed
    }

    pub fn may_changed_clear(&mut self)
        ensures
            final(self)@ == old(self)@,
            !final(self).may_changed,
    {
        self.may_changed = false;
    }
}

proof fn lemma_find_first_is(subs: Seq<SubsectionV>, id: u64, k: int)
    requires
        0 <= k < subs.len(),
        subs[k].id == id,
        forall|m: int| 0 <= m < k ==> (#[trigger] subs[m]).id != id,
    ensures
        find_sub_idx(subs, id) == k,
    decreases subs.len(),
{
    if k > 0 {
        assert(subs[0].id != id);
        assert(forall|m: int| 0 <= m < subs.drop_first().len()
            ==> subs.drop_first()[m] == subs[m + 1]);
        lemma_find_first_is(subs.drop_first(), id, k - 1);
    }
}

/// A freshly created document never has real content.
pub proof fn lemma_fresh_no_real_content(version: Seq<char>)
    ensures
        !has_real_content(plain_doc(version)),
{
}

impl ContentPiece {
    /// A field-by-field copy with the same view.
    pub fn duplicate(&self) -> (r: ContentPiece)
        ensures
            r@ == self@,
    {
        ContentPiece { kind: self.kind.clone(), value: self.value.clone() }
    }
}

impl NaviEntry {
    /// A field-by-field copy with the same view.
    pub fn duplicate(&self) -> (r: NaviEntry)
        ensures
            r@ == self@,
    {
        NaviEntry { title: self.title.clone(), href: self.href.clone() }
    }
}

impl Subsection {
    /// A field-by-field copy with the same view.
    pub fn duplicate(&self) -> (r: Subsection)
        ensures
            r@ == self@,
    {
        let mut content: Vec<ContentPiece> = Vec::new();
        let mut i: usize = 0;
        while i < self.content.len()
            invariant
                i <= self.content.len(),
                content.len() == i,
                forall|k: int| 0 <= k < i ==> (#[trigger] content@[k])@ == self.content@[k]@,
            decreases self.content.len() - i,
        {
            content.push(self.content[i].duplicate());
            i = i + 1;
        }
        assert(content.deep_view() =~= self.content.deep_view()) by {
            assert forall|k: int| 0 <= k < self.content@.len() implies content.deep_view()[k]
                == self.content.deep_view()[k] by {
                assert(content@[k]@ == self.content@[k]@);
            }
        }
        let mut children: Vec<u64> = Vec::new();
        let mut j: usize = 0;
        while j < self.children.len()
            invariant
                j <= self.children.len(),
                children@ == self.children@.subrange(0, j as int),
            decreases self.children.len() - j,
        {
            children.push(self.children[j]);
            assert(children@ =~= self.children@.subrange(0, j + 1));
            j = j + 1;
        }
        assert(children@ =~= self.children@);
        let r = Subsection {
            parent: self.parent,
            id: self.id,
            title: self.title.clone(),
            href: self.href.clone(),
            content,
            children,
        };
        assert(r@ =~= self@);
        r
    }
}

impl Document {
    /// A field-by-field copy with the same view and the same dirty flag.
    pub fn duplicate(&self) -> (r: Document)
        ensures
            r@ == self@,
            r.may_changed == self.may_changed,
    {
        let mut navi: Vec<NaviEntry> = Vec::new();
        let mut i: usize = 0;
        while i < self.navi.len()
            invariant
                i <= self.navi.len(),
                navi.len() == i,
                forall|k: int| 0 <= k < i ==> (#[trigger] navi@[k])@ == self.navi@[k]@,
            decreases self.navi.len() - i,
        {
            navi.push(self.navi[i].duplicate());
            i = i + 1;
        }
        assert(navi.deep_view() =~= self.navi.deep_view()) by {
            assert forall|k: int| 0 <= k < self.navi@.len() implies navi.deep_view()[k]
                == self.navi.deep_view()[k] by {
                assert(navi@[k]@ == self.navi@[k]@);
            }
        }
        let mut subs: Vec<Subsection> = Vec::new();
        let mut j: usize = 0;
        while j < self.subs.len()
            invariant
                j <= self.subs.len(),
                subs.len() == j,
                forall|k: int| 0 <= k < j ==> (#[trigger] subs@[k])@ == self.subs@[k]@,
            decreases self.subs.len() - j,
        {
            subs.push(self.subs[j].duplicate());
            j = j + 1;
        }
        assert(subs.deep_view() =~= self.subs.deep_view()) by {
            assert forall|k: int| 0 <= k < self.subs@.len() implies subs.deep_view()[k]
                == self.subs.deep_view()[k] by {
                assert(subs@[k]@ == self.subs@[k]@);
            }
        }
        let r = Document {
            version: self.version.clone(),
            title: self.title.clone(),
            rev: self.rev,
            rev_speculation: self.rev_speculation,
            group_top: self.group_top,
            moved_to: self.moved_to.clone(),
            navi,
            id_next: self.id_next,
            subs,
            may_changed: self.may_changed,
        };
        assert(r@ =~= self@);
        r
    }
}

} // verus!
