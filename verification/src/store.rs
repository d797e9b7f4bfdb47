use vstd::prelude::*;

verus! {

/// One stored file: its path and its text.
struct Entry {
    path: String,
    text: String,
}

/// The storage root as a whole: every file under it, keyed by path.  This
/// is the shared resource every page operation reads and writes; callers
/// that persist to disk mirror it file by file.
pub struct Store {
    entries: Vec<Entry>,
}

spec fn map_of(es: Seq<Entry>) -> Map<Seq<char>, Seq<char>>
    decreases es.len(),
{
    if es.len() == 0 {
        Map::empty()
    } else {
        map_of(es.drop_last()).insert(es.last().path@, es.last().text@)
    }
}

spec fn keys_unique(es: Seq<Entry>) -> bool {
    forall|i: int, j: int|
        0 <= i < j < es.len() ==> (#[trigger] es[i].path@) != (#[trigger] es[j].path@)
}

impl View for Store {
    type V = Map<Seq<char>, Seq<char>>;

    closed spec fn view(&self) -> Map<Seq<char>, Seq<char>> {
        map_of(self.entries@)
    }
}

proof fn lemma_map_of_finite(es: Seq<Entry>)
    ensures
        map_of(es).dom().finite(),
        map_of(es).dom().len() <= es.len(),
    decreases es.len(),
{
    if es.len() > 0 {
        lemma_map_of_finite(es.drop_last());
        let m = map_of(es.drop_last());
        assert(map_of(es).dom() =~= m.dom().insert(es.last().path@));
        vstd::set_lib::lemma_len_union::<Seq<char>>(m.dom(), Set::empty().insert(es.last().path@));
        assert(m.dom().insert(es.last().path@) =~= m.dom().union(
            Set::empty().insert(es.last().path@),
        ));
    }
}

proof fn lemma_map_of_match(es: Seq<Entry>, i: int)
    requires
        keys_unique(es),
        0 <= i < es.len(),
    ensures
        map_of(es).contains_key(es[i].path@),
        map_of(es)[es[i].path@] == es[i].text@,
    decreases es.len(),
{
    if i < es.len() - 1 {
        lemma_map_of_match(es.drop_last(), i);
        assert(es.drop_last()[i] == es[i]);
        assert(es[i].path@ != es.last().path@);
    }
}

proof fn lemma_map_of_absent(es: Seq<Entry>, key: Seq<char>)
    requires
        forall|i: int| 0 <= i < es.len() ==> (#[trigger] es[i].path@) != key,
    ensures
        !map_of(es).contains_key(key),
    decreases es.len(),
{
    if es.len() > 0 {
        assert(es.last() == es[es.len() - 1]);
        lemma_map_of_absent(es.drop_last(), key);
    }
}

proof fn lemma_map_of_member(es: Seq<Entry>, key: Seq<char>)
    requires
        map_of(es).contains_key(key),
    ensures
        exists|i: int| 0 <= i < es.len() && (#[trigger] es[i].path@) == key,
    decreases es.len(),
{
    if es.len() > 0 {
        if es.last().path@ == key {
            assert(es[es.len() - 1].path@ == key);
        } else {
            lemma_map_of_member(es.drop_last(), key);
            let i = choose|i: int|
                0 <= i < es.drop_last().len() && (#[trigger] es.drop_last()[i].path@) == key;
            assert(es[i].path@ == key);
        }
    }
}

proof fn lemma_map_of_update(es: Seq<Entry>, i: int, e: Entry)
    requires
        keys_unique(es),
        0 <= i < es.len(),
        e.path@ == es[i].path@,
    ensures
        map_of(es.update(i, e)) == map_of(es).insert(e.path@, e.text@),
    decreases es.len(),
{
    let upd = es.update(i, e);
    if i == es.len() - 1 {
        assert(upd.drop_last() =~= es.drop_last());
        assert(upd.last() == e);
        assert(map_of(upd) == map_of(es.drop_last()).insert(e.path@, e.text@));
        assert(map_of(es.drop_last()).insert(e.path@, e.text@) =~= map_of(es).insert(
            e.path@,
            e.text@,
        ));
    } else {
        assert(upd.drop_last() =~= es.drop_last().update(i, e));
        assert(upd.last() == es.last());
        lemma_map_of_update(es.drop_last(), i, e);
        assert(es.drop_last()[i] == es[i]);
        assert(es.last().path@ != e.path@);
        assert(map_of(es.drop_last()).insert(e.path@, e.text@).insert(
            es.last().path@,
            es.last().text@,
        ) =~= map_of(es.drop_last()).insert(es.last().path@, es.last().text@).insert(
            e.path@,
            e.text@,
        ));
    }
}

impl Store {
    /// The store holds each path at most once.
    pub closed spec fn wf(&self) -> bool {
        keys_unique(self.entries@)
    }

    /// How many files the store holds; an upper bound on the number of
    /// distinct paths.
    pub closed spec fn size(&self) -> nat {
        self.entries@.len()
    }

    pub proof fn lemma_dom_size(&self)
        ensures
            self@.dom().finite(),
            self@.dom().len() <= self.size(),
    {
        lemma_map_of_finite(self.entries@);
    }

    /// An empty storage root.
    pub fn new() -> (s: Store)
        ensures
            s.wf(),
            s@ == Map::<Seq<char>, Seq<char>>::empty(),
            s.size() == 0,
    {
        let s = Store { entries: Vec::new() };
        assert(s@ =~= Map::<Seq<char>, Seq<char>>::empty());
        s
    }

    fn find(&self, path: &str) -> (r: Option<usize>)
        requires
            self.wf(),
        ensures
            (r matches Some(i) ==> i < self.entries@.len() && self.entries@[i as int].path@
                == path@),
            (r is None ==> !self@.contains_key(path@) && forall|m: int|
                0 <= m < self.entries@.len() ==> (#[trigger] self.entries@[m].path@) != path@),
    {
        let p = path.to_owned();
        let mut i: usize = 0;
        while i < self.entries.len()
            invariant
                p@ == path@,
                i <= self.entries.len(),
                forall|m: int| 0 <= m < i ==> (#[trigger] self.entries@[m].path@) != path@,
            decreases self.entries.len() - i,
        {
            if self.entries[i].path.eq(&p) {
                return Some(i);
            }
            i = i + 1;
        }
        proof {
            lemma_map_of_absent(self.entries@, path@);
        }
        None
    }

    /// The stored text under `path`, if any.
    pub fn get(&self, path: &str) -> (r: Option<&String>)
        requires
            self.wf(),
        ensures
            (r matches Some(v) ==> self@.contains_key(path@) && v@ == self@[path@]),
            (r is None ==> !self@.contains_key(path@)),
    {
        match self.find(path) {
            Some(i) => {
                proof {
                    lemma_map_of_match(self.entries@, i as int);
                }
                Some(&self.entries[i].text)
            }
            None => None,
        }
    }

    /// Whether a file exists under `path`.
    pub fn contains(&self, path: &str) -> (r: bool)
        requires
            self.wf(),
        ensures
            r == self@.contains_key(path@),
    {
        self.get(path).is_some()
    }

    /// Every path the store holds a file under, in storage order.
    pub fn paths(&self) -> (r: Vec<String>)
        requires
            self.wf(),
        ensures
            forall|i: int|
                0 <= i < r@.len() ==> self@.contains_key((#[trigger] r@[i])@),
            forall|k: Seq<char>|
                #[trigger] self@.contains_key(k) ==> exists|i: int|
                    0 <= i < r@.len() && (#[trigger] r@[i])@ == k,
    {
        let mut r: Vec<String> = Vec::new();
        let mut i: usize = 0;
        while i < self.entries.len()
            invariant
                self.wf(),
                i <= self.entries.len(),
                r@.len() == i,
                forall|m: int| 0 <= m < i ==> (#[trigger] r@[m])@ == self.entries@[m].path@,
            decreases self.entries.len() - i,
        {
            r.push(self.entries[i].path.clone());
            i = i + 1;
        }
        proof {
            assert forall|m: int| 0 <= m < r@.len() implies self@.contains_key(
                (#[trigger] r@[m])@,
            ) by {
                lemma_map_of_match(self.entries@, m);
            }
            assert forall|k: Seq<char>| #[trigger] self@.contains_key(k) implies exists|m: int|
                0 <= m < r@.len() && (#[trigger] r@[m])@ == k by {
                lemma_map_of_member(self.entries@, k);
                let m = choose|m: int|
                    0 <= m < self.entries@.len() && (#[trigger] self.entries@[m].path@) == k;
                assert(r@[m]@ == k);
            }
        }
        r
    }

    /// Writes `text` under `path`, replacing what was there.
    pub fn insert(&mut self, path: &str, text: String)
        requires
            old(self).wf(),
        ensures
            final(self).wf(),
            final(self)@ == old(self)@.insert(path@, text@),
            final(self).size() <= old(self).size() + 1,
    {
        let ghost es0 = self.entries@;
        match self.find(path) {
            Some(i) => {
                self.entries[i] = Entry { path: path.to_owned(), text };
                proof {
                    let e = self.entries@[i as int];
                    assert(self.entries@ =~= es0.update(i as int, e));
                    lemma_map_of_update(es0, i as int, e);
                    assert(keys_unique(self.entries@)) by {
                        assert(forall|m: int|
                            0 <= m < es0.len() && m != i ==> self.entries@[m] == es0[m]);
                    }
                }
            }
            None => {
                self.entries.push(Entry { path: path.to_owned(), text });
                proof {
                    assert(self.entries@.drop_last() =~= es0);
                    assert(keys_unique(self.entries@)) by {
                        assert forall|i: int, j: int|
                            0 <= i < j < self.entries@.len() implies (
                        #[trigger] self.entries@[i].path@) != (
                        #[trigger] self.entries@[j].path@) by {
                            if j == self.entries@.len() - 1 {
                                assert(es0[i].path@ != path@);
                            }
                        }
                    }
                }
            }
        }
    }
}

} // verus!
