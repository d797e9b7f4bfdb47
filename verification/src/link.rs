use vstd::prelude::*;
use crate::text;

verus! {

/// A resolved location: what the library reads of a URL.  `serial` is the
/// URL's full serialization and doubles as the base for further joins.
pub struct Loc {
    pub host: String,
    pub path: String,
    pub fragment: Option<String>,
    pub serial: String,
}

#[verifier::ext_equal]
pub ghost struct LocV {
    pub host: Seq<char>,
    pub path: Seq<char>,
    pub fragment: Option<Seq<char>>,
    pub serial: Seq<char>,
}

impl View for Loc {
    type V = LocV;

    open spec fn view(&self) -> LocV {
        LocV {
            host: self.host@,
            path: self.path@,
            fragment: match self.fragment {
                Some(ref f) => Some(f@),
                None => None,
            },
            serial: self.serial@,
        }
    }
}

/// What resolving `href` against the URL written `base` yields: the result
/// depends on those two texts alone.
pub uninterp spec fn join_of(base: Seq<char>, href: Seq<char>) -> Option<LocV>;

/// Relies on `url::Url::parse` and `url::Url::join`: resolves `href`
/// against the absolute URL `base` and reads the result's host (through
/// `Url::host_str`), path, fragment and serialization.  Returns nothing
/// when either the base does not parse or the join fails.
#[verifier::external_body]
pub fn url_join(base: &str, href: &str) -> (r: Option<Loc>)
    ensures
        (r matches Some(l) ==> join_of(base@, href@) == Some(l@)),
        (r is None ==> join_of(base@, href@) is None),
{
    let b = match url::Url::parse(base) {
        Ok(b) => b,
        Err(_) => return None,
    };
    let u = match b.join(href) {
        Ok(u) => u,
        Err(_) => return None,
    };
    Some(Loc {
        host: u.host_str().unwrap_or("").to_string(),
        path: u.path().to_string(),
        fragment: u.fragment().map(|f| f.to_string()),
        serial: u.as_str().to_string(),
    })
}

/// The location a full URL text denotes: resolving the empty reference
/// against it.
pub open spec fn loc_of(u: Seq<char>) -> Option<LocV> {
    join_of(u, Seq::empty())
}

/// What expressing `target` relative to `base` yields, when it is
/// possible: again a function of the two texts alone.
pub uninterp spec fn relative_of(base: Seq<char>, target: Seq<char>) -> Option<Seq<char>>;

/// Relies on `url::Url::make_relative`: a relative reference for `target`
/// with `base` as the base URL, or nothing when the two differ in scheme,
/// host or port (or either text does not parse as an absolute URL).
#[verifier::external_body]
pub fn url_make_relative(base: &str, target: &str) -> (r: Option<String>)
    ensures
        (r matches Some(s) ==> relative_of(base@, target@) == Some(s@)),
        (r is None ==> relative_of(base@, target@) is None),
{
    let b = match url::Url::parse(base) {
        Ok(b) => b,
        Err(_) => return None,
    };
    let t = match url::Url::parse(target) {
        Ok(t) => t,
        Err(_) => return None,
    };
    b.make_relative(&t)
}

/// Index of the last `/` in the text, if any.
pub open spec fn last_slash(s: Seq<char>) -> Option<int>
    decreases s.len(),
{
    if s.len() == 0 {
        None
    } else if s.last() == '/' {
        Some(s.len() - 1)
    } else {
        last_slash(s.drop_last())
    }
}

/// The directory part of a path: everything up to and including the last
/// `/`; empty when the path has no `/` at all.
pub open spec fn dir_of(p: Seq<char>) -> Seq<char> {
    match last_slash(p) {
        Some(k) => p.subrange(0, k + 1),
        None => Seq::empty(),
    }
}

proof fn lemma_last_slash_is(s: Seq<char>, k: int)
    requires
        0 <= k < s.len(),
        s[k] == '/',
        forall|m: int| k < m < s.len() ==> s[m] != '/',
    ensures
        last_slash(s) == Some(k),
    decreases s.len(),
{
    if k < s.len() - 1 {
        assert(s.last() != '/');
        assert(forall|m: int| 0 <= m < s.len() - 1 ==> s.drop_last()[m] == s[m]);
        lemma_last_slash_is(s.drop_last(), k);
    }
}

proof fn lemma_last_slash_none(s: Seq<char>)
    requires
        forall|m: int| 0 <= m < s.len() ==> s[m] != '/',
    ensures
        last_slash(s) is None,
    decreases s.len(),
{
    if s.len() > 0 {
        assert(s.last() == s[s.len() - 1]);
        assert(forall|m: int| 0 <= m < s.len() - 1 ==> s.drop_last()[m] == s[m]);
        lemma_last_slash_none(s.drop_last());
    }
}

/// The fragment rendered as a `#`-suffix, or nothing.
pub open spec fn frag_suffix(f: Option<Seq<char>>) -> Seq<char> {
    match f {
        Some(f) => seq!['#'] + f,
        None => Seq::empty(),
    }
}

/// How a link is rewritten when a page moves, given the resolved target
/// `j` of the link and the `org` location of the page that carries it:
///
/// - a target on another host keeps its absolute written form, and is not
///   part of the moving subtree;
/// - a target on the page itself becomes a bare fragment reference, or
///   nothing (leave the link alone) when the link carried no fragment;
/// - a target inside the page's own directory becomes a reference relative
///   to that directory, and is flagged as a descendant: such a link stays
///   valid when the whole subtree moves together;
/// - any other target becomes its absolute path (with the fragment).
pub open spec fn classify(org: LocV, j: LocV) -> Option<(Seq<char>, bool)> {
    if j.host != org.host {
        Some((j.serial, false))
    } else if j.path == org.path {
        match j.fragment {
            Some(f) => Some((seq!['#'] + f, false)),
            None => None,
        }
    } else {
        let dir = dir_of(org.path);
        if dir.len() <= j.path.len() && j.path.subrange(0, dir.len() as int) == dir {
            Some((j.path.skip(dir.len() as int) + frag_suffix(j.fragment), true))
        } else {
            Some((j.path + frag_suffix(j.fragment), false))
        }
    }
}

/// `resolve` as one function of the origin and the link text.
pub open spec fn resolve_spec(org: LocV, href: Seq<char>) -> Option<(Seq<char>, bool)> {
    match join_of(org.serial, href) {
        Some(j) => classify(org, j),
        None => None,
    }
}

/// Appends the fragment suffix of `j` to `out`.
fn push_frag(out: &mut Vec<char>, fragment: &Option<String>)
    ensures
        final(out)@ == old(out)@ + frag_suffix(match *fragment {
            Some(ref f) => Some(f@),
            None => None,
        }),
{
    match fragment {
        Some(f) => {
            out.push('#');
            let mut fc = text::to_chars(f.as_str());
            out.append(&mut fc);
            assert(final(out)@ =~= old(out)@ + (seq!['#'] + f@));
        }
        None => {
            assert(final(out)@ =~= old(out)@ + Seq::<char>::empty());
        }
    }
}

/// Length of the directory part of `p`, mirroring `dir_of`.
fn dir_len(p: &Vec<char>) -> (r: usize)
    ensures
        r <= p.len(),
        dir_of(p@) == p@.subrange(0, r as int),
{
    let mut k: usize = p.len();
    while k > 0
        invariant
            k <= p.len(),
            forall|m: int| k <= m < p@.len() ==> p@[m] != '/',
        decreases k,
    {
        if p[k - 1] == '/' {
            proof {
                lemma_last_slash_is(p@, k - 1);
            }
            return k;
        }
        k = k - 1;
    }
    proof {
        lemma_last_slash_none(p@);
        assert(dir_of(p@) =~= p@.subrange(0, 0));
    }
    0
}

/// Classifies and rewrites the already-resolved target `j` of a link on
/// the page at `org`, mirroring `classify`.
fn classify_exec(org: &Loc, j: &Loc) -> (r: Option<(String, bool)>)
    ensures
        (r matches Some((s, b)) ==> classify(org@, j@) == Some((s@, b))),
        (r is None ==> classify(org@, j@) is None),
{
    if !j.host.eq(&org.host) {
        return Some((j.serial.clone(), false));
    }
    if j.path.eq(&org.path) {
        match &j.fragment {
            Some(f) => {
                let mut out: Vec<char> = Vec::new();
                out.push('#');
                let mut fc = text::to_chars(f.as_str());
                out.append(&mut fc);
                assert(out@ =~= seq!['#'] + f@);
                return Some((text::chars_to_string(&out), false));
            }
            None => {
                return None;
            }
        }
    }
    let pc = text::to_chars(org.path.as_str());
    let jc = text::to_chars(j.path.as_str());
    let dl = dir_len(&pc);
    // is the target inside the origin's directory?
    let mut inside = jc.len() >= dl;
    let mut m: usize = 0;
    while inside && m < dl
        invariant
            m <= dl,
            dl <= pc.len(),
            dir_of(org.path@) == pc@.subrange(0, dl as int),
            jc@ == j.path@,
            pc@ == org.path@,
            inside ==> dl <= jc.len() && forall|k: int| 0 <= k < m ==> jc@[k] == pc@[k],
            !inside ==> !(dir_of(org.path@).len() <= j.path@.len() && j.path@.subrange(
                0,
                dir_of(org.path@).len() as int,
            ) == dir_of(org.path@)),
        decreases dl - m + (if inside { 1int } else { 0int }),
    {
        if jc[m] != pc[m] {
            proof {
                let d = dir_of(org.path@);
                assert(d.len() == dl as int);
                if d.len() <= j.path@.len() && j.path@.subrange(0, d.len() as int) == d {
                    assert(j.path@.subrange(0, d.len() as int)[m as int] == d[m as int]);
                    assert(d[m as int] == pc@.subrange(0, dl as int)[m as int]);
                    assert(j.path@[m as int] == pc@[m as int]);
                }
            }
            inside = false;
        } else {
            m = m + 1;
        }
    }
    let mut out: Vec<char> = Vec::new();
    if inside {
        proof {
            assert(m == dl);
            assert(dl <= j.path@.len());
            assert forall|k: int| 0 <= k < dl implies j.path@.subrange(0, dl as int)[k] == dir_of(
                org.path@,
            )[k] by {
                assert(jc@[k] == pc@[k]);
                assert(pc@.subrange(0, dl as int)[k] == pc@[k]);
            }
            assert(j.path@.subrange(0, dl as int) =~= dir_of(org.path@));
        }
        let mut k: usize = dl;
        while k < jc.len()
            invariant
                dl <= k <= jc.len(),
                jc@ == j.path@,
                dir_of(org.path@).len() == dl as int,
                out@ == j.path@.subrange(dl as int, k as int),
            decreases jc.len() - k,
        {
            out.push(jc[k]);
            assert(out@ =~= j.path@.subrange(dl as int, k + 1));
            k = k + 1;
        }
        assert(out@ =~= j.path@.skip(dir_of(org.path@).len() as int));
        push_frag(&mut out, &j.fragment);
        Some((text::chars_to_string(&out), true))
    } else {
        let mut jc2 = text::to_chars(j.path.as_str());
        out.append(&mut jc2);
        push_frag(&mut out, &j.fragment);
        assert(out@ =~= j.path@ + frag_suffix(j@.fragment));
        Some((text::chars_to_string(&out), false))
    }
}

/// Resolves `href` against the page at `org` and rewrites it for a move:
/// the new link text, and whether the target is a descendant of the
/// origin (and so moves along with it).  Nothing when the URL machinery
/// cannot resolve the link; the caller then leaves the link untouched.
pub fn href_move(org: &Loc, href: &str) -> (r: Option<(String, bool)>)
    ensures
        (r matches Some((s, b)) ==> resolve_spec(org@, href@) == Some((s@, b))),
        (r is None ==> resolve_spec(org@, href@) is None),
{
    match url_join(org.serial.as_str(), href) {
        Some(j) => classify_exec(org, &j),
        None => None,
    }
}

} // verus!
