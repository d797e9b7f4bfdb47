use vstd::prelude::*;
use crate::jsontext::{self, lit_at};
use crate::link::{self, Loc, LocV};
use crate::text;

verus! {

// ------------------------------------------------------------------
// escape-aware search
// ------------------------------------------------------------------

/// First occurrence of `pat` at or after `from`.
pub open spec fn find_at(s: Seq<char>, from: int, pat: Seq<char>) -> Option<int>
    decreases s.len() - from,
    when from >= 0 && pat.len() >= 1
{
    if from + pat.len() > s.len() {
        None
    } else if lit_at(s, from, pat) {
        Some(from)
    } else {
        find_at(s, from + 1, pat)
    }
}

pub proof fn lemma_find_at_bounds(s: Seq<char>, from: int, pat: Seq<char>)
    requires
        from >= 0,
        pat.len() >= 1,
    ensures
        (find_at(s, from, pat) matches Some(p) ==> from <= p && p + pat.len() <= s.len()
            && lit_at(s, p, pat)),
    decreases s.len() - from,
{
    if from + pat.len() <= s.len() && !lit_at(s, from, pat) {
        lemma_find_at_bounds(s, from + 1, pat);
    }
}

/// Number of consecutive backslashes immediately before `p`, counting no
/// further back than `lo`: the window in which an escape can reach.
pub open spec fn bs_run(s: Seq<char>, lo: int, p: int) -> int
    decreases p - lo,
    when lo <= p
{
    if p <= lo || p > s.len() || s[p - 1] != '\\' {
        0
    } else {
        1 + bs_run(s, lo, p - 1)
    }
}

/// First occurrence of `pat` at or after `from` that is not escaped: an
/// occurrence is skipped when an odd number of consecutive backslashes
/// stands right before it (an even number means literal backslashes).
/// The count starts afresh after each skipped occurrence.  Returns the
/// occurrence's start and end.
pub open spec fn pos_not_escaped_spec(s: Seq<char>, from: int, pat: Seq<char>) -> Option<
    (int, int),
>
    decreases s.len() - from,
    when from >= 0 && pat.len() >= 1
    via pos_not_escaped_dec
{
    match find_at(s, from, pat) {
        None => None,
        Some(p) => {
            if bs_run(s, from, p) % 2 == 1 {
                pos_not_escaped_spec(s, p + pat.len() as int, pat)
            } else {
                Some((p, p + pat.len() as int))
            }
        },
    }
}

#[via_fn]
proof fn pos_not_escaped_dec(s: Seq<char>, from: int, pat: Seq<char>) {
    lemma_find_at_bounds(s, from, pat);
}

pub proof fn lemma_pos_not_escaped_bounds(s: Seq<char>, from: int, pat: Seq<char>)
    requires
        from >= 0,
        pat.len() >= 1,
    ensures
        (pos_not_escaped_spec(s, from, pat) matches Some(r) ==> from <= r.0 && r.1 == r.0
            + pat.len() && r.1 <= s.len()),
    decreases s.len() - from,
{
    lemma_find_at_bounds(s, from, pat);
    if let Some(p) = find_at(s, from, pat) {
        if bs_run(s, from, p) % 2 == 1 {
            lemma_pos_not_escaped_bounds(s, p + pat.len() as int, pat);
        }
    }
}

/// First occurrence of `pat` at or after `from`, mirroring `find_at`.
fn find_at_exec(s: &Vec<char>, from: usize, pat: &Vec<char>) -> (r: Option<usize>)
    requires
        from <= s.len(),
        pat.len() >= 1,
    ensures
        match r {
            Some(p) => find_at(s@, from as int, pat@) == Some(p as int) && from <= p && p
                + pat.len() <= s.len(),
            None => find_at(s@, from as int, pat@) is None,
        },
{
    let mut i: usize = from;
    loop
        invariant
            from <= i <= s.len(),
            pat.len() >= 1,
            find_at(s@, from as int, pat@) == find_at(s@, i as int, pat@),
        decreases s.len() - i,
    {
        if s.len() - i < pat.len() {
            return None;
        }
        match jsontext::skip_lit(s, i, pat) {
            Some(_) => {
                assert(find_at(s@, i as int, pat@) == Some(i as int));
                return Some(i);
            }
            None => {
                i = i + 1;
            }
        }
    }
}

/// Counts the backslashes immediately before `p`, not reaching back past
/// `lo`; mirrors `bs_run`.
fn bs_count(s: &Vec<char>, lo: usize, p: usize) -> (r: usize)
    requires
        lo <= p <= s.len(),
    ensures
        r == bs_run(s@, lo as int, p as int),
{
    let mut q = p;
    let mut n: usize = 0;
    while q > lo && s[q - 1] == '\\'
        invariant
            lo <= q <= p <= s.len(),
            n == p - q,
            bs_run(s@, lo as int, p as int) == n + bs_run(s@, lo as int, q as int),
        decreases q,
    {
        q = q - 1;
        n = n + 1;
    }
    n
}

/// First non-escaped occurrence of `pat` at or after `from`, mirroring
/// `pos_not_escaped_spec`.
pub fn pos_not_escaped(s: &Vec<char>, from: usize, pat: &Vec<char>) -> (r: Option<(usize, usize)>)
    requires
        from <= s.len(),
        pat.len() >= 1,
    ensures
        match r {
            Some((p, e)) => pos_not_escaped_spec(s@, from as int, pat@) == Some(
                (p as int, e as int),
            ) && from <= p && e == p + pat.len() && e <= s.len(),
            None => pos_not_escaped_spec(s@, from as int, pat@) is None,
        },
{
    let mut i: usize = from;
    loop
        invariant
            from <= i <= s.len(),
            pat.len() >= 1,
            pos_not_escaped_spec(s@, from as int, pat@) == pos_not_escaped_spec(
                s@,
                i as int,
                pat@,
            ),
        decreases s.len() - i,
    {
        let p = match find_at_exec(s, i, pat) {
            Some(p) => p,
            None => {
                return None;
            }
        };
        let n = bs_count(s, i, p);
        if n % 2 == 1 {
            i = p + pat.len();
        } else {
            return Some((p, p + pat.len()));
        }
    }
}

// ------------------------------------------------------------------
// finding the href attribute
// ------------------------------------------------------------------

/// A whitespace character, as the attribute scan tolerates it around the
/// assignment operator: the ASCII whitespace plus the other characters
/// with the Unicode White_Space property.
pub open spec fn is_ws(c: char) -> bool {
    ||| c == ' '
    ||| c == '\t'
    ||| c == '\n'
    ||| c == '\u{b}'
    ||| c == '\u{c}'
    ||| c == '\r'
    ||| c == '\u{85}'
    ||| c == '\u{a0}'
    ||| c == '\u{1680}'
    ||| (0x2000 <= c as u32 && c as u32 <= 0x200a)
    ||| c == '\u{2028}'
    ||| c == '\u{2029}'
    ||| c == '\u{202f}'
    ||| c == '\u{205f}'
    ||| c == '\u{3000}'
}

/// Decides `is_ws`.
pub fn is_ws_char(c: char) -> (r: bool)
    ensures
        r == is_ws(c),
{
    let n = c as u32;
    n == 0x20 || n == 0x9 || n == 0xa || n == 0xb || n == 0xc || n == 0xd || n == 0x85 || n == 0xa0
        || n == 0x1680 || (0x2000 <= n && n <= 0x200a) || n == 0x2028 || n == 0x2029 || n == 0x202f
        || n == 0x205f || n == 0x3000
}

/// First index at or after `k` that does not hold whitespace.
pub open spec fn ws_end(s: Seq<char>, k: int) -> int
    decreases s.len() - k,
    when k >= 0
{
    if k >= s.len() || !is_ws(s[k]) {
        k
    } else {
        ws_end(s, k + 1)
    }
}

pub proof fn lemma_ws_end_bounds(s: Seq<char>, k: int)
    requires
        0 <= k,
    ensures
        k <= ws_end(s, k) <= if k <= s.len() { s.len() as int } else { k },
    decreases s.len() - k,
{
    if k < s.len() && is_ws(s[k]) {
        lemma_ws_end_bounds(s, k + 1);
    }
}

/// The attribute-assignment shape starting at `m`: optional whitespace,
/// `href` in any letter case, optional whitespace, `=`, optional
/// whitespace, and a single or double quote.  Yields the position just
/// past the quote and the quote character itself.
pub open spec fn match_href_at(s: Seq<char>, m: int) -> Option<(int, char)> {
    let k = ws_end(s, m);
    if k + 4 <= s.len() && (s[k] == 'h' || s[k] == 'H') && (s[k + 1] == 'r' || s[k + 1] == 'R') && (
    s[k + 2] == 'e' || s[k + 2] == 'E') && (s[k + 3] == 'f' || s[k + 3] == 'F') {
        let e1 = ws_end(s, k + 4);
        if e1 < s.len() && s[e1] == '=' {
            let e2 = ws_end(s, e1 + 1);
            if e2 < s.len() && (s[e2] == '"' || s[e2] == '\'') {
                Some((e2 + 1, s[e2]))
            } else {
                None
            }
        } else {
            None
        }
    } else {
        None
    }
}

pub proof fn lemma_match_href_bounds(s: Seq<char>, m: int)
    requires
        0 <= m <= s.len(),
    ensures
        (match_href_at(s, m) matches Some(r) ==> m < r.0 <= s.len()),
{
    lemma_ws_end_bounds(s, m);
    let k = ws_end(s, m);
    if k + 4 <= s.len() {
        lemma_ws_end_bounds(s, k + 4);
        let e1 = ws_end(s, k + 4);
        if e1 < s.len() {
            lemma_ws_end_bounds(s, e1 + 1);
        }
    }
}

/// Start of the first attribute-assignment shape at or after `from`: the
/// earliest position where the shape matches (so a run of whitespace in
/// front of `href` belongs to the match).
pub open spec fn find_href(s: Seq<char>, from: int) -> Option<(int, int, char)>
    decreases s.len() - from,
    when from >= 0
{
    if from >= s.len() {
        None
    } else {
        match match_href_at(s, from) {
            Some((q1_end, quote)) => Some((from, q1_end, quote)),
            None => find_href(s, from + 1),
        }
    }
}

pub proof fn lemma_find_href_bounds(s: Seq<char>, from: int)
    requires
        0 <= from,
    ensures
        (find_href(s, from) matches Some(r) ==> from <= r.0 && r.0 < r.1 <= s.len()),
    decreases s.len() - from,
{
    if from < s.len() {
        lemma_match_href_bounds(s, from);
        if match_href_at(s, from) is None {
            lemma_find_href_bounds(s, from + 1);
        }
    }
}

/// First index at or after `k` without whitespace, mirroring `ws_end`.
fn ws_end_exec(s: &Vec<char>, k: usize) -> (r: usize)
    requires
        k <= s.len(),
    ensures
        r == ws_end(s@, k as int),
        k <= r <= s.len(),
{
    let mut i = k;
    while i < s.len() && is_ws_char(s[i])
        invariant
            k <= i <= s.len(),
            ws_end(s@, k as int) == ws_end(s@, i as int),
        decreases s.len() - i,
    {
        i = i + 1;
    }
    i
}

/// The attribute-assignment shape at `m`, mirroring `match_href_at`.
fn match_href_exec(s: &Vec<char>, m: usize) -> (r: Option<(usize, char)>)
    requires
        m <= s.len(),
    ensures
        match r {
            Some((q, c)) => match_href_at(s@, m as int) == Some((q as int, c)) && m < q <= s.len(),
            None => match_href_at(s@, m as int) is None,
        },
{
    proof {
        lemma_match_href_bounds(s@, m as int);
    }
    let k = ws_end_exec(s, m);
    if !(s.len() - k >= 4 && (s[k] == 'h' || s[k] == 'H') && (s[k + 1] == 'r' || s[k + 1] == 'R')
        && (s[k + 2] == 'e' || s[k + 2] == 'E') && (s[k + 3] == 'f' || s[k + 3] == 'F')) {
        return None;
    }
    let e1 = ws_end_exec(s, k + 4);
    if !(e1 < s.len() && s[e1] == '=') {
        return None;
    }
    let e2 = ws_end_exec(s, e1 + 1);
    if !(e2 < s.len() && (s[e2] == '"' || s[e2] == '\'')) {
        return None;
    }
    Some((e2 + 1, s[e2]))
}

/// First attribute-assignment shape at or after `from`, mirroring
/// `find_href`.
fn find_href_exec(s: &Vec<char>, from: usize) -> (r: Option<(usize, usize, char)>)
    requires
        from <= s.len(),
    ensures
        match r {
            Some((hs, q, c)) => find_href(s@, from as int) == Some((hs as int, q as int, c))
                && from <= hs && hs < q <= s.len(),
            None => find_href(s@, from as int) is None,
        },
{
    let mut i = from;
    loop
        invariant
            from <= i <= s.len(),
            find_href(s@, from as int) == find_href(s@, i as int),
        decreases s.len() - i,
    {
        if i == s.len() {
            return None;
        }
        match match_href_exec(s, i) {
            Some((q, c)) => {
                return Some((i, q, c));
            }
            None => {
                i = i + 1;
            }
        }
    }
}

// ------------------------------------------------------------------
// locating a rewritable link
// ------------------------------------------------------------------

/// Positions of the next rewritable link at or after `from`: the start of
/// the matched attribute text, its end (just past the closing quote), and
/// the start and end of the quoted value.  The tag open `<a` and the
/// closing quote must both be unescaped; the attribute shape is searched
/// anywhere after the tag open.
pub open spec fn href_pos_spec(s: Seq<char>, from: int) -> Option<(int, int, int, int)> {
    match pos_not_escaped_spec(s, from, seq!['<', 'a']) {
        None => None,
        Some((_a_start, a_end)) => match find_href(s, a_end) {
            None => None,
            Some((href_start, q1_end, quote)) => match pos_not_escaped_spec(
                s,
                q1_end,
                seq![quote],
            ) {
                None => None,
                Some((q2_start, q2_end)) => Some((href_start, q2_end, q1_end, q2_start)),
            },
        },
    }
}

pub proof fn lemma_href_pos_bounds(s: Seq<char>, from: int)
    requires
        0 <= from,
    ensures
        (href_pos_spec(s, from) matches Some(r) ==> {
            let (hs, he, vs, ve) = r;
            from < hs && hs < vs <= ve && ve < he && he <= s.len()
        }),
{
    lemma_pos_not_escaped_bounds(s, from, seq!['<', 'a']);
    if let Some((_a_start, a_end)) = pos_not_escaped_spec(s, from, seq!['<', 'a']) {
        lemma_find_href_bounds(s, a_end);
        if let Some((href_start, q1_end, quote)) = find_href(s, a_end) {
            lemma_pos_not_escaped_bounds(s, q1_end, seq![quote]);
        }
    }
}

/// Finds the next rewritable link, mirroring `href_pos_spec`.
pub fn href_pos(s: &Vec<char>, from: usize) -> (r: Option<(usize, usize, usize, usize)>)
    requires
        from <= s.len(),
    ensures
        match r {
            Some((hs, he, vs, ve)) => href_pos_spec(s@, from as int) == Some(
                (hs as int, he as int, vs as int, ve as int),
            ) && from < hs && hs < vs <= ve && ve < he && he <= s.len(),
            None => href_pos_spec(s@, from as int) is None,
        },
{
    proof {
        lemma_href_pos_bounds(s@, from as int);
    }
    let tag: Vec<char> = vec!['<', 'a'];
    assert(tag@ =~= seq!['<', 'a']);
    let (_a_start, a_end) = match pos_not_escaped(s, from, &tag) {
        Some(v) => v,
        None => {
            return None;
        }
    };
    let (href_start, q1_end, quote) = match find_href_exec(s, a_end) {
        Some(v) => v,
        None => {
            return None;
        }
    };
    let qpat: Vec<char> = vec![quote];
    assert(qpat@ =~= seq![quote]);
    let (q2_start, q2_end) = match pos_not_escaped(s, q1_end, &qpat) {
        Some(v) => v,
        None => {
            return None;
        }
    };
    Some((href_start, q2_end, q1_end, q2_start))
}

// ------------------------------------------------------------------
// rewriting the links of a content text
// ------------------------------------------------------------------

/// The replacement written over a matched attribute: a space, the
/// attribute name, and the new value between double quotes.
pub open spec fn repl_of(h: Seq<char>) -> Seq<char> {
    seq![' ', 'h', 'r', 'e', 'f', '=', '"'] + h + seq!['"']
}

/// One pass of the content rewriter over `s` from `idx` on: each
/// rewritable link whose target resolves is replaced through the link
/// resolver; one that does not resolve is left as it stands and the scan
/// resumes past its value.
pub open spec fn rewrite_spec(s: Seq<char>, idx: int, org: LocV) -> Seq<char>
    decreases s.len() - idx,
    when 0 <= idx
    via rewrite_spec_dec
{
    if s.len() <= idx {
        s
    } else {
        match href_pos_spec(s, idx) {
            None => s,
            Some((hs, he, vs, ve)) => match link::resolve_spec(org, s.subrange(vs, ve)) {
                None => rewrite_spec(s, ve, org),
                Some((h, _is_child)) => {
                    let repl = repl_of(h);
                    let s2 = s.subrange(0, hs) + repl + s.skip(he);
                    rewrite_spec(s2, hs + repl.len() as int, org)
                },
            },
        }
    }
}

#[via_fn]
proof fn rewrite_spec_dec(s: Seq<char>, idx: int, org: LocV) {
    lemma_href_pos_bounds(s, idx);
}

/// Rewrites every well-formed link of `content` for a page moving from
/// `org`, exactly as `rewrite_spec` says.
pub fn rewrite_content(content: &str, org: &Loc) -> (r: String)
    ensures
        r@ == rewrite_spec(content@, 0, org@),
{
    let mut s = text::to_chars(content);
    let mut idx: usize = 0;
    loop
        invariant
            idx <= s.len(),
            rewrite_spec(content@, 0, org@) == rewrite_spec(s@, idx as int, org@),
        decreases s.len() - idx,
    {
        if s.len() <= idx {
            return text::chars_to_string(&s);
        }
        let (hs, he, vs, ve) = match href_pos(&s, idx) {
            Some(v) => v,
            None => {
                return text::chars_to_string(&s);
            }
        };
        // the value of the matched attribute
        let mut value: Vec<char> = Vec::new();
        let mut k = vs;
        while k < ve
            invariant
                vs <= k <= ve <= s.len(),
                value@ == s@.subrange(vs as int, k as int),
            decreases ve - k,
        {
            value.push(s[k]);
            assert(value@ =~= s@.subrange(vs as int, k + 1));
            k = k + 1;
        }
        let value_str = text::chars_to_string(&value);
        match link::href_move(org, value_str.as_str()) {
            None => {
                idx = ve;
            }
            Some((h, _is_child)) => {
                let mut s2: Vec<char> = Vec::new();
                let mut k2: usize = 0;
                while k2 < hs
                    invariant
                        k2 <= hs <= s.len(),
                        s2@ == s@.subrange(0, k2 as int),
                    decreases hs - k2,
                {
                    s2.push(s[k2]);
                    assert(s2@ =~= s@.subrange(0, k2 + 1));
                    k2 = k2 + 1;
                }
                let mut repl: Vec<char> = vec![' ', 'h', 'r', 'e', 'f', '=', '"'];
                let mut hc = text::to_chars(h.as_str());
                repl.append(&mut hc);
                repl.push('"');
                assert(repl@ =~= repl_of(h@));
                s2.append(&mut repl);
                let new_idx = s2.len();
                let mut k3 = he;
                while k3 < s.len()
                    invariant
                        he <= k3 <= s.len(),
                        s2@ == s@.subrange(0, hs as int) + repl_of(h@) + s@.subrange(
                            he as int,
                            k3 as int,
                        ),
                        new_idx == hs + repl_of(h@).len(),
                        hs <= s.len(),
                    decreases s.len() - k3,
                {
                    s2.push(s[k3]);
                    assert(s2@ =~= s@.subrange(0, hs as int) + repl_of(h@) + s@.subrange(
                        he as int,
                        k3 + 1,
                    ));
                    k3 = k3 + 1;
                }
                proof {
                    assert(s@.subrange(he as int, s@.len() as int) =~= s@.skip(he as int));
                }
                s = s2;
                idx = new_idx;
            }
        }
    }
}

} // verus!
