use vstd::prelude::*;
use crate::codec::{self, lemma_lit_first, lemma_lit_split, ser_doc};
use crate::jsontext::{self, lit_at};
use crate::doc::{Document, DocV};
use crate::text;

verus! {

// ------------------------------------------------------------------
// the fixed shell around the embedded document
// ------------------------------------------------------------------

/// Opening of the page up to the title text.
pub open spec fn head1() -> Seq<char> {
    "<!DOCTYPE html><html><head><title>"@
}

/// From the end of the title text up to the hidden span that carries the
/// document, inclusive of the span's opening tag.
pub open spec fn head2() -> Seq<char> {
    "</title><meta charset=\"UTF-8\"></meta><script src=\"/wc.js\"></script>\n    <link rel=\"stylesheet\" href=\"/wc.css\"></link>\n    <style type=\"text/css\"></style>\n</head><body onload=\"bodyOnload()\"><span id=\"page_json_str\" style=\"display: none\">"@
}

pub open spec fn close_span() -> Seq<char> {
    "</span>"@
}

pub open spec fn page_tail() -> Seq<char> {
    close_span() + "</body></html>\n"@
}

// ------------------------------------------------------------------
// escaping of text placed inside the page
// ------------------------------------------------------------------

/// HTML escape of one character: the markup characters become entities,
/// everything else stands for itself.
pub open spec fn esc_html_char(c: char) -> Seq<char> {
    if c == '&' {
        seq!['&', 'a', 'm', 'p', ';']
    } else if c == '<' {
        seq!['&', 'l', 't', ';']
    } else if c == '>' {
        seq!['&', 'g', 't', ';']
    } else {
        seq![c]
    }
}

pub open spec fn esc_html(s: Seq<char>) -> Seq<char>
    decreases s.len(),
{
    if s.len() == 0 {
        Seq::empty()
    } else {
        esc_html_char(s[0]) + esc_html(s.drop_first())
    }
}

pub proof fn lemma_esc_html_snoc(p: Seq<char>, c: char)
    ensures
        esc_html(p.push(c)) == esc_html(p) + esc_html_char(c),
    decreases p.len(),
{
    if p.len() == 0 {
        assert(p.push(c).drop_first() =~= Seq::<char>::empty());
        assert(esc_html(Seq::<char>::empty()) == Seq::<char>::empty());
        assert(p.push(c)[0] == c);
        assert(esc_html(p.push(c)) =~= esc_html_char(c));
        assert(esc_html(p) + esc_html_char(c) =~= esc_html_char(c));
    } else {
        assert(p.push(c).drop_first() =~= p.drop_first().push(c));
        lemma_esc_html_snoc(p.drop_first(), c);
        assert(esc_html(p.push(c)) =~= esc_html(p) + esc_html_char(c));
    }
}

/// Escaped text never holds a raw `<`: the search for the shell's own
/// markup can never land inside it.
pub proof fn lemma_esc_html_no_lt(s: Seq<char>)
    ensures
        forall|k: int| 0 <= k < esc_html(s).len() ==> esc_html(s)[k] != '<',
    decreases s.len(),
{
    if s.len() > 0 {
        lemma_esc_html_no_lt(s.drop_first());
        let e = esc_html_char(s[0]);
        assert(forall|k: int| 0 <= k < e.len() ==> e[k] != '<');
        assert(forall|k: int|
            e.len() <= k < esc_html(s).len() ==> esc_html(s)[k] == esc_html(s.drop_first())[k
                - e.len()]);
    }
}

/// Writes the HTML escape of the given text onto `out`.
pub fn push_esc_html(out: &mut Vec<char>, s: &Vec<char>)
    ensures
        final(out)@ == old(out)@ + esc_html(s@),
{
    let mut i: usize = 0;
    assert(out@ =~= old(out)@ + esc_html(s@.subrange(0, 0)));
    while i < s.len()
        invariant
            i <= s.len(),
            out@ == old(out)@ + esc_html(s@.subrange(0, i as int)),
        decreases s.len() - i,
    {
        let c = s[i];
        if c == '&' {
            out.push('&');
            out.push('a');
            out.push('m');
            out.push('p');
            out.push(';');
        } else if c == '<' {
            out.push('&');
            out.push('l');
            out.push('t');
            out.push(';');
        } else if c == '>' {
            out.push('&');
            out.push('g');
            out.push('t');
            out.push(';');
        } else {
            out.push(c);
        }
        proof {
            let p = s@.subrange(0, i as int);
            lemma_esc_html_snoc(p, s@[i as int]);
            assert(p.push(s@[i as int]) =~= s@.subrange(0, i + 1));
            assert(out@ =~= old(out)@ + esc_html(s@.subrange(0, i + 1)));
        }
        i = i + 1;
    }
    assert(s@.subrange(0, s@.len() as int) =~= s@);
}

/// Undoes `esc_html` over the region from `i` to the end of `s`, with `acc`
/// holding what was already read; fails on a stray `&`.
pub open spec fn unesc_rec(s: Seq<char>, i: int, acc: Seq<char>) -> Option<Seq<char>>
    decreases s.len() - i,
    when i >= 0
{
    if i >= s.len() {
        Some(acc)
    } else if s[i] == '&' {
        if lit_at(s, i, seq!['&', 'a', 'm', 'p', ';']) {
            unesc_rec(s, i + 5, acc.push('&'))
        } else if lit_at(s, i, seq!['&', 'l', 't', ';']) {
            unesc_rec(s, i + 4, acc.push('<'))
        } else if lit_at(s, i, seq!['&', 'g', 't', ';']) {
            unesc_rec(s, i + 4, acc.push('>'))
        } else {
            None
        }
    } else {
        unesc_rec(s, i + 1, acc.push(s[i]))
    }
}

pub open spec fn unesc_html(s: Seq<char>) -> Option<Seq<char>> {
    unesc_rec(s, 0, Seq::empty())
}

proof fn lemma_rt_esc_html_rec(v: Seq<char>, s: Seq<char>, i: int, acc: Seq<char>)
    requires
        0 <= i <= s.len(),
        s.skip(i) == esc_html(v),
    ensures
        unesc_rec(s, i, acc) == Some(acc + v),
    decreases v.len(),
{
    if v.len() == 0 {
        assert(s.skip(i).len() == 0);
        assert(i >= s.len());
        assert(acc + v =~= acc);
    } else {
        let c = v[0];
        let e = esc_html_char(c);
        let rest = v.drop_first();
        assert(esc_html(v) == e + esc_html(rest));
        assert forall|k: int| 0 <= k < e.len() implies s[i + k] == e[k] by {
            assert(s.skip(i)[k] == esc_html(v)[k]);
            assert(esc_html(v)[k] == e[k]);
        }
        assert(s.skip(i + e.len()) =~= esc_html(rest)) by {
            assert forall|k: int| 0 <= k < esc_html(rest).len() implies s[i + e.len() + k]
                == esc_html(rest)[k] by {
                assert(s.skip(i)[e.len() + k] == esc_html(v)[e.len() + k]);
            }
        }
        if c == '&' {
            assert(s.subrange(i, i + 5) =~= seq!['&', 'a', 'm', 'p', ';']);
            lemma_rt_esc_html_rec(rest, s, i + 5, acc.push(c));
            assert(acc.push(c) + rest =~= acc + v);
        } else if c == '<' {
            assert(s.subrange(i, i + 4) =~= seq!['&', 'l', 't', ';']);
            assert(!lit_at(s, i, seq!['&', 'a', 'm', 'p', ';'])) by {
                if lit_at(s, i, seq!['&', 'a', 'm', 'p', ';']) {
                    assert(s.subrange(i, i + 5)[1] == 'a');
                    assert(s[i + 1] == 'l');
                }
            }
            lemma_rt_esc_html_rec(rest, s, i + 4, acc.push(c));
            assert(acc.push(c) + rest =~= acc + v);
        } else if c == '>' {
            assert(s.subrange(i, i + 4) =~= seq!['&', 'g', 't', ';']);
            assert(!lit_at(s, i, seq!['&', 'a', 'm', 'p', ';'])) by {
                if lit_at(s, i, seq!['&', 'a', 'm', 'p', ';']) {
                    assert(s.subrange(i, i + 5)[1] == 'a');
                    assert(s[i + 1] == 'g');
                }
            }
            assert(!lit_at(s, i, seq!['&', 'l', 't', ';'])) by {
                if lit_at(s, i, seq!['&', 'l', 't', ';']) {
                    assert(s.subrange(i, i + 4)[1] == 'l');
                    assert(s[i + 1] == 'g');
                }
            }
            lemma_rt_esc_html_rec(rest, s, i + 4, acc.push(c));
            assert(acc.push(c) + rest =~= acc + v);
        } else {
            assert(s.subrange(i, i + 1) =~= seq![c]);
            assert(s[i] == c) by {
                assert(s.subrange(i, i + 1)[0] == c);
            }
            lemma_rt_esc_html_rec(rest, s, i + 1, acc.push(c));
            assert(acc.push(c) + rest =~= acc + v);
        }
    }
}

/// Unescaping an escaped text yields the text back.
pub proof fn lemma_rt_esc_html(v: Seq<char>)
    ensures
        unesc_html(esc_html(v)) == Some(v),
{
    let s = esc_html(v);
    assert(s.skip(0) =~= s);
    lemma_rt_esc_html_rec(v, s, 0, Seq::empty());
    assert(Seq::empty() + v =~= v);
}

/// Undoes `esc_html` over a whole vector, mirroring `unesc_html`.
pub fn unescape_html(s: &Vec<char>) -> (r: Option<Vec<char>>)
    ensures
        match r {
            Some(v) => unesc_html(s@) == Some(v@),
            None => unesc_html(s@) is None,
        },
{
    let mut acc: Vec<char> = Vec::new();
    let mut i: usize = 0;
    assert(acc@ =~= Seq::<char>::empty());
    loop
        invariant
            0 <= i <= s.len(),
            unesc_html(s@) == unesc_rec(s@, i as int, acc@),
        decreases s.len() - i,
    {
        if i == s.len() {
            return Some(acc);
        }
        let c = s[i];
        if c == '&' {
            if s.len() - i >= 5 && s[i + 1] == 'a' && s[i + 2] == 'm' && s[i + 3] == 'p' && s[i
                + 4] == ';' {
                proof {
                    assert(s@.subrange(i as int, i + 5) =~= seq!['&', 'a', 'm', 'p', ';']);
                }
                acc.push('&');
                i = i + 5;
            } else if s.len() - i >= 4 && s[i + 1] == 'l' && s[i + 2] == 't' && s[i + 3] == ';' {
                proof {
                    assert(s@.subrange(i as int, i + 4) =~= seq!['&', 'l', 't', ';']);
                    assert(!lit_at(s@, i as int, seq!['&', 'a', 'm', 'p', ';'])) by {
                        if lit_at(s@, i as int, seq!['&', 'a', 'm', 'p', ';']) {
                            assert(s@.subrange(i as int, i + 5)[1] == 'a');
                        }
                    }
                }
                acc.push('<');
                i = i + 4;
            } else if s.len() - i >= 4 && s[i + 1] == 'g' && s[i + 2] == 't' && s[i + 3] == ';' {
                proof {
                    assert(s@.subrange(i as int, i + 4) =~= seq!['&', 'g', 't', ';']);
                    assert(!lit_at(s@, i as int, seq!['&', 'a', 'm', 'p', ';'])) by {
                        if lit_at(s@, i as int, seq!['&', 'a', 'm', 'p', ';']) {
                            assert(s@.subrange(i as int, i + 5)[1] == 'a');
                        }
                    }
                    assert(!lit_at(s@, i as int, seq!['&', 'l', 't', ';'])) by {
                        if lit_at(s@, i as int, seq!['&', 'l', 't', ';']) {
                            assert(s@.subrange(i as int, i + 4)[1] == 'l');
                        }
                    }
                }
                acc.push('>');
                i = i + 4;
            } else {
                proof {
                    assert(!lit_at(s@, i as int, seq!['&', 'a', 'm', 'p', ';'])) by {
                        if lit_at(s@, i as int, seq!['&', 'a', 'm', 'p', ';']) {
                            assert(s@.subrange(i as int, i + 5)[1] == 'a');
                            assert(s@.subrange(i as int, i + 5)[2] == 'm');
                            assert(s@.subrange(i as int, i + 5)[3] == 'p');
                            assert(s@.subrange(i as int, i + 5)[4] == ';');
                        }
                    }
                    assert(!lit_at(s@, i as int, seq!['&', 'l', 't', ';'])) by {
                        if lit_at(s@, i as int, seq!['&', 'l', 't', ';']) {
                            assert(s@.subrange(i as int, i + 4)[1] == 'l');
                            assert(s@.subrange(i as int, i + 4)[2] == 't');
                            assert(s@.subrange(i as int, i + 4)[3] == ';');
                        }
                    }
                    assert(!lit_at(s@, i as int, seq!['&', 'g', 't', ';'])) by {
                        if lit_at(s@, i as int, seq!['&', 'g', 't', ';']) {
                            assert(s@.subrange(i as int, i + 4)[1] == 'g');
                            assert(s@.subrange(i as int, i + 4)[2] == 't');
                            assert(s@.subrange(i as int, i + 4)[3] == ';');
                        }
                    }
                }
                return None;
            }
        } else {
            acc.push(c);
            i = i + 1;
        }
    }
}

// ------------------------------------------------------------------
// locating the shell's markup
// ------------------------------------------------------------------

/// Position of the first `<` at or after `from`.
pub open spec fn first_lt(s: Seq<char>, from: int) -> Option<int>
    decreases s.len() - from,
    when from >= 0
{
    if from >= s.len() {
        None
    } else if s[from] == '<' {
        Some(from)
    } else {
        first_lt(s, from + 1)
    }
}

proof fn lemma_first_lt_found(s: Seq<char>, from: int, p: int)
    requires
        0 <= from <= p < s.len(),
        s[p] == '<',
        forall|k: int| from <= k < p ==> s[k] != '<',
    ensures
        first_lt(s, from) == Some(p),
    decreases p - from,
{
    if from < p {
        lemma_first_lt_found(s, from + 1, p);
    }
}

/// Finds the first `<` at or after `from`, mirroring `first_lt`.
fn find_lt(s: &Vec<char>, from: usize) -> (r: Option<usize>)
    requires
        from <= s.len(),
    ensures
        match r {
            Some(p) => first_lt(s@, from as int) == Some(p as int) && from <= p < s.len(),
            None => first_lt(s@, from as int) is None,
        },
{
    let mut i: usize = from;
    while i < s.len()
        invariant
            from <= i <= s.len(),
            first_lt(s@, from as int) == first_lt(s@, i as int),
        decreases s.len() - i,
    {
        if s[i] == '<' {
            return Some(i);
        }
        i = i + 1;
    }
    None
}

// ------------------------------------------------------------------
// the page as a whole
// ------------------------------------------------------------------

/// A page's full text: the fixed shell with the escaped title and the
/// escaped document JSON embedded in it.
pub open spec fn ser_page(d: DocV) -> Seq<char> {
    head1() + esc_html(d.title) + head2() + esc_html(ser_doc(d)) + page_tail()
}

/// The document carried by a page text, if the text has the expected
/// shape: the shell's head, a title without raw `<`, the hidden span,
/// its escaped JSON, and the span's closing tag.
pub open spec fn page_doc(s: Seq<char>) -> Option<DocV> {
    if !lit_at(s, 0, head1()) {
        None
    } else {
        match first_lt(s, head1().len() as int) {
            None => None,
            Some(t) => if !lit_at(s, t, head2()) {
                None
            } else {
                match first_lt(s, t + head2().len()) {
                    None => None,
                    Some(j) => if !lit_at(s, j, close_span()) {
                        None
                    } else {
                        match unesc_html(s.subrange(t + head2().len() as int, j)) {
                            None => None,
                            Some(json) => match codec::parse_doc_at(json, 0) {
                                Some((d, k)) => if k == json.len() {
                                    Some(d)
                                } else {
                                    None
                                },
                                None => None,
                            },
                        }
                    },
                }
            },
        }
    }
}

/// Positions of the shell pieces inside a serialized page.
proof fn lemma_page_layout(d: DocV)
    ensures
        ({
            let s = ser_page(d);
            let t = head1().len() + esc_html(d.title).len() as int;
            let j = t + head2().len() + esc_html(ser_doc(d)).len() as int;
            &&& lit_at(s, 0, head1())
            &&& lit_at(s, head1().len() as int, esc_html(d.title))
            &&& lit_at(s, t, head2())
            &&& lit_at(s, t + head2().len() as int, esc_html(ser_doc(d)))
            &&& lit_at(s, j, close_span())
            &&& j + page_tail().len() == s.len()
        }),
{
    let s = ser_page(d);
    let et = esc_html(d.title);
    let ej = esc_html(ser_doc(d));
    let r1 = et + (head2() + (ej + page_tail()));
    assert(s =~= head1() + r1);
    assert(s.subrange(0, s.len() as int) =~= s);
    lemma_lit_split(s, 0, head1(), r1);
    let t = head1().len() + et.len() as int;
    let r2 = head2() + (ej + page_tail());
    lemma_lit_split(s, head1().len() as int, et, r2);
    lemma_lit_split(s, t, head2(), ej + page_tail());
    let j = t + head2().len() + ej.len() as int;
    lemma_lit_split(s, t + head2().len() as int, ej, page_tail());
    lemma_lit_split(s, j, close_span(), "</body></html>\n"@);
}

/// A region of the page known not to hold `<`, bounded by a `<`, pins the
/// first `<` after its start.
proof fn lemma_first_lt_region(s: Seq<char>, from: int, p: int, body: Seq<char>)
    requires
        0 <= from,
        p == from + body.len(),
        lit_at(s, from, body),
        forall|k: int| 0 <= k < body.len() ==> body[k] != '<',
        p < s.len(),
        s[p] == '<',
    ensures
        first_lt(s, from) == Some(p),
{
    assert forall|k: int| from <= k < p implies s[k] != '<' by {
        assert(s.subrange(from, from + body.len() as int)[k - from] == body[k - from]);
    }
    lemma_first_lt_found(s, from, p);
}

/// Round trip: the document extracted from a serialized page is the
/// document the page was written from.
#[verifier::rlimit(100)]
pub proof fn lemma_page_round_trip(d: DocV)
    ensures
        page_doc(ser_page(d)) == Some(d),
{
    let s = ser_page(d);
    let et = esc_html(d.title);
    let ej = esc_html(ser_doc(d));
    let t = head1().len() + et.len() as int;
    let j = t + head2().len() + ej.len() as int;
    lemma_page_layout(d);
    assert(first_lt(s, head1().len() as int) == Some(t)) by {
        lemma_esc_html_no_lt(d.title);
        assert(s[t] == '<') by {
            reveal_strlit("</title><meta charset=\"UTF-8\"></meta><script src=\"/wc.js\"></script>\n    <link rel=\"stylesheet\" href=\"/wc.css\"></link>\n    <style type=\"text/css\"></style>\n</head><body onload=\"bodyOnload()\"><span id=\"page_json_str\" style=\"display: none\">");
            lemma_lit_first(s, t, head2());
        }
        assert(t < s.len()) by {
            reveal_strlit("</span>");
            assert(lit_at(s, j, close_span()));
        }
        lemma_first_lt_region(s, head1().len() as int, t, et);
    }
    assert(first_lt(s, t + head2().len() as int) == Some(j)) by {
        lemma_esc_html_no_lt(ser_doc(d));
        assert(s[j] == '<') by {
            reveal_strlit("</span>");
            lemma_lit_first(s, j, close_span());
        }
        assert(j < s.len()) by {
            reveal_strlit("</span>");
            assert(lit_at(s, j, close_span()));
        }
        lemma_first_lt_region(s, t + head2().len() as int, j, ej);
    }
    assert(s.subrange(t + head2().len() as int, j) =~= ej) by {
        assert(lit_at(s, t + head2().len() as int, ej));
    }
    lemma_rt_esc_html(ser_doc(d));
    assert(ser_doc(d).subrange(0, ser_doc(d).len() as int) =~= ser_doc(d));
    codec::lemma_rt_doc(d, ser_doc(d), 0);
}

// ------------------------------------------------------------------
// executable serialization and extraction
// ------------------------------------------------------------------

/// Builds the full page text that stores the given document.
pub fn source_from_document(d: &Document) -> (s: String)
    ensures
        s@ == ser_page(d@),
{
    let mut out: Vec<char> = Vec::new();
    let mut h1 = text::to_chars("<!DOCTYPE html><html><head><title>");
    out.append(&mut h1);
    let title = text::to_chars(d.title.as_str());
    push_esc_html(&mut out, &title);
    let mut h2 = text::to_chars("</title><meta charset=\"UTF-8\"></meta><script src=\"/wc.js\"></script>\n    <link rel=\"stylesheet\" href=\"/wc.css\"></link>\n    <style type=\"text/css\"></style>\n</head><body onload=\"bodyOnload()\"><span id=\"page_json_str\" style=\"display: none\">");
    out.append(&mut h2);
    let mut json: Vec<char> = Vec::new();
    codec::push_doc(&mut json, d);
    push_esc_html(&mut out, &json);
    let mut tl = text::to_chars("</span></body></html>\n");
    out.append(&mut tl);
    proof {
        assert(page_tail() =~= "</span></body></html>\n"@) by {
            reveal_strlit("</span>");
            reveal_strlit("</body></html>\n");
            reveal_strlit("</span></body></html>\n");
        }
        assert(out@ =~= ser_page(d@));
    }
    text::chars_to_string(&out)
}

/// Extracts the embedded document from a page text, mirroring `page_doc`.
/// The returned document's dirty flag is clear.
pub fn document_from_source(src: &str) -> (r: Option<Document>)
    ensures
        match r {
            Some(d) => page_doc(src@) == Some(d@) && !d.may_changed,
            None => page_doc(src@) is None,
        },
{
    let s = text::to_chars(src);
    let h1 = text::to_chars("<!DOCTYPE html><html><head><title>");
    if jsontext::skip_lit(&s, 0, &h1).is_none() {
        return None;
    }
    let t = match find_lt(&s, h1.len()) {
        Some(t) => t,
        None => {
            return None;
        }
    };
    let h2 = text::to_chars("</title><meta charset=\"UTF-8\"></meta><script src=\"/wc.js\"></script>\n    <link rel=\"stylesheet\" href=\"/wc.css\"></link>\n    <style type=\"text/css\"></style>\n</head><body onload=\"bodyOnload()\"><span id=\"page_json_str\" style=\"display: none\">");
    let after_h2 = match jsontext::skip_lit(&s, t, &h2) {
        Some(p) => p,
        None => {
            return None;
        }
    };
    let j = match find_lt(&s, after_h2) {
        Some(j) => j,
        None => {
            return None;
        }
    };
    let cs = text::to_chars("</span>");
    if jsontext::skip_lit(&s, j, &cs).is_none() {
        return None;
    }
    // copy the escaped region
    let mut region: Vec<char> = Vec::new();
    let mut k: usize = after_h2;
    while k < j
        invariant
            after_h2 <= k <= j <= s.len(),
            region@ == s@.subrange(after_h2 as int, k as int),
        decreases j - k,
    {
        region.push(s[k]);
        assert(region@ =~= s@.subrange(after_h2 as int, k + 1));
        k = k + 1;
    }
    let json = match unescape_html(&region) {
        Some(v) => v,
        None => {
            return None;
        }
    };
    match codec::take_doc(&json, 0) {
        Some((d, k2)) => {
            if k2 == json.len() {
                Some(d)
            } else {
                None
            }
        }
        None => None,
    }
}

/// The plain page shell with an empty title and an empty span.
pub fn page_html_plain() -> (r: String)
    ensures
        r@ == head1() + head2() + page_tail(),
{
    let mut out = text::to_chars("<!DOCTYPE html><html><head><title>");
    let mut h2 = text::to_chars("</title><meta charset=\"UTF-8\"></meta><script src=\"/wc.js\"></script>\n    <link rel=\"stylesheet\" href=\"/wc.css\"></link>\n    <style type=\"text/css\"></style>\n</head><body onload=\"bodyOnload()\"><span id=\"page_json_str\" style=\"display: none\">");
    out.append(&mut h2);
    let mut tl = text::to_chars("</span></body></html>\n");
    out.append(&mut tl);
    proof {
        assert(page_tail() =~= "</span></body></html>\n"@) by {
            reveal_strlit("</span>");
            reveal_strlit("</body></html>\n");
            reveal_strlit("</span></body></html>\n");
        }
        assert(out@ =~= head1() + head2() + page_tail());
    }
    text::chars_to_string(&out)
}

} // verus!
