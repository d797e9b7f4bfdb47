use vstd::prelude::*;
use crate::doc::{ContentPiece, ContentPieceV, Document, DocV, NaviEntry, NaviEntryV, Subsection,
    SubsectionV};
use crate::jsontext::{self, lit_at, parse_bool_at, parse_str_at, ser_bool, ser_str};
use crate::text::{self, dec, is_digit, parse_u64_at};

verus! {

// ------------------------------------------------------------------
// the fixed key texts of the document object, in the order they occur
// ------------------------------------------------------------------

pub open spec fn lit_a() -> Seq<char> {
    "{\"system\":{\"version\":"@
}

pub open spec fn lit_b() -> Seq<char> {
    "},\"data\":{\"page\":{\"title\":"@
}

pub open spec fn lit_c() -> Seq<char> {
    ",\"rev\":"@
}

pub open spec fn lit_d() -> Seq<char> {
    ",\"rev_speculation\":"@
}

pub open spec fn lit_e() -> Seq<char> {
    ",\"group_top\":"@
}

pub open spec fn lit_f() -> Seq<char> {
    ",\"moved_to\":"@
}

pub open spec fn lit_g() -> Seq<char> {
    "},\"navi\":"@
}

pub open spec fn lit_h() -> Seq<char> {
    ",\"subsection\":{\"id\":{\"id_next\":"@
}

pub open spec fn lit_i() -> Seq<char> {
    ",\"id_notinuse\":[]},\"data\":"@
}

pub open spec fn lit_j() -> Seq<char> {
    "}}}"@
}

pub open spec fn lit_parent() -> Seq<char> {
    "{\"parent\":"@
}

pub open spec fn lit_id() -> Seq<char> {
    ",\"id\":"@
}

pub open spec fn lit_title() -> Seq<char> {
    ",\"title\":"@
}

pub open spec fn lit_href() -> Seq<char> {
    ",\"href\":"@
}

pub open spec fn lit_content() -> Seq<char> {
    ",\"content\":"@
}

pub open spec fn lit_child() -> Seq<char> {
    ",\"child\":"@
}

pub open spec fn lit_type() -> Seq<char> {
    "{\"type\":"@
}

pub open spec fn lit_value() -> Seq<char> {
    ",\"value\":"@
}

// ------------------------------------------------------------------
// helpers on literal occurrences
// ------------------------------------------------------------------

/// An occurrence of a concatenation is an occurrence of each part.
pub proof fn lemma_lit_split(s: Seq<char>, i: int, a: Seq<char>, b: Seq<char>)
    requires
        lit_at(s, i, a + b),
    ensures
        lit_at(s, i, a),
        lit_at(s, i + a.len(), b),
{
    let ab = a + b;
    assert(s.subrange(i, i + a.len() as int) =~= a) by {
        assert forall|k: int| 0 <= k < a.len() implies s[i + k] == a[k] by {
            assert(s.subrange(i, i + ab.len() as int)[k] == ab[k]);
        }
    }
    assert(s.subrange(i + a.len(), i + ab.len() as int) =~= b) by {
        assert forall|k: int| 0 <= k < b.len() implies s[i + a.len() + k] == b[k] by {
            assert(s.subrange(i, i + ab.len() as int)[a.len() + k] == ab[a.len() + k]);
        }
    }
}

/// The first character under an occurrence.
pub proof fn lemma_lit_first(s: Seq<char>, i: int, a: Seq<char>)
    requires
        lit_at(s, i, a),
        a.len() > 0,
    ensures
        s[i] == a[0],
{
    assert(s.subrange(i, i + a.len() as int)[0] == a[0]);
}

// ------------------------------------------------------------------
// serialized form of every part of the document
// ------------------------------------------------------------------

pub open spec fn ser_navi_entry(e: NaviEntryV) -> Seq<char> {
    seq!['['] + ser_str(e.title) + seq![','] + ser_str(e.href) + seq![']']
}

pub open spec fn ser_navi_rest(l: Seq<NaviEntryV>) -> Seq<char>
    decreases l.len(),
{
    if l.len() == 0 {
        Seq::empty()
    } else {
        seq![','] + ser_navi_entry(l[0]) + ser_navi_rest(l.drop_first())
    }
}

pub open spec fn ser_navi(l: Seq<NaviEntryV>) -> Seq<char> {
    if l.len() == 0 {
        seq!['[', ']']
    } else {
        seq!['['] + ser_navi_entry(l[0]) + ser_navi_rest(l.drop_first()) + seq![']']
    }
}

pub open spec fn ser_piece(p: ContentPieceV) -> Seq<char> {
    lit_type() + ser_str(p.kind) + lit_value() + ser_str(p.value) + seq!['}']
}

pub open spec fn ser_content_rest(l: Seq<ContentPieceV>) -> Seq<char>
    decreases l.len(),
{
    if l.len() == 0 {
        Seq::empty()
    } else {
        seq![','] + ser_piece(l[0]) + ser_content_rest(l.drop_first())
    }
}

pub open spec fn ser_content(l: Seq<ContentPieceV>) -> Seq<char> {
    if l.len() == 0 {
        seq!['[', ']']
    } else {
        seq!['['] + ser_piece(l[0]) + ser_content_rest(l.drop_first()) + seq![']']
    }
}

pub open spec fn ser_ids_rest(l: Seq<u64>) -> Seq<char>
    decreases l.len(),
{
    if l.len() == 0 {
        Seq::empty()
    } else {
        seq![','] + dec(l[0]) + ser_ids_rest(l.drop_first())
    }
}

pub open spec fn ser_ids(l: Seq<u64>) -> Seq<char> {
    if l.len() == 0 {
        seq!['[', ']']
    } else {
        seq!['['] + dec(l[0]) + ser_ids_rest(l.drop_first()) + seq![']']
    }
}

pub open spec fn ser_sub(s: SubsectionV) -> Seq<char> {
    lit_parent() + dec(s.parent) + lit_id() + dec(s.id) + lit_title() + ser_str(s.title)
        + lit_href() + ser_str(s.href) + lit_content() + ser_content(s.content) + lit_child()
        + ser_ids(s.children) + seq!['}']
}

/// One entry of the subsection map: the id as a quoted decimal key, then
/// the subsection object.
pub open spec fn ser_sub_entry(s: SubsectionV) -> Seq<char> {
    seq!['"'] + dec(s.id) + seq!['"', ':'] + ser_sub(s)
}

pub open spec fn ser_subs_rest(l: Seq<SubsectionV>) -> Seq<char>
    decreases l.len(),
{
    if l.len() == 0 {
        Seq::empty()
    } else {
        seq![','] + ser_sub_entry(l[0]) + ser_subs_rest(l.drop_first())
    }
}

pub open spec fn ser_subs(l: Seq<SubsectionV>) -> Seq<char> {
    if l.len() == 0 {
        seq!['{', '}']
    } else {
        seq!['{'] + ser_sub_entry(l[0]) + ser_subs_rest(l.drop_first()) + seq!['}']
    }
}

pub open spec fn ser_doc_head(d: DocV) -> Seq<char> {
    lit_a() + ser_str(d.version) + lit_b() + ser_str(d.title) + lit_c() + dec(d.rev) + lit_d()
        + dec(d.rev_speculation) + lit_e() + ser_bool(d.group_top)
}

pub open spec fn ser_doc_tail(d: DocV) -> Seq<char> {
    lit_f() + ser_str(d.moved_to) + lit_g() + ser_navi(d.navi) + lit_h() + dec(d.id_next) + lit_i()
        + ser_subs(d.subs) + lit_j()
}

/// The whole document as one JSON object.
pub open spec fn ser_doc(d: DocV) -> Seq<char> {
    ser_doc_head(d) + ser_doc_tail(d)
}

// ------------------------------------------------------------------
// writers
// ------------------------------------------------------------------

fn push_lit(out: &mut Vec<char>, lit: &str)
    ensures
        final(out)@ == old(out)@ + lit@,
{
    let mut l = text::to_chars(lit);
    out.append(&mut l);
}

fn push_navi_entry(out: &mut Vec<char>, e: &NaviEntry)
    ensures
        final(out)@ == old(out)@ + ser_navi_entry(e@),
{
    out.push('[');
    jsontext::push_json_str(out, e.title.as_str());
    out.push(',');
    jsontext::push_json_str(out, e.href.as_str());
    out.push(']');
    assert(final(out)@ =~= old(out)@ + ser_navi_entry(e@));
}

fn push_navi_rest(out: &mut Vec<char>, l: &Vec<NaviEntry>, k: usize)
    requires
        k <= l.len(),
    ensures
        final(out)@ == old(out)@ + ser_navi_rest(l.deep_view().skip(k as int)),
    decreases l.len() - k,
{
    if k == l.len() {
        assert(l.deep_view().skip(k as int) =~= Seq::<NaviEntryV>::empty());
    } else {
        out.push(',');
        push_navi_entry(out, &l[k]);
        push_navi_rest(out, l, k + 1);
        proof {
            let t = l.deep_view().skip(k as int);
            assert(t[0] == l.deep_view()[k as int]);
            assert(t.drop_first() =~= l.deep_view().skip(k + 1));
            assert(final(out)@ =~= old(out)@ + ser_navi_rest(t));
        }
    }
}

fn push_navi(out: &mut Vec<char>, l: &Vec<NaviEntry>)
    ensures
        final(out)@ == old(out)@ + ser_navi(l.deep_view()),
{
    out.push('[');
    if l.len() > 0 {
        push_navi_entry(out, &l[0]);
        push_navi_rest(out, l, 1);
        assert(l.deep_view().drop_first() =~= l.deep_view().skip(1));
    }
    out.push(']');
    assert(final(out)@ =~= old(out)@ + ser_navi(l.deep_view()));
}

fn push_piece(out: &mut Vec<char>, p: &ContentPiece)
    ensures
        final(out)@ == old(out)@ + ser_piece(p@),
{
    push_lit(out, "{\"type\":");
    jsontext::push_json_str(out, p.kind.as_str());
    push_lit(out, ",\"value\":");
    jsontext::push_json_str(out, p.value.as_str());
    out.push('}');
    assert(final(out)@ =~= old(out)@ + ser_piece(p@));
}

fn push_content_rest(out: &mut Vec<char>, l: &Vec<ContentPiece>, k: usize)
    requires
        k <= l.len(),
    ensures
        final(out)@ == old(out)@ + ser_content_rest(l.deep_view().skip(k as int)),
    decreases l.len() - k,
{
    if k == l.len() {
        assert(l.deep_view().skip(k as int) =~= Seq::<ContentPieceV>::empty());
    } else {
        out.push(',');
        push_piece(out, &l[k]);
        push_content_rest(out, l, k + 1);
        proof {
            let t = l.deep_view().skip(k as int);
            assert(t[0] == l.deep_view()[k as int]);
            assert(t.drop_first() =~= l.deep_view().skip(k + 1));
            assert(final(out)@ =~= old(out)@ + ser_content_rest(t));
        }
    }
}

fn push_content(out: &mut Vec<char>, l: &Vec<ContentPiece>)
    ensures
        final(out)@ == old(out)@ + ser_content(l.deep_view()),
{
    out.push('[');
    if l.len() > 0 {
        push_piece(out, &l[0]);
        push_content_rest(out, l, 1);
        assert(l.deep_view().drop_first() =~= l.deep_view().skip(1));
    }
    out.push(']');
    assert(final(out)@ =~= old(out)@ + ser_content(l.deep_view()));
}

fn push_ids_rest(out: &mut Vec<char>, l: &Vec<u64>, k: usize)
    requires
        k <= l.len(),
    ensures
        final(out)@ == old(out)@ + ser_ids_rest(l@.skip(k as int)),
    decreases l.len() - k,
{
    if k == l.len() {
        assert(l@.skip(k as int) =~= Seq::<u64>::empty());
    } else {
        out.push(',');
        text::push_dec(out, l[k]);
        push_ids_rest(out, l, k + 1);
        proof {
            let t = l@.skip(k as int);
            assert(t[0] == l@[k as int]);
            assert(t.drop_first() =~= l@.skip(k + 1));
            assert(final(out)@ =~= old(out)@ + ser_ids_rest(t));
        }
    }
}

fn push_ids(out: &mut Vec<char>, l: &Vec<u64>)
    ensures
        final(out)@ == old(out)@ + ser_ids(l@),
{
    out.push('[');
    if l.len() > 0 {
        text::push_dec(out, l[0]);
        push_ids_rest(out, l, 1);
        assert(l@.drop_first() =~= l@.skip(1));
    }
    out.push(']');
    assert(final(out)@ =~= old(out)@ + ser_ids(l@));
}

fn push_sub(out: &mut Vec<char>, s: &Subsection)
    ensures
        final(out)@ == old(out)@ + ser_sub(s@),
{
    push_lit(out, "{\"parent\":");
    text::push_dec(out, s.parent);
    push_lit(out, ",\"id\":");
    text::push_dec(out, s.id);
    push_lit(out, ",\"title\":");
    jsontext::push_json_str(out, s.title.as_str());
    push_lit(out, ",\"href\":");
    jsontext::push_json_str(out, s.href.as_str());
    push_lit(out, ",\"content\":");
    push_content(out, &s.content);
    push_lit(out, ",\"child\":");
    push_ids(out, &s.children);
    out.push('}');
    assert(final(out)@ =~= old(out)@ + ser_sub(s@));
}

fn push_sub_entry(out: &mut Vec<char>, s: &Subsection)
    ensures
        final(out)@ == old(out)@ + ser_sub_entry(s@),
{
    out.push('"');
    text::push_dec(out, s.id);
    out.push('"');
    out.push(':');
    push_sub(out, s);
    assert(final(out)@ =~= old(out)@ + ser_sub_entry(s@));
}

fn push_subs_rest(out: &mut Vec<char>, l: &Vec<Subsection>, k: usize)
    requires
        k <= l.len(),
    ensures
        final(out)@ == old(out)@ + ser_subs_rest(l.deep_view().skip(k as int)),
    decreases l.len() - k,
{
    if k == l.len() {
        assert(l.deep_view().skip(k as int) =~= Seq::<SubsectionV>::empty());
    } else {
        out.push(',');
        push_sub_entry(out, &l[k]);
        push_subs_rest(out, l, k + 1);
        proof {
            let t = l.deep_view().skip(k as int);
            assert(t[0] == l.deep_view()[k as int]);
            assert(t.drop_first() =~= l.deep_view().skip(k + 1));
            assert(final(out)@ =~= old(out)@ + ser_subs_rest(t));
        }
    }
}

fn push_subs(out: &mut Vec<char>, l: &Vec<Subsection>)
    ensures
        final(out)@ == old(out)@ + ser_subs(l.deep_view()),
{
    out.push('{');
    if l.len() > 0 {
        push_sub_entry(out, &l[0]);
        push_subs_rest(out, l, 1);
        assert(l.deep_view().drop_first() =~= l.deep_view().skip(1));
    }
    out.push('}');
    assert(final(out)@ =~= old(out)@ + ser_subs(l.deep_view()));
}

fn push_bool(out: &mut Vec<char>, b: bool)
    ensures
        final(out)@ == old(out)@ + ser_bool(b),
{
    if b {
        out.push('t');
        out.push('r');
        out.push('u');
        out.push('e');
        assert(final(out)@ =~= old(out)@ + ser_bool(true));
    } else {
        out.push('f');
        out.push('a');
        out.push('l');
        out.push('s');
        out.push('e');
        assert(final(out)@ =~= old(out)@ + ser_bool(false));
    }
}

fn push_doc_head(out: &mut Vec<char>, d: &Document)
    ensures
        final(out)@ == old(out)@ + ser_doc_head(d@),
{
    push_lit(out, "{\"system\":{\"version\":");
    jsontext::push_json_str(out, d.version.as_str());
    push_lit(out, "},\"data\":{\"page\":{\"title\":");
    jsontext::push_json_str(out, d.title.as_str());
    push_lit(out, ",\"rev\":");
    text::push_dec(out, d.rev);
    push_lit(out, ",\"rev_speculation\":");
    text::push_dec(out, d.rev_speculation);
    push_lit(out, ",\"group_top\":");
    push_bool(out, d.group_top);
    assert(final(out)@ =~= old(out)@ + ser_doc_head(d@));
}

fn push_doc_tail(out: &mut Vec<char>, d: &Document)
    ensures
        final(out)@ == old(out)@ + ser_doc_tail(d@),
{
    push_lit(out, ",\"moved_to\":");
    jsontext::push_json_str(out, d.moved_to.as_str());
    push_lit(out, "},\"navi\":");
    push_navi(out, &d.navi);
    push_lit(out, ",\"subsection\":{\"id\":{\"id_next\":");
    text::push_dec(out, d.id_next);
    push_lit(out, ",\"id_notinuse\":[]},\"data\":");
    push_subs(out, &d.subs);
    push_lit(out, "}}}");
    assert(final(out)@ =~= old(out)@ + ser_doc_tail(d@));
}

/// Writes the document's serialized JSON object onto `out`.
pub fn push_doc(out: &mut Vec<char>, d: &Document)
    ensures
        final(out)@ == old(out)@ + ser_doc(d@),
{
    push_doc_head(out, d);
    push_doc_tail(out, d);
    assert(final(out)@ =~= old(out)@ + ser_doc(d@));
}

// ------------------------------------------------------------------
// parsers over the serialized form
// ------------------------------------------------------------------

pub open spec fn parse_navi_entry_at(s: Seq<char>, i: int) -> Option<(NaviEntryV, int)> {
    if 0 <= i < s.len() && s[i] == '[' {
        match parse_str_at(s, i + 1) {
            Some((t, j)) => if j < s.len() && s[j] == ',' {
                match parse_str_at(s, j + 1) {
                    Some((h, k)) => if k < s.len() && s[k] == ']' {
                        Some((NaviEntryV { title: t, href: h }, k + 1))
                    } else {
                        None
                    },
                    None => None,
                }
            } else {
                None
            },
            None => None,
        }
    } else {
        None
    }
}

pub proof fn lemma_parse_navi_entry_bounds(s: Seq<char>, i: int)
    ensures
        (parse_navi_entry_at(s, i) matches Some(r) ==> i < r.1 <= s.len()),
{
    jsontext::lemma_parse_str_bounds(s, i + 1);
    if 0 <= i < s.len() && s[i] == '[' {
        if let Some((t, j)) = parse_str_at(s, i + 1) {
            jsontext::lemma_parse_str_bounds(s, j + 1);
        }
    }
}

pub open spec fn parse_navi_items(s: Seq<char>, i: int, acc: Seq<NaviEntryV>) -> Option<
    (Seq<NaviEntryV>, int),
>
    decreases s.len() - i,
    when i >= 0
    via parse_navi_items_dec
{
    match parse_navi_entry_at(s, i) {
        Some((e, j)) => if j < s.len() && s[j] == ',' {
            parse_navi_items(s, j + 1, acc.push(e))
        } else if j < s.len() && s[j] == ']' {
            Some((acc.push(e), j + 1))
        } else {
            None
        },
        None => None,
    }
}

#[via_fn]
proof fn parse_navi_items_dec(s: Seq<char>, i: int, acc: Seq<NaviEntryV>) {
    lemma_parse_navi_entry_bounds(s, i);
}

pub open spec fn parse_navi_at(s: Seq<char>, i: int) -> Option<(Seq<NaviEntryV>, int)> {
    if 0 <= i < s.len() && s[i] == '[' {
        if i + 1 < s.len() && s[i + 1] == ']' {
            Some((Seq::empty(), i + 2))
        } else {
            parse_navi_items(s, i + 1, Seq::empty())
        }
    } else {
        None
    }
}

pub open spec fn parse_piece_at(s: Seq<char>, i: int) -> Option<(ContentPieceV, int)> {
    if lit_at(s, i, lit_type()) {
        match parse_str_at(s, i + lit_type().len()) {
            Some((k, j)) => if lit_at(s, j, lit_value()) {
                match parse_str_at(s, j + lit_value().len()) {
                    Some((v, m)) => if m < s.len() && s[m] == '}' {
                        Some((ContentPieceV { kind: k, value: v }, m + 1))
                    } else {
                        None
                    },
                    None => None,
                }
            } else {
                None
            },
            None => None,
        }
    } else {
        None
    }
}

pub proof fn lemma_parse_piece_bounds(s: Seq<char>, i: int)
    ensures
        (parse_piece_at(s, i) matches Some(r) ==> i < r.1 <= s.len()),
{
    if lit_at(s, i, lit_type()) {
        jsontext::lemma_parse_str_bounds(s, i + lit_type().len());
        if let Some((k, j)) = parse_str_at(s, i + lit_type().len()) {
            jsontext::lemma_parse_str_bounds(s, j + lit_value().len());
        }
    }
}

pub open spec fn parse_content_items(s: Seq<char>, i: int, acc: Seq<ContentPieceV>) -> Option<
    (Seq<ContentPieceV>, int),
>
    decreases s.len() - i,
    when i >= 0
    via parse_content_items_dec
{
    match parse_piece_at(s, i) {
        Some((p, j)) => if j < s.len() && s[j] == ',' {
            parse_content_items(s, j + 1, acc.push(p))
        } else if j < s.len() && s[j] == ']' {
            Some((acc.push(p), j + 1))
        } else {
            None
        },
        None => None,
    }
}

#[via_fn]
proof fn parse_content_items_dec(s: Seq<char>, i: int, acc: Seq<ContentPieceV>) {
    lemma_parse_piece_bounds(s, i);
}

pub open spec fn parse_content_at(s: Seq<char>, i: int) -> Option<(Seq<ContentPieceV>, int)> {
    if 0 <= i < s.len() && s[i] == '[' {
        if i + 1 < s.len() && s[i + 1] == ']' {
            Some((Seq::empty(), i + 2))
        } else {
            parse_content_items(s, i + 1, Seq::empty())
        }
    } else {
        None
    }
}

pub open spec fn parse_ids_items(s: Seq<char>, i: int, acc: Seq<u64>) -> Option<(Seq<u64>, int)>
    decreases s.len() - i,
    when i >= 0
    via parse_ids_items_dec
{
    match parse_u64_at(s, i) {
        Some((n, j)) => if j < s.len() && s[j] == ',' {
            parse_ids_items(s, j + 1, acc.push(n))
        } else if j < s.len() && s[j] == ']' {
            Some((acc.push(n), j + 1))
        } else {
            None
        },
        None => None,
    }
}

#[via_fn]
proof fn parse_ids_items_dec(s: Seq<char>, i: int, acc: Seq<u64>) {
    text::lemma_parse_u64_bounds(s, i);
}

pub open spec fn parse_ids_at(s: Seq<char>, i: int) -> Option<(Seq<u64>, int)> {
    if 0 <= i < s.len() && s[i] == '[' {
        if i + 1 < s.len() && s[i + 1] == ']' {
            Some((Seq::empty(), i + 2))
        } else {
            parse_ids_items(s, i + 1, Seq::empty())
        }
    } else {
        None
    }
}

pub open spec fn parse_sub_at(s: Seq<char>, i: int) -> Option<(SubsectionV, int)> {
    if !lit_at(s, i, lit_parent()) {
        None
    } else {
        match parse_u64_at(s, i + lit_parent().len()) {
            None => None,
            Some((parent, i1)) => if !lit_at(s, i1, lit_id()) {
                None
            } else {
                match parse_u64_at(s, i1 + lit_id().len()) {
                    None => None,
                    Some((id, i2)) => if !lit_at(s, i2, lit_title()) {
                        None
                    } else {
                        match parse_str_at(s, i2 + lit_title().len()) {
                            None => None,
                            Some((title, i3)) => if !lit_at(s, i3, lit_href()) {
                                None
                            } else {
                                match parse_str_at(s, i3 + lit_href().len()) {
                                    None => None,
                                    Some((href, i4)) => if !lit_at(s, i4, lit_content()) {
                                        None
                                    } else {
                                        match parse_content_at(s, i4 + lit_content().len()) {
                                            None => None,
                                            Some((content, i5)) => if !lit_at(s, i5, lit_child()) {
                                                None
                                            } else {
                                                match parse_ids_at(s, i5 + lit_child().len()) {
                                                    None => None,
                                                    Some((children, i6)) => if i6 < s.len() && s[i6]
                                                        == '}' {
                                                        Some(
                                                            (
                                                                SubsectionV {
                                                                    parent,
                                                                    id,
                                                                    title,
                                                                    href,
                                                                    content,
                                                                    children,
                                                                },
                                                                i6 + 1,
                                                            ),
                                                        )
                                                    } else {
                                                        None
                                                    },
                                                }
                                            },
                                        }
                                    },
                                }
                            },
                        }
                    },
                }
            },
        }
    }
}

pub open spec fn parse_sub_entry_at(s: Seq<char>, i: int) -> Option<(SubsectionV, int)> {
    if 0 <= i < s.len() && s[i] == '"' {
        match parse_u64_at(s, i + 1) {
            None => None,
            Some((key, j)) => if j + 1 < s.len() && s[j] == '"' && s[j + 1] == ':' {
                match parse_sub_at(s, j + 2) {
                    None => None,
                    Some((sub, k)) => if sub.id == key {
                        Some((sub, k))
                    } else {
                        None
                    },
                }
            } else {
                None
            },
        }
    } else {
        None
    }
}

proof fn lemma_parse_ids_items_bounds(s: Seq<char>, i: int, acc: Seq<u64>)
    requires
        i >= 0,
    ensures
        (parse_ids_items(s, i, acc) matches Some(r) ==> i < r.1 <= s.len()),
    decreases s.len() - i,
{
    text::lemma_parse_u64_bounds(s, i);
    if let Some((n, j)) = parse_u64_at(s, i) {
        if j < s.len() && s[j] == ',' {
            lemma_parse_ids_items_bounds(s, j + 1, acc.push(n));
        }
    }
}

pub proof fn lemma_parse_ids_bounds(s: Seq<char>, i: int)
    ensures
        (parse_ids_at(s, i) matches Some(r) ==> i < r.1 <= s.len()),
{
    if 0 <= i < s.len() && s[i] == '[' {
        lemma_parse_ids_items_bounds(s, i + 1, Seq::empty());
    }
}

proof fn lemma_parse_content_items_bounds(s: Seq<char>, i: int, acc: Seq<ContentPieceV>)
    requires
        i >= 0,
    ensures
        (parse_content_items(s, i, acc) matches Some(r) ==> i < r.1 <= s.len()),
    decreases s.len() - i,
{
    lemma_parse_piece_bounds(s, i);
    if let Some((p, j)) = parse_piece_at(s, i) {
        if j < s.len() && s[j] == ',' {
            lemma_parse_content_items_bounds(s, j + 1, acc.push(p));
        }
    }
}

pub proof fn lemma_parse_content_bounds(s: Seq<char>, i: int)
    ensures
        (parse_content_at(s, i) matches Some(r) ==> i < r.1 <= s.len()),
{
    if 0 <= i < s.len() && s[i] == '[' {
        lemma_parse_content_items_bounds(s, i + 1, Seq::empty());
    }
}

pub proof fn lemma_parse_sub_bounds(s: Seq<char>, i: int)
    ensures
        (parse_sub_at(s, i) matches Some(r) ==> i < r.1 <= s.len()),
{
    if lit_at(s, i, lit_parent()) {
        text::lemma_parse_u64_bounds(s, i + lit_parent().len());
        if let Some((parent, i1)) = parse_u64_at(s, i + lit_parent().len()) {
            text::lemma_parse_u64_bounds(s, i1 + lit_id().len());
            if lit_at(s, i1, lit_id()) {
                if let Some((id, i2)) = parse_u64_at(s, i1 + lit_id().len()) {
                    jsontext::lemma_parse_str_bounds(s, i2 + lit_title().len());
                    if lit_at(s, i2, lit_title()) {
                        if let Some((t, i3)) = parse_str_at(s, i2 + lit_title().len()) {
                            jsontext::lemma_parse_str_bounds(s, i3 + lit_href().len());
                            if lit_at(s, i3, lit_href()) {
                                if let Some((h, i4)) = parse_str_at(s, i3 + lit_href().len()) {
                                    lemma_parse_content_bounds(s, i4 + lit_content().len());
                                    if lit_at(s, i4, lit_content()) {
                                        if let Some((c, i5)) = parse_content_at(
                                            s,
                                            i4 + lit_content().len(),
                                        ) {
                                            lemma_parse_ids_bounds(s, i5 + lit_child().len());
                                        }
                                    }
                                }
                            }
                        }
                    }
                }
            }
        }
    }
}

pub proof fn lemma_parse_sub_entry_bounds(s: Seq<char>, i: int)
    ensures
        (parse_sub_entry_at(s, i) matches Some(r) ==> i < r.1 <= s.len()),
{
    if 0 <= i < s.len() && s[i] == '"' {
        text::lemma_parse_u64_bounds(s, i + 1);
        if let Some((key, j)) = parse_u64_at(s, i + 1) {
            lemma_parse_sub_bounds(s, j + 2);
        }
    }
}

pub open spec fn parse_subs_items(s: Seq<char>, i: int, acc: Seq<SubsectionV>) -> Option<
    (Seq<SubsectionV>, int),
>
    decreases s.len() - i,
    when i >= 0
    via parse_subs_items_dec
{
    match parse_sub_entry_at(s, i) {
        Some((sub, j)) => if j < s.len() && s[j] == ',' {
            parse_subs_items(s, j + 1, acc.push(sub))
        } else if j < s.len() && s[j] == '}' {
            Some((acc.push(sub), j + 1))
        } else {
            None
        },
        None => None,
    }
}

#[via_fn]
proof fn parse_subs_items_dec(s: Seq<char>, i: int, acc: Seq<SubsectionV>) {
    lemma_parse_sub_entry_bounds(s, i);
}

pub open spec fn parse_subs_at(s: Seq<char>, i: int) -> Option<(Seq<SubsectionV>, int)> {
    if 0 <= i < s.len() && s[i] == '{' {
        if i + 1 < s.len() && s[i + 1] == '}' {
            Some((Seq::empty(), i + 2))
        } else {
            parse_subs_items(s, i + 1, Seq::empty())
        }
    } else {
        None
    }
}

/// Reads a whole serialized document object at position `i`.
pub open spec fn parse_doc_at(s: Seq<char>, i: int) -> Option<(DocV, int)> {
    if !lit_at(s, i, lit_a()) {
        None
    } else {
        match parse_str_at(s, i + lit_a().len()) {
            None => None,
            Some((version, i1)) => if !lit_at(s, i1, lit_b()) {
                None
            } else {
                match parse_str_at(s, i1 + lit_b().len()) {
                    None => None,
                    Some((title, i2)) => if !lit_at(s, i2, lit_c()) {
                        None
                    } else {
                        match parse_u64_at(s, i2 + lit_c().len()) {
                            None => None,
                            Some((rev, i3)) => if !lit_at(s, i3, lit_d()) {
                                None
                            } else {
                                match parse_u64_at(s, i3 + lit_d().len()) {
                                    None => None,
                                    Some((rev_speculation, i4)) => if !lit_at(s, i4, lit_e()) {
                                        None
                                    } else {
                                        match parse_bool_at(s, i4 + lit_e().len()) {
                                            None => None,
                                            Some((group_top, i5)) => if !lit_at(s, i5, lit_f()) {
                                                None
                                            } else {
                                                match parse_str_at(s, i5 + lit_f().len()) {
                                                    None => None,
                                                    Some((moved_to, i6)) => parse_doc_tail(
                                                        s,
                                                        i6,
                                                        version,
                                                        title,
                                                        rev,
                                                        rev_speculation,
                                                        group_top,
                                                        moved_to,
                                                    ),
                                                }
                                            },
                                        }
                                    },
                                }
                            },
                        }
                    },
                }
            },
        }
    }
}

pub open spec fn parse_doc_tail(
    s: Seq<char>,
    i6: int,
    version: Seq<char>,
    title: Seq<char>,
    rev: u64,
    rev_speculation: u64,
    group_top: bool,
    moved_to: Seq<char>,
) -> Option<(DocV, int)> {
    if !lit_at(s, i6, lit_g()) {
        None
    } else {
        match parse_navi_at(s, i6 + lit_g().len()) {
            None => None,
            Some((navi, i7)) => if !lit_at(s, i7, lit_h()) {
                None
            } else {
                match parse_u64_at(s, i7 + lit_h().len()) {
                    None => None,
                    Some((id_next, i8)) => if !lit_at(s, i8, lit_i()) {
                        None
                    } else {
                        match parse_subs_at(s, i8 + lit_i().len()) {
                            None => None,
                            Some((subs, i9)) => if lit_at(s, i9, lit_j()) {
                                Some(
                                    (
                                        DocV {
                                            version,
                                            title,
                                            rev,
                                            rev_speculation,
                                            group_top,
                                            moved_to,
                                            navi,
                                            id_next,
                                            subs,
                                        },
                                        i9 + lit_j().len(),
                                    ),
                                )
                            } else {
                                None
                            },
                        }
                    },
                }
            },
        }
    }
}

// ------------------------------------------------------------------
// executable parsers, each mirroring its parse function
// ------------------------------------------------------------------

fn take_navi_entry(s: &Vec<char>, i: usize) -> (r: Option<(NaviEntry, usize)>)
    requires
        i <= s.len(),
    ensures
        match r {
            Some((e, j)) => parse_navi_entry_at(s@, i as int) == Some((e@, j as int)) && i < j
                <= s.len(),
            None => parse_navi_entry_at(s@, i as int) is None,
        },
{
    if i == s.len() || s[i] != '[' {
        return None;
    }
    let (t, j) = jsontext::take_str(s, i + 1)?;
    if j == s.len() || s[j] != ',' {
        return None;
    }
    let (h, k) = jsontext::take_str(s, j + 1)?;
    if k == s.len() || s[k] != ']' {
        return None;
    }
    let e = NaviEntry { title: text::chars_to_string(&t), href: text::chars_to_string(&h) };
    Some((e, k + 1))
}

fn take_navi_items(s: &Vec<char>, i: usize, acc: Vec<NaviEntry>) -> (r: Option<
    (Vec<NaviEntry>, usize),
>)
    requires
        i <= s.len(),
    ensures
        match r {
            Some((l, j)) => parse_navi_items(s@, i as int, acc.deep_view()) == Some(
                (l.deep_view(), j as int),
            ) && j <= s.len(),
            None => parse_navi_items(s@, i as int, acc.deep_view()) is None,
        },
    decreases s.len() - i,
{
    let ghost acc0 = acc.deep_view();
    let mut acc = acc;
    let (e, j) = take_navi_entry(s, i)?;
    acc.push(e);
    assert(acc.deep_view() =~= acc0.push(e@));
    if j < s.len() && s[j] == ',' {
        take_navi_items(s, j + 1, acc)
    } else if j < s.len() && s[j] == ']' {
        Some((acc, j + 1))
    } else {
        None
    }
}

fn take_navi(s: &Vec<char>, i: usize) -> (r: Option<(Vec<NaviEntry>, usize)>)
    requires
        i <= s.len(),
    ensures
        match r {
            Some((l, j)) => parse_navi_at(s@, i as int) == Some((l.deep_view(), j as int)) && j
                <= s.len(),
            None => parse_navi_at(s@, i as int) is None,
        },
{
    if i == s.len() || s[i] != '[' {
        return None;
    }
    if i + 1 < s.len() && s[i + 1] == ']' {
        let l: Vec<NaviEntry> = Vec::new();
        assert(l.deep_view() =~= Seq::<NaviEntryV>::empty());
        return Some((l, i + 2));
    }
    let acc: Vec<NaviEntry> = Vec::new();
    assert(acc.deep_view() =~= Seq::<NaviEntryV>::empty());
    take_navi_items(s, i + 1, acc)
}

fn take_piece(s: &Vec<char>, i: usize) -> (r: Option<(ContentPiece, usize)>)
    requires
        i <= s.len(),
    ensures
        match r {
            Some((p, j)) => parse_piece_at(s@, i as int) == Some((p@, j as int)) && i < j
                <= s.len(),
            None => parse_piece_at(s@, i as int) is None,
        },
{
    proof {
        lemma_parse_piece_bounds(s@, i as int);
    }
    let ltype = text::to_chars("{\"type\":");
    let lvalue = text::to_chars(",\"value\":");
    let i1 = jsontext::skip_lit(s, i, &ltype)?;
    let (k, j) = jsontext::take_str(s, i1)?;
    let j1 = jsontext::skip_lit(s, j, &lvalue)?;
    let (v, m) = jsontext::take_str(s, j1)?;
    if m == s.len() || s[m] != '}' {
        return None;
    }
    let p = ContentPiece { kind: text::chars_to_string(&k), value: text::chars_to_string(&v) };
    Some((p, m + 1))
}

fn take_content_items(s: &Vec<char>, i: usize, acc: Vec<ContentPiece>) -> (r: Option<
    (Vec<ContentPiece>, usize),
>)
    requires
        i <= s.len(),
    ensures
        match r {
            Some((l, j)) => parse_content_items(s@, i as int, acc.deep_view()) == Some(
                (l.deep_view(), j as int),
            ) && j <= s.len(),
            None => parse_content_items(s@, i as int, acc.deep_view()) is None,
        },
    decreases s.len() - i,
{
    let ghost acc0 = acc.deep_view();
    let mut acc = acc;
    let (p, j) = take_piece(s, i)?;
    acc.push(p);
    assert(acc.deep_view() =~= acc0.push(p@));
    if j < s.len() && s[j] == ',' {
        take_content_items(s, j + 1, acc)
    } else if j < s.len() && s[j] == ']' {
        Some((acc, j + 1))
    } else {
        None
    }
}

fn take_content(s: &Vec<char>, i: usize) -> (r: Option<(Vec<ContentPiece>, usize)>)
    requires
        i <= s.len(),
    ensures
        match r {
            Some((l, j)) => parse_content_at(s@, i as int) == Some((l.deep_view(), j as int)) && j
                <= s.len(),
            None => parse_content_at(s@, i as int) is None,
        },
{
    if i == s.len() || s[i] != '[' {
        return None;
    }
    if i + 1 < s.len() && s[i + 1] == ']' {
        let l: Vec<ContentPiece> = Vec::new();
        assert(l.deep_view() =~= Seq::<ContentPieceV>::empty());
        return Some((l, i + 2));
    }
    let acc: Vec<ContentPiece> = Vec::new();
    assert(acc.deep_view() =~= Seq::<ContentPieceV>::empty());
    take_content_items(s, i + 1, acc)
}

fn take_ids_items(s: &Vec<char>, i: usize, acc: Vec<u64>) -> (r: Option<(Vec<u64>, usize)>)
    requires
        i <= s.len(),
    ensures
        match r {
            Some((l, j)) => parse_ids_items(s@, i as int, acc@) == Some((l@, j as int)) && j
                <= s.len(),
            None => parse_ids_items(s@, i as int, acc@) is None,
        },
    decreases s.len() - i,
{
    let mut acc = acc;
    let (n, j) = text::take_u64(s, i)?;
    if j < s.len() && s[j] == ',' {
        acc.push(n);
        take_ids_items(s, j + 1, acc)
    } else if j < s.len() && s[j] == ']' {
        acc.push(n);
        Some((acc, j + 1))
    } else {
        None
    }
}

fn take_ids(s: &Vec<char>, i: usize) -> (r: Option<(Vec<u64>, usize)>)
    requires
        i <= s.len(),
    ensures
        match r {
            Some((l, j)) => parse_ids_at(s@, i as int) == Some((l@, j as int)) && j <= s.len(),
            None => parse_ids_at(s@, i as int) is None,
        },
{
    if i == s.len() || s[i] != '[' {
        return None;
    }
    if i + 1 < s.len() && s[i + 1] == ']' {
        let l: Vec<u64> = Vec::new();
        assert(l@ =~= Seq::<u64>::empty());
        return Some((l, i + 2));
    }
    let acc: Vec<u64> = Vec::new();
    assert(acc@ =~= Seq::<u64>::empty());
    take_ids_items(s, i + 1, acc)
}

fn take_sub(s: &Vec<char>, i: usize) -> (r: Option<(Subsection, usize)>)
    requires
        i <= s.len(),
    ensures
        match r {
            Some((sub, j)) => parse_sub_at(s@, i as int) == Some((sub@, j as int)) && i < j
                <= s.len(),
            None => parse_sub_at(s@, i as int) is None,
        },
{
    proof {
        lemma_parse_sub_bounds(s@, i as int);
    }
    let lparent = text::to_chars("{\"parent\":");
    let lid = text::to_chars(",\"id\":");
    let ltitle = text::to_chars(",\"title\":");
    let lhref = text::to_chars(",\"href\":");
    let lcontent = text::to_chars(",\"content\":");
    let lchild = text::to_chars(",\"child\":");
    let i0 = jsontext::skip_lit(s, i, &lparent)?;
    let (parent, i1) = text::take_u64(s, i0)?;
    let i1b = jsontext::skip_lit(s, i1, &lid)?;
    let (id, i2) = text::take_u64(s, i1b)?;
    let i2b = jsontext::skip_lit(s, i2, &ltitle)?;
    let (title, i3) = jsontext::take_str(s, i2b)?;
    let i3b = jsontext::skip_lit(s, i3, &lhref)?;
    let (href, i4) = jsontext::take_str(s, i3b)?;
    let i4b = jsontext::skip_lit(s, i4, &lcontent)?;
    let (content, i5) = take_content(s, i4b)?;
    let i5b = jsontext::skip_lit(s, i5, &lchild)?;
    let (children, i6) = take_ids(s, i5b)?;
    if i6 == s.len() || s[i6] != '}' {
        return None;
    }
    let sub = Subsection {
        parent,
        id,
        title: text::chars_to_string(&title),
        href: text::chars_to_string(&href),
        content,
        children,
    };
    Some((sub, i6 + 1))
}

fn take_sub_entry(s: &Vec<char>, i: usize) -> (r: Option<(Subsection, usize)>)
    requires
        i <= s.len(),
    ensures
        match r {
            Some((sub, j)) => parse_sub_entry_at(s@, i as int) == Some((sub@, j as int)) && i < j
                <= s.len(),
            None => parse_sub_entry_at(s@, i as int) is None,
        },
{
    if i == s.len() || s[i] != '"' {
        return None;
    }
    let (key, j) = text::take_u64(s, i + 1)?;
    if !(j < s.len() && s[j] == '"') {
        return None;
    }
    if !(j + 1 < s.len() && s[j + 1] == ':') {
        return None;
    }
    let (sub, k) = take_sub(s, j + 2)?;
    if sub.id == key {
        Some((sub, k))
    } else {
        None
    }
}

fn take_subs_items(s: &Vec<char>, i: usize, acc: Vec<Subsection>) -> (r: Option<
    (Vec<Subsection>, usize),
>)
    requires
        i <= s.len(),
    ensures
        match r {
            Some((l, j)) => parse_subs_items(s@, i as int, acc.deep_view()) == Some(
                (l.deep_view(), j as int),
            ) && j <= s.len(),
            None => parse_subs_items(s@, i as int, acc.deep_view()) is None,
        },
    decreases s.len() - i,
{
    let ghost acc0 = acc.deep_view();
    let mut acc = acc;
    let (sub, j) = take_sub_entry(s, i)?;
    acc.push(sub);
    assert(acc.deep_view() =~= acc0.push(sub@));
    if j < s.len() && s[j] == ',' {
        take_subs_items(s, j + 1, acc)
    } else if j < s.len() && s[j] == '}' {
        Some((acc, j + 1))
    } else {
        None
    }
}

fn take_subs(s: &Vec<char>, i: usize) -> (r: Option<(Vec<Subsection>, usize)>)
    requires
        i <= s.len(),
    ensures
        match r {
            Some((l, j)) => parse_subs_at(s@, i as int) == Some((l.deep_view(), j as int)) && j
                <= s.len(),
            None => parse_subs_at(s@, i as int) is None,
        },
{
    if i == s.len() || s[i] != '{' {
        return None;
    }
    if i + 1 < s.len() && s[i + 1] == '}' {
        let l: Vec<Subsection> = Vec::new();
        assert(l.deep_view() =~= Seq::<SubsectionV>::empty());
        return Some((l, i + 2));
    }
    let acc: Vec<Subsection> = Vec::new();
    assert(acc.deep_view() =~= Seq::<SubsectionV>::empty());
    take_subs_items(s, i + 1, acc)
}

/// Reads a whole serialized document at position `i`, mirroring
/// `parse_doc_at`.  The returned document's dirty flag is clear.
pub fn take_doc(s: &Vec<char>, i: usize) -> (r: Option<(Document, usize)>)
    requires
        i <= s.len(),
    ensures
        match r {
            Some((d, j)) => parse_doc_at(s@, i as int) == Some((d@, j as int)) && j <= s.len()
                && !d.may_changed,
            None => parse_doc_at(s@, i as int) is None,
        },
{
    let la = text::to_chars("{\"system\":{\"version\":");
    let lb = text::to_chars("},\"data\":{\"page\":{\"title\":");
    let lc = text::to_chars(",\"rev\":");
    let ld = text::to_chars(",\"rev_speculation\":");
    let le = text::to_chars(",\"group_top\":");
    let lf = text::to_chars(",\"moved_to\":");
    let lg = text::to_chars("},\"navi\":");
    let lh = text::to_chars(",\"subsection\":{\"id\":{\"id_next\":");
    let li = text::to_chars(",\"id_notinuse\":[]},\"data\":");
    let lj = text::to_chars("}}}");
    let i0 = jsontext::skip_lit(s, i, &la)?;
    let (version, i1) = jsontext::take_str(s, i0)?;
    let i1b = jsontext::skip_lit(s, i1, &lb)?;
    let (title, i2) = jsontext::take_str(s, i1b)?;
    let i2b = jsontext::skip_lit(s, i2, &lc)?;
    let (rev, i3) = text::take_u64(s, i2b)?;
    let i3b = jsontext::skip_lit(s, i3, &ld)?;
    let (rev_speculation, i4) = text::take_u64(s, i3b)?;
    let i4b = jsontext::skip_lit(s, i4, &le)?;
    let (group_top, i5) = jsontext::take_bool(s, i4b)?;
    let i5b = jsontext::skip_lit(s, i5, &lf)?;
    let (moved_to, i6) = jsontext::take_str(s, i5b)?;
    let i6b = jsontext::skip_lit(s, i6, &lg)?;
    let (navi, i7) = take_navi(s, i6b)?;
    let i7b = jsontext::skip_lit(s, i7, &lh)?;
    let (id_next, i8) = text::take_u64(s, i7b)?;
    let i8b = jsontext::skip_lit(s, i8, &li)?;
    let (subs, i9) = take_subs(s, i8b)?;
    let i9b = jsontext::skip_lit(s, i9, &lj)?;
    let d = Document {
        version: text::chars_to_string(&version),
        title: text::chars_to_string(&title),
        rev,
        rev_speculation,
        group_top,
        moved_to: text::chars_to_string(&moved_to),
        navi,
        id_next,
        subs,
        may_changed: false,
    };
    Some((d, i9b))
}

// ------------------------------------------------------------------
// round trip: parsing a serialized document yields the document back
// ------------------------------------------------------------------

/// Serialized tail of a non-empty entry list: first entry, the remaining
/// entries, and the closing bracket.
pub open spec fn ser_navi_tail(l: Seq<NaviEntryV>) -> Seq<char> {
    ser_navi_entry(l[0]) + ser_navi_rest(l.drop_first()) + seq![']']
}

proof fn lemma_rt_navi_entry(e: NaviEntryV, s: Seq<char>, i: int)
    requires
        lit_at(s, i, ser_navi_entry(e)),
    ensures
        parse_navi_entry_at(s, i) == Some((e, i + ser_navi_entry(e).len() as int)),
{
    let t = ser_navi_entry(e);
    let r1 = ser_str(e.title) + (seq![','] + (ser_str(e.href) + seq![']']));
    assert(t =~= seq!['['] + r1);
    lemma_lit_split(s, i, seq!['['], r1);
    lemma_lit_first(s, i, seq!['[']);
    let r2 = seq![','] + (ser_str(e.href) + seq![']']);
    lemma_lit_split(s, i + 1, ser_str(e.title), r2);
    jsontext::lemma_parse_ser_str(e.title, s, i + 1);
    let j = i + 1 + ser_str(e.title).len() as int;
    lemma_lit_first(s, j, r2);
    let r3 = ser_str(e.href) + seq![']'];
    lemma_lit_split(s, j, seq![','], r3);
    lemma_lit_split(s, j + 1, ser_str(e.href), seq![']']);
    jsontext::lemma_parse_ser_str(e.href, s, j + 1);
    let k = j + 1 + ser_str(e.href).len() as int;
    lemma_lit_first(s, k, seq![']']);
    assert(NaviEntryV { title: e.title, href: e.href } =~= e);
    assert(k + 1 == i + t.len());
}

proof fn lemma_rt_navi_items(l: Seq<NaviEntryV>, acc: Seq<NaviEntryV>, s: Seq<char>, i: int)
    requires
        l.len() >= 1,
        lit_at(s, i, ser_navi_tail(l)),
    ensures
        parse_navi_items(s, i, acc) == Some((acc + l, i + ser_navi_tail(l).len() as int)),
    decreases l.len(),
{
    let t = ser_navi_tail(l);
    let e = l[0];
    let tail = l.drop_first();
    let r1 = ser_navi_rest(tail) + seq![']'];
    assert(t =~= ser_navi_entry(e) + r1);
    lemma_lit_split(s, i, ser_navi_entry(e), r1);
    lemma_rt_navi_entry(e, s, i);
    let j = i + ser_navi_entry(e).len() as int;
    if tail.len() == 0 {
        assert(r1 =~= seq![']']);
        lemma_lit_first(s, j, seq![']']);
        assert(acc.push(e) =~= acc + l);
    } else {
        let r2 = ser_navi_tail(tail);
        assert(r1 =~= seq![','] + r2);
        lemma_lit_split(s, j, seq![','], r2);
        lemma_lit_first(s, j, seq![','] + r2);
        lemma_rt_navi_items(tail, acc.push(e), s, j + 1);
        assert(acc.push(e) + tail =~= acc + l);
    }
}

proof fn lemma_rt_navi(l: Seq<NaviEntryV>, s: Seq<char>, i: int)
    requires
        lit_at(s, i, ser_navi(l)),
    ensures
        parse_navi_at(s, i) == Some((l, i + ser_navi(l).len() as int)),
{
    if l.len() == 0 {
        lemma_lit_first(s, i, ser_navi(l));
        assert(s.subrange(i, i + 2)[1] == ']');
        assert(Seq::<NaviEntryV>::empty() =~= l);
    } else {
        let r1 = ser_navi_tail(l);
        assert(ser_navi(l) =~= seq!['['] + r1);
        lemma_lit_split(s, i, seq!['['], r1);
        lemma_lit_first(s, i, seq!['['] + r1);
        lemma_lit_first(s, i + 1, r1);
        assert(r1[0] == '[') by {
            assert(ser_navi_entry(l[0])[0] == '[');
        }
        assert(s[i + 1] == '[');
        lemma_rt_navi_items(l, Seq::empty(), s, i + 1);
        assert(Seq::empty() + l =~= l);
    }
}

pub open spec fn ser_content_tail(l: Seq<ContentPieceV>) -> Seq<char> {
    ser_piece(l[0]) + ser_content_rest(l.drop_first()) + seq![']']
}

proof fn lemma_rt_piece(p: ContentPieceV, s: Seq<char>, i: int)
    requires
        lit_at(s, i, ser_piece(p)),
    ensures
        parse_piece_at(s, i) == Some((p, i + ser_piece(p).len() as int)),
{
    let t = ser_piece(p);
    let r1 = ser_str(p.kind) + (lit_value() + (ser_str(p.value) + seq!['}']));
    assert(t =~= lit_type() + r1);
    lemma_lit_split(s, i, lit_type(), r1);
    let i1 = i + lit_type().len() as int;
    let r2 = lit_value() + (ser_str(p.value) + seq!['}']);
    lemma_lit_split(s, i1, ser_str(p.kind), r2);
    jsontext::lemma_parse_ser_str(p.kind, s, i1);
    let j = i1 + ser_str(p.kind).len() as int;
    let r3 = ser_str(p.value) + seq!['}'];
    lemma_lit_split(s, j, lit_value(), r3);
    lemma_lit_split(s, j + lit_value().len() as int, ser_str(p.value), seq!['}']);
    jsontext::lemma_parse_ser_str(p.value, s, j + lit_value().len() as int);
    let m = j + lit_value().len() + ser_str(p.value).len() as int;
    lemma_lit_first(s, m, seq!['}']);
    assert(ContentPieceV { kind: p.kind, value: p.value } =~= p);
    assert(m + 1 == i + t.len());
}

proof fn lemma_rt_content_items(l: Seq<ContentPieceV>, acc: Seq<ContentPieceV>, s: Seq<char>, i: int)
    requires
        l.len() >= 1,
        lit_at(s, i, ser_content_tail(l)),
    ensures
        parse_content_items(s, i, acc) == Some((acc + l, i + ser_content_tail(l).len() as int)),
    decreases l.len(),
{
    let t = ser_content_tail(l);
    let p = l[0];
    let tail = l.drop_first();
    let r1 = ser_content_rest(tail) + seq![']'];
    assert(t =~= ser_piece(p) + r1);
    lemma_lit_split(s, i, ser_piece(p), r1);
    lemma_rt_piece(p, s, i);
    let j = i + ser_piece(p).len() as int;
    if tail.len() == 0 {
        assert(r1 =~= seq![']']);
        lemma_lit_first(s, j, seq![']']);
        assert(acc.push(p) =~= acc + l);
    } else {
        let r2 = ser_content_tail(tail);
        assert(r1 =~= seq![','] + r2);
        lemma_lit_split(s, j, seq![','], r2);
        lemma_lit_first(s, j, seq![','] + r2);
        lemma_rt_content_items(tail, acc.push(p), s, j + 1);
        assert(acc.push(p) + tail =~= acc + l);
    }
}

proof fn lemma_rt_content(l: Seq<ContentPieceV>, s: Seq<char>, i: int)
    requires
        lit_at(s, i, ser_content(l)),
    ensures
        parse_content_at(s, i) == Some((l, i + ser_content(l).len() as int)),
{
    if l.len() == 0 {
        lemma_lit_first(s, i, ser_content(l));
        assert(s.subrange(i, i + 2)[1] == ']');
        assert(Seq::<ContentPieceV>::empty() =~= l);
    } else {
        let r1 = ser_content_tail(l);
        assert(ser_content(l) =~= seq!['['] + r1);
        lemma_lit_split(s, i, seq!['['], r1);
        lemma_lit_first(s, i, seq!['['] + r1);
        lemma_lit_first(s, i + 1, r1);
        assert(r1[0] == '{') by {
            reveal_strlit("{\"type\":");
            assert(ser_piece(l[0])[0] == '{');
        }
        assert(s[i + 1] == '{');
        lemma_rt_content_items(l, Seq::empty(), s, i + 1);
        assert(Seq::empty() + l =~= l);
    }
}

pub open spec fn ser_ids_tail(l: Seq<u64>) -> Seq<char> {
    dec(l[0]) + ser_ids_rest(l.drop_first()) + seq![']']
}

proof fn lemma_rt_ids_items(l: Seq<u64>, acc: Seq<u64>, s: Seq<char>, i: int)
    requires
        l.len() >= 1,
        lit_at(s, i, ser_ids_tail(l)),
    ensures
        parse_ids_items(s, i, acc) == Some((acc + l, i + ser_ids_tail(l).len() as int)),
    decreases l.len(),
{
    let t = ser_ids_tail(l);
    let n = l[0];
    let tail = l.drop_first();
    let r1 = ser_ids_rest(tail) + seq![']'];
    assert(t =~= dec(n) + r1);
    lemma_lit_split(s, i, dec(n), r1);
    lemma_lit_first(s, i + dec(n).len() as int, r1);
    let j = i + dec(n).len() as int;
    if tail.len() == 0 {
        assert(r1 =~= seq![']']);
        assert(s[j] == ']');
        assert(!text::is_digit(']')) by {
            assert(']' as u32 == 93);
        }
        text::lemma_parse_dec(s, i, n);
        assert(acc.push(n) =~= acc + l);
    } else {
        let r2 = ser_ids_tail(tail);
        assert(r1 =~= seq![','] + r2);
        lemma_lit_split(s, j, seq![','], r2);
        assert(s[j] == ',');
        assert(!text::is_digit(',')) by {
            assert(',' as u32 == 44);
        }
        text::lemma_parse_dec(s, i, n);
        lemma_rt_ids_items(tail, acc.push(n), s, j + 1);
        assert(acc.push(n) + tail =~= acc + l);
    }
}

proof fn lemma_rt_ids(l: Seq<u64>, s: Seq<char>, i: int)
    requires
        lit_at(s, i, ser_ids(l)),
    ensures
        parse_ids_at(s, i) == Some((l, i + ser_ids(l).len() as int)),
{
    if l.len() == 0 {
        lemma_lit_first(s, i, ser_ids(l));
        assert(s.subrange(i, i + 2)[1] == ']');
        assert(Seq::<u64>::empty() =~= l);
    } else {
        let r1 = ser_ids_tail(l);
        assert(ser_ids(l) =~= seq!['['] + r1);
        lemma_lit_split(s, i, seq!['['], r1);
        lemma_lit_first(s, i, seq!['['] + r1);
        lemma_lit_first(s, i + 1, r1);
        assert(r1[0] == dec(l[0])[0]);
        proof_decl_dec_digit(l[0]);
        assert(text::is_digit(s[i + 1]));
        assert(s[i + 1] != ']') by {
            assert(']' as u32 == 93);
        }
        lemma_rt_ids_items(l, Seq::empty(), s, i + 1);
        assert(Seq::empty() + l =~= l);
    }
}

proof fn proof_decl_dec_digit(n: u64)
    ensures
        text::is_digit(dec(n)[0]),
        dec(n).len() >= 1,
{
    text::lemma_dec_digits(n);
}

#[verifier::rlimit(100)]
proof fn lemma_rt_sub(v: SubsectionV, s: Seq<char>, i: int)
    requires
        lit_at(s, i, ser_sub(v)),
    ensures
        parse_sub_at(s, i) == Some((v, i + ser_sub(v).len() as int)),
{
    let t = ser_sub(v);
    let r1 = dec(v.parent) + (lit_id() + (dec(v.id) + (lit_title() + (ser_str(v.title) + (lit_href()
        + (ser_str(v.href) + (lit_content() + (ser_content(v.content) + (lit_child() + (ser_ids(
        v.children,
    ) + seq!['}']))))))))));
    assert(t =~= lit_parent() + r1);
    lemma_lit_split(s, i, lit_parent(), r1);
    let i0 = i + lit_parent().len() as int;
    let r2 = lit_id() + (dec(v.id) + (lit_title() + (ser_str(v.title) + (lit_href() + (ser_str(
        v.href,
    ) + (lit_content() + (ser_content(v.content) + (lit_child() + (ser_ids(v.children)
        + seq!['}'])))))))));
    lemma_lit_split(s, i0, dec(v.parent), r2);
    lemma_lit_first(s, i0 + dec(v.parent).len() as int, r2);
    assert(r2[0] == ',') by {
        reveal_strlit(",\"id\":");
        assert(lit_id()[0] == ',');
    }
    assert(!text::is_digit(',')) by {
        assert(',' as u32 == 44);
    }
    text::lemma_parse_dec(s, i0, v.parent);
    let i1 = i0 + dec(v.parent).len() as int;
    let r3 = dec(v.id) + (lit_title() + (ser_str(v.title) + (lit_href() + (ser_str(v.href)
        + (lit_content() + (ser_content(v.content) + (lit_child() + (ser_ids(v.children)
        + seq!['}']))))))));
    lemma_lit_split(s, i1, lit_id(), r3);
    let i1b = i1 + lit_id().len() as int;
    let r4 = lit_title() + (ser_str(v.title) + (lit_href() + (ser_str(v.href) + (lit_content()
        + (ser_content(v.content) + (lit_child() + (ser_ids(v.children) + seq!['}'])))))));
    lemma_lit_split(s, i1b, dec(v.id), r4);
    lemma_lit_first(s, i1b + dec(v.id).len() as int, r4);
    assert(r4[0] == ',') by {
        reveal_strlit(",\"title\":");
        assert(lit_title()[0] == ',');
    }
    text::lemma_parse_dec(s, i1b, v.id);
    let i2 = i1b + dec(v.id).len() as int;
    let r5 = ser_str(v.title) + (lit_href() + (ser_str(v.href) + (lit_content() + (ser_content(
        v.content,
    ) + (lit_child() + (ser_ids(v.children) + seq!['}']))))));
    lemma_lit_split(s, i2, lit_title(), r5);
    let i2b = i2 + lit_title().len() as int;
    let r6 = lit_href() + (ser_str(v.href) + (lit_content() + (ser_content(v.content) + (lit_child()
        + (ser_ids(v.children) + seq!['}'])))));
    lemma_lit_split(s, i2b, ser_str(v.title), r6);
    jsontext::lemma_parse_ser_str(v.title, s, i2b);
    let i3 = i2b + ser_str(v.title).len() as int;
    let r7 = ser_str(v.href) + (lit_content() + (ser_content(v.content) + (lit_child() + (ser_ids(
        v.children,
    ) + seq!['}']))));
    lemma_lit_split(s, i3, lit_href(), r7);
    let i3b = i3 + lit_href().len() as int;
    let r8 = lit_content() + (ser_content(v.content) + (lit_child() + (ser_ids(v.children)
        + seq!['}'])));
    lemma_lit_split(s, i3b, ser_str(v.href), r8);
    jsontext::lemma_parse_ser_str(v.href, s, i3b);
    let i4 = i3b + ser_str(v.href).len() as int;
    let r9 = ser_content(v.content) + (lit_child() + (ser_ids(v.children) + seq!['}']));
    lemma_lit_split(s, i4, lit_content(), r9);
    let i4b = i4 + lit_content().len() as int;
    let r10 = lit_child() + (ser_ids(v.children) + seq!['}']);
    lemma_lit_split(s, i4b, ser_content(v.content), r10);
    lemma_rt_content(v.content, s, i4b);
    let i5 = i4b + ser_content(v.content).len() as int;
    let r11 = ser_ids(v.children) + seq!['}'];
    lemma_lit_split(s, i5, lit_child(), r11);
    let i5b = i5 + lit_child().len() as int;
    lemma_lit_split(s, i5b, ser_ids(v.children), seq!['}']);
    lemma_rt_ids(v.children, s, i5b);
    let i6 = i5b + ser_ids(v.children).len() as int;
    lemma_lit_first(s, i6, seq!['}']);
    assert(SubsectionV {
        parent: v.parent,
        id: v.id,
        title: v.title,
        href: v.href,
        content: v.content,
        children: v.children,
    } =~= v);
    assert(i6 + 1 == i + t.len());
}

proof fn lemma_rt_sub_entry(v: SubsectionV, s: Seq<char>, i: int)
    requires
        lit_at(s, i, ser_sub_entry(v)),
    ensures
        parse_sub_entry_at(s, i) == Some((v, i + ser_sub_entry(v).len() as int)),
{
    let t = ser_sub_entry(v);
    let r1 = dec(v.id) + (seq!['"', ':'] + ser_sub(v));
    assert(t =~= seq!['"'] + r1);
    lemma_lit_split(s, i, seq!['"'], r1);
    lemma_lit_first(s, i, seq!['"'] + r1);
    let r2 = seq!['"', ':'] + ser_sub(v);
    lemma_lit_split(s, i + 1, dec(v.id), r2);
    let j = i + 1 + dec(v.id).len() as int;
    lemma_lit_first(s, j, r2);
    assert(r2[0] == '"');
    assert(!text::is_digit('"')) by {
        assert('"' as u32 == 34);
    }
    text::lemma_parse_dec(s, i + 1, v.id);
    lemma_lit_split(s, j, seq!['"', ':'], ser_sub(v));
    assert(s[j + 1] == ':') by {
        assert(s.subrange(j, j + 2)[1] == ':');
    }
    lemma_rt_sub(v, s, j + 2);
}

pub open spec fn ser_subs_tail(l: Seq<SubsectionV>) -> Seq<char> {
    ser_sub_entry(l[0]) + ser_subs_rest(l.drop_first()) + seq!['}']
}

#[verifier::rlimit(60)]
proof fn lemma_rt_subs_items(l: Seq<SubsectionV>, acc: Seq<SubsectionV>, s: Seq<char>, i: int)
    requires
        l.len() >= 1,
        lit_at(s, i, ser_subs_tail(l)),
    ensures
        parse_subs_items(s, i, acc) == Some((acc + l, i + ser_subs_tail(l).len() as int)),
    decreases l.len(),
{
    let t = ser_subs_tail(l);
    let v = l[0];
    let tail = l.drop_first();
    let r1 = ser_subs_rest(tail) + seq!['}'];
    assert(t =~= ser_sub_entry(v) + r1);
    lemma_lit_split(s, i, ser_sub_entry(v), r1);
    lemma_rt_sub_entry(v, s, i);
    let j = i + ser_sub_entry(v).len() as int;
    if tail.len() == 0 {
        assert(r1 =~= seq!['}']);
        lemma_lit_first(s, j, seq!['}']);
        assert(acc.push(v) =~= acc + l);
    } else {
        let r2 = ser_subs_tail(tail);
        assert(r1 =~= seq![','] + r2);
        lemma_lit_split(s, j, seq![','], r2);
        lemma_lit_first(s, j, seq![','] + r2);
        lemma_rt_subs_items(tail, acc.push(v), s, j + 1);
        assert(acc.push(v) + tail =~= acc + l);
    }
}

#[verifier::rlimit(50)]
proof fn lemma_rt_subs(l: Seq<SubsectionV>, s: Seq<char>, i: int)
    requires
        lit_at(s, i, ser_subs(l)),
    ensures
        parse_subs_at(s, i) == Some((l, i + ser_subs(l).len() as int)),
{
    if l.len() == 0 {
        lemma_lit_first(s, i, ser_subs(l));
        assert(s.subrange(i, i + 2)[1] == '}');
        assert(Seq::<SubsectionV>::empty() =~= l);
    } else {
        let r1 = ser_subs_tail(l);
        assert(ser_subs(l) =~= seq!['{'] + r1);
        lemma_lit_split(s, i, seq!['{'], r1);
        lemma_lit_first(s, i, seq!['{'] + r1);
        lemma_lit_first(s, i + 1, r1);
        assert(r1[0] == '"') by {
            assert(ser_sub_entry(l[0])[0] == '"');
        }
        assert(s[i + 1] == '"');
        lemma_rt_subs_items(l, Seq::empty(), s, i + 1);
        assert(Seq::empty() + l =~= l);
    }
}

#[verifier::rlimit(100)]
proof fn lemma_rt_doc_head(d: DocV, s: Seq<char>, i: int)
    requires
        lit_at(s, i, ser_doc_head(d) + ser_doc_tail(d)),
    ensures
        ({
            let i0 = i + lit_a().len() as int;
            let i1 = i0 + ser_str(d.version).len() as int;
            let i1b = i1 + lit_b().len() as int;
            let i2 = i1b + ser_str(d.title).len() as int;
            let i2b = i2 + lit_c().len() as int;
            let i3 = i2b + dec(d.rev).len() as int;
            let i3b = i3 + lit_d().len() as int;
            let i4 = i3b + dec(d.rev_speculation).len() as int;
            let i4b = i4 + lit_e().len() as int;
            let i5 = i4b + ser_bool(d.group_top).len() as int;
            &&& lit_at(s, i, lit_a())
            &&& parse_str_at(s, i0) == Some((d.version, i1))
            &&& lit_at(s, i1, lit_b())
            &&& parse_str_at(s, i1b) == Some((d.title, i2))
            &&& lit_at(s, i2, lit_c())
            &&& parse_u64_at(s, i2b) == Some((d.rev, i3))
            &&& lit_at(s, i3, lit_d())
            &&& parse_u64_at(s, i3b) == Some((d.rev_speculation, i4))
            &&& lit_at(s, i4, lit_e())
            &&& parse_bool_at(s, i4b) == Some((d.group_top, i5))
            &&& i5 == i + ser_doc_head(d).len() as int
            &&& lit_at(s, i5, ser_doc_tail(d))
        }),
{
    let r1 = ser_str(d.version) + (lit_b() + (ser_str(d.title) + (lit_c() + (dec(d.rev) + (lit_d()
        + (dec(d.rev_speculation) + (lit_e() + (ser_bool(d.group_top) + ser_doc_tail(d)))))))));
    assert(ser_doc_head(d) + ser_doc_tail(d) =~= lit_a() + r1);
    lemma_lit_split(s, i, lit_a(), r1);
    let i0 = i + lit_a().len() as int;
    let r2 = lit_b() + (ser_str(d.title) + (lit_c() + (dec(d.rev) + (lit_d() + (dec(
        d.rev_speculation,
    ) + (lit_e() + (ser_bool(d.group_top) + ser_doc_tail(d))))))));
    lemma_lit_split(s, i0, ser_str(d.version), r2);
    jsontext::lemma_parse_ser_str(d.version, s, i0);
    let i1 = i0 + ser_str(d.version).len() as int;
    let r3 = ser_str(d.title) + (lit_c() + (dec(d.rev) + (lit_d() + (dec(d.rev_speculation) + (
    lit_e() + (ser_bool(d.group_top) + ser_doc_tail(d)))))));
    lemma_lit_split(s, i1, lit_b(), r3);
    let i1b = i1 + lit_b().len() as int;
    let r4 = lit_c() + (dec(d.rev) + (lit_d() + (dec(d.rev_speculation) + (lit_e() + (ser_bool(
        d.group_top,
    ) + ser_doc_tail(d))))));
    lemma_lit_split(s, i1b, ser_str(d.title), r4);
    jsontext::lemma_parse_ser_str(d.title, s, i1b);
    let i2 = i1b + ser_str(d.title).len() as int;
    let r5 = dec(d.rev) + (lit_d() + (dec(d.rev_speculation) + (lit_e() + (ser_bool(d.group_top)
        + ser_doc_tail(d)))));
    lemma_lit_split(s, i2, lit_c(), r5);
    let i2b = i2 + lit_c().len() as int;
    let r6 = lit_d() + (dec(d.rev_speculation) + (lit_e() + (ser_bool(d.group_top) + ser_doc_tail(
        d,
    ))));
    lemma_lit_split(s, i2b, dec(d.rev), r6);
    lemma_lit_first(s, i2b + dec(d.rev).len() as int, r6);
    assert(r6[0] == ',') by {
        reveal_strlit(",\"rev_speculation\":");
        assert(lit_d()[0] == ',');
    }
    assert(!text::is_digit(',')) by {
        assert(',' as u32 == 44);
    }
    text::lemma_parse_dec(s, i2b, d.rev);
    let i3 = i2b + dec(d.rev).len() as int;
    let r7 = dec(d.rev_speculation) + (lit_e() + (ser_bool(d.group_top) + ser_doc_tail(d)));
    lemma_lit_split(s, i3, lit_d(), r7);
    let i3b = i3 + lit_d().len() as int;
    let r8 = lit_e() + (ser_bool(d.group_top) + ser_doc_tail(d));
    lemma_lit_split(s, i3b, dec(d.rev_speculation), r8);
    lemma_lit_first(s, i3b + dec(d.rev_speculation).len() as int, r8);
    assert(r8[0] == ',') by {
        reveal_strlit(",\"group_top\":");
        assert(lit_e()[0] == ',');
    }
    text::lemma_parse_dec(s, i3b, d.rev_speculation);
    let i4 = i3b + dec(d.rev_speculation).len() as int;
    let r9 = ser_bool(d.group_top) + ser_doc_tail(d);
    lemma_lit_split(s, i4, lit_e(), r9);
    let i4b = i4 + lit_e().len() as int;
    lemma_lit_split(s, i4b, ser_bool(d.group_top), ser_doc_tail(d));
    jsontext::lemma_parse_ser_bool(d.group_top, s, i4b);
}

#[verifier::rlimit(100)]
proof fn lemma_rt_doc_tail(d: DocV, s: Seq<char>, i6: int)
    requires
        lit_at(s, i6, ser_doc_tail(d)),
    ensures
        ({
            let j0 = i6 + lit_f().len() as int;
            let j1 = j0 + ser_str(d.moved_to).len() as int;
            let j1b = j1 + lit_g().len() as int;
            let j2 = j1b + ser_navi(d.navi).len() as int;
            let j2b = j2 + lit_h().len() as int;
            let j3 = j2b + dec(d.id_next).len() as int;
            let j3b = j3 + lit_i().len() as int;
            let j4 = j3b + ser_subs(d.subs).len() as int;
            &&& lit_at(s, i6, lit_f())
            &&& parse_str_at(s, j0) == Some((d.moved_to, j1))
            &&& lit_at(s, j1, lit_g())
            &&& parse_navi_at(s, j1b) == Some((d.navi, j2))
            &&& lit_at(s, j2, lit_h())
            &&& parse_u64_at(s, j2b) == Some((d.id_next, j3))
            &&& lit_at(s, j3, lit_i())
            &&& parse_subs_at(s, j3b) == Some((d.subs, j4))
            &&& lit_at(s, j4, lit_j())
            &&& j4 + lit_j().len() == i6 + ser_doc_tail(d).len()
        }),
{
    let r1 = ser_str(d.moved_to) + (lit_g() + (ser_navi(d.navi) + (lit_h() + (dec(d.id_next) + (
    lit_i() + (ser_subs(d.subs) + lit_j()))))));
    assert(ser_doc_tail(d) =~= lit_f() + r1);
    lemma_lit_split(s, i6, lit_f(), r1);
    let j0 = i6 + lit_f().len() as int;
    let r2 = lit_g() + (ser_navi(d.navi) + (lit_h() + (dec(d.id_next) + (lit_i() + (ser_subs(
        d.subs,
    ) + lit_j())))));
    lemma_lit_split(s, j0, ser_str(d.moved_to), r2);
    jsontext::lemma_parse_ser_str(d.moved_to, s, j0);
    let j1 = j0 + ser_str(d.moved_to).len() as int;
    let r3 = ser_navi(d.navi) + (lit_h() + (dec(d.id_next) + (lit_i() + (ser_subs(d.subs) + lit_j(
    )))));
    lemma_lit_split(s, j1, lit_g(), r3);
    let j1b = j1 + lit_g().len() as int;
    let r4 = lit_h() + (dec(d.id_next) + (lit_i() + (ser_subs(d.subs) + lit_j())));
    lemma_lit_split(s, j1b, ser_navi(d.navi), r4);
    lemma_rt_navi(d.navi, s, j1b);
    let j2 = j1b + ser_navi(d.navi).len() as int;
    let r5 = dec(d.id_next) + (lit_i() + (ser_subs(d.subs) + lit_j()));
    lemma_lit_split(s, j2, lit_h(), r5);
    let j2b = j2 + lit_h().len() as int;
    let r6 = lit_i() + (ser_subs(d.subs) + lit_j());
    lemma_lit_split(s, j2b, dec(d.id_next), r6);
    lemma_lit_first(s, j2b + dec(d.id_next).len() as int, r6);
    assert(r6[0] == ',') by {
        reveal_strlit(",\"id_notinuse\":[]},\"data\":");
        assert(lit_i()[0] == ',');
    }
    assert(!text::is_digit(',')) by {
        assert(',' as u32 == 44);
    }
    text::lemma_parse_dec(s, j2b, d.id_next);
    let j3 = j2b + dec(d.id_next).len() as int;
    let r7 = ser_subs(d.subs) + lit_j();
    lemma_lit_split(s, j3, lit_i(), r7);
    let j3b = j3 + lit_i().len() as int;
    lemma_lit_split(s, j3b, ser_subs(d.subs), lit_j());
    lemma_rt_subs(d.subs, s, j3b);
    let j4 = j3b + ser_subs(d.subs).len() as int;
    assert(DocV {
        version: d.version,
        title: d.title,
        rev: d.rev,
        rev_speculation: d.rev_speculation,
        group_top: d.group_top,
        moved_to: d.moved_to,
        navi: d.navi,
        id_next: d.id_next,
        subs: d.subs,
    } =~= d);
    assert(j4 + lit_j().len() == i6 + ser_doc_tail(d).len());
}

/// Reading a serialized document back yields the document.
#[verifier::rlimit(100)]
pub proof fn lemma_rt_doc(d: DocV, s: Seq<char>, i: int)
    requires
        lit_at(s, i, ser_doc(d)),
    ensures
        parse_doc_at(s, i) == Some((d, i + ser_doc(d).len() as int)),
{
    lemma_rt_doc_head(d, s, i);
    let i6 = i + ser_doc_head(d).len() as int;
    lemma_rt_doc_tail(d, s, i6);
    assert(DocV {
        version: d.version,
        title: d.title,
        rev: d.rev,
        rev_speculation: d.rev_speculation,
        group_top: d.group_top,
        moved_to: d.moved_to,
        navi: d.navi,
        id_next: d.id_next,
        subs: d.subs,
    } =~= d);
}

/// Parses a bare document JSON text (as a client posts it), accepting it
/// only when the whole text is one serialized document.
pub open spec fn doc_of_json(s: Seq<char>) -> Option<DocV> {
    match parse_doc_at(s, 0) {
        Some((d, j)) => if j == s.len() {
            Some(d)
        } else {
            None
        },
        None => None,
    }
}

/// Reads a document from a bare JSON text, mirroring `doc_of_json`.  The
/// returned document's dirty flag is clear.
pub fn document_from_json_text(s: &str) -> (r: Option<Document>)
    ensures
        (r matches Some(d) ==> doc_of_json(s@) == Some(d@) && !d.may_changed),
        (r is None ==> doc_of_json(s@) is None),
{
    let cs = text::to_chars(s);
    match take_doc(&cs, 0) {
        Some((d, j)) => {
            if j == cs.len() {
                Some(d)
            } else {
                None
            }
        }
        None => None,
    }
}

/// A serialized document JSON parses back to the document exactly.
pub proof fn lemma_doc_json_round_trip(d: DocV)
    ensures
        doc_of_json(ser_doc(d)) == Some(d),
{
    let s = ser_doc(d);
    assert(s.subrange(0, s.len() as int) =~= s);
    lemma_rt_doc(d, s, 0);
}

// ------------------------------------------------------------------
// small flat objects, as posted request bodies carry them
// ------------------------------------------------------------------

/// Reads the members of `{"key":"value",...}` after the opening brace,
/// accumulating the pairs.
pub open spec fn parse_pairs(s: Seq<char>, i: int, acc: Seq<(Seq<char>, Seq<char>)>) -> Option<
    (Seq<(Seq<char>, Seq<char>)>, int),
>
    decreases s.len() - i,
    when i >= 0
    via parse_pairs_dec
{
    match parse_str_at(s, i) {
        None => None,
        Some((k, j)) => if j < s.len() && s[j] == ':' {
            match parse_str_at(s, j + 1) {
                None => None,
                Some((v, m)) => if m < s.len() && s[m] == ',' {
                    parse_pairs(s, m + 1, acc.push((k, v)))
                } else if m < s.len() && s[m] == '}' {
                    Some((acc.push((k, v)), m + 1))
                } else {
                    None
                },
            }
        } else {
            None
        },
    }
}

#[via_fn]
proof fn parse_pairs_dec(s: Seq<char>, i: int, acc: Seq<(Seq<char>, Seq<char>)>) {
    jsontext::lemma_parse_str_bounds(s, i);
    if let Some((k, j)) = parse_str_at(s, i) {
        jsontext::lemma_parse_str_bounds(s, j + 1);
    }
}

/// A flat JSON object of string members, as the request bodies of the
/// edit operations carry them: `{}` or `{"key":"value",...}`.  The whole
/// text must be one object.
pub open spec fn flat_object_of(s: Seq<char>) -> Option<Seq<(Seq<char>, Seq<char>)>> {
    if s.len() >= 1 && s[0] == '{' {
        if s.len() == 2 && s[1] == '}' {
            Some(Seq::empty())
        } else {
            match parse_pairs(s, 1, Seq::empty()) {
                Some((l, j)) => if j == s.len() {
                    Some(l)
                } else {
                    None
                },
                None => None,
            }
        }
    } else {
        None
    }
}

/// Reads a flat JSON object of string members, mirroring
/// `flat_object_of`.
pub fn parse_flat_object(s: &str) -> (r: Option<Vec<(String, String)>>)
    ensures
        (r matches Some(l) ==> flat_object_of(s@) == Some(l.deep_view())),
        (r is None ==> flat_object_of(s@) is None),
{
    let cs = text::to_chars(s);
    if cs.len() == 0 || cs[0] != '{' {
        return None;
    }
    if cs.len() == 2 && cs[1] == '}' {
        let l: Vec<(String, String)> = Vec::new();
        assert(l.deep_view() =~= Seq::<(Seq<char>, Seq<char>)>::empty());
        return Some((l));
    }
    let acc: Vec<(String, String)> = Vec::new();
    assert(acc.deep_view() =~= Seq::<(Seq<char>, Seq<char>)>::empty());
    match take_pairs(&cs, 1, acc) {
        Some((l, j)) => {
            if j == cs.len() {
                Some(l)
            } else {
                None
            }
        }
        None => None,
    }
}

fn take_pairs(s: &Vec<char>, i: usize, acc: Vec<(String, String)>) -> (r: Option<
    (Vec<(String, String)>, usize),
>)
    requires
        i <= s.len(),
    ensures
        match r {
            Some((l, j)) => parse_pairs(s@, i as int, acc.deep_view()) == Some(
                (l.deep_view(), j as int),
            ) && j <= s.len(),
            None => parse_pairs(s@, i as int, acc.deep_view()) is None,
        },
    decreases s.len() - i,
{
    let ghost acc0 = acc.deep_view();
    let mut acc = acc;
    let (k, j) = jsontext::take_str(s, i)?;
    if j == s.len() || s[j] != ':' {
        return None;
    }
    let (v, m) = jsontext::take_str(s, j + 1)?;
    let pair = (text::chars_to_string(&k), text::chars_to_string(&v));
    acc.push(pair);
    assert(acc.deep_view() =~= acc0.push((k@, v@)));
    if m < s.len() && s[m] == ',' {
        take_pairs(s, m + 1, acc)
    } else if m < s.len() && s[m] == '}' {
        Some((acc, m + 1))
    } else {
        None
    }
}

} // verus!
