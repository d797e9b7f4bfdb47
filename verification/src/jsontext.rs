use vstd::prelude::*;
use crate::text;

verus! {

/// JSON escape of one character: quote, backslash, newline, carriage return
/// and tab get a two-character escape, everything else stands for itself.
pub open spec fn esc_char(c: char) -> Seq<char> {
    if c == '"' {
        seq!['\\', '"']
    } else if c == '\\' {
        seq!['\\', '\\']
    } else if c == '\n' {
        seq!['\\', 'n']
    } else if c == '\r' {
        seq!['\\', 'r']
    } else if c == '\t' {
        seq!['\\', 't']
    } else {
        seq![c]
    }
}

/// JSON escape of a whole text.
pub open spec fn esc_json(s: Seq<char>) -> Seq<char>
    decreases s.len(),
{
    if s.len() == 0 {
        Seq::empty()
    } else {
        esc_char(s[0]) + esc_json(s.drop_first())
    }
}

/// A JSON string token: the text escaped, between double quotes.
pub open spec fn ser_str(s: Seq<char>) -> Seq<char> {
    seq!['"'] + esc_json(s) + seq!['"']
}

pub proof fn lemma_esc_snoc(p: Seq<char>, c: char)
    ensures
        esc_json(p.push(c)) == esc_json(p) + esc_char(c),
    decreases p.len(),
{
    if p.len() == 0 {
        assert(p.push(c).drop_first() =~= Seq::<char>::empty());
        assert(esc_json(Seq::<char>::empty()) == Seq::<char>::empty());
        assert(p.push(c)[0] == c);
        assert(esc_json(p.push(c)) =~= esc_char(c));
        assert(esc_json(p) + esc_char(c) =~= esc_char(c));
    } else {
        assert(p.push(c).drop_first() =~= p.drop_first().push(c));
        lemma_esc_snoc(p.drop_first(), c);
        assert(esc_json(p.push(c)) =~= esc_json(p) + esc_char(c));
    }
}

/// Writes the JSON escape of `s` onto `out`.
pub fn push_esc_json(out: &mut Vec<char>, s: &str)
    ensures
        final(out)@ == old(out)@ + esc_json(s@),
{
    let cs = text::to_chars(s);
    let mut i: usize = 0;
    assert(out@ =~= old(out)@ + esc_json(s@.subrange(0, 0)));
    while i < cs.len()
        invariant
            cs@ == s@,
            i <= cs.len(),
            out@ == old(out)@ + esc_json(s@.subrange(0, i as int)),
        decreases cs.len() - i,
    {
        let c = cs[i];
        if c == '"' {
            out.push('\\');
            out.push('"');
        } else if c == '\\' {
            out.push('\\');
            out.push('\\');
        } else if c == '\n' {
            out.push('\\');
            out.push('n');
        } else if c == '\r' {
            out.push('\\');
            out.push('r');
        } else if c == '\t' {
            out.push('\\');
            out.push('t');
        } else {
            out.push(c);
        }
        proof {
            let p = s@.subrange(0, i as int);
            lemma_esc_snoc(p, s@[i as int]);
            assert(p.push(s@[i as int]) =~= s@.subrange(0, i + 1));
            assert(out@ =~= old(out)@ + esc_json(s@.subrange(0, i + 1)));
        }
        i = i + 1;
    }
    assert(s@.subrange(0, s@.len() as int) =~= s@);
}

/// Writes a JSON string token for `s` onto `out`.
pub fn push_json_str(out: &mut Vec<char>, s: &str)
    ensures
        final(out)@ == old(out)@ + ser_str(s@),
{
    out.push('"');
    push_esc_json(out, s);
    out.push('"');
    assert(final(out)@ =~= old(out)@ + ser_str(s@));
}

/// Reads the body of a JSON string starting at `i` (just past the opening
/// quote), with `acc` holding what was already read: stops at an unescaped
/// closing quote, unescapes the five accepted escapes, fails on anything
/// else or on running out of text.
pub open spec fn parse_str_body(s: Seq<char>, i: int, acc: Seq<char>) -> Option<(Seq<char>, int)>
    decreases s.len() - i,
{
    if i < 0 || i >= s.len() {
        None
    } else if s[i] == '"' {
        Some((acc, i + 1))
    } else if s[i] == '\\' {
        if i + 1 < s.len() {
            let c = s[i + 1];
            if c == '"' {
                parse_str_body(s, i + 2, acc.push('"'))
            } else if c == '\\' {
                parse_str_body(s, i + 2, acc.push('\\'))
            } else if c == 'n' {
                parse_str_body(s, i + 2, acc.push('\n'))
            } else if c == 'r' {
                parse_str_body(s, i + 2, acc.push('\r'))
            } else if c == 't' {
                parse_str_body(s, i + 2, acc.push('\t'))
            } else {
                None
            }
        } else {
            None
        }
    } else {
        parse_str_body(s, i + 1, acc.push(s[i]))
    }
}

/// Reads a JSON string token at `i`: an opening quote, then the body.
pub open spec fn parse_str_at(s: Seq<char>, i: int) -> Option<(Seq<char>, int)> {
    if 0 <= i < s.len() && s[i] == '"' {
        parse_str_body(s, i + 1, Seq::empty())
    } else {
        None
    }
}

proof fn lemma_parse_esc_body(v: Seq<char>, s: Seq<char>, i: int, acc: Seq<char>)
    requires
        0 <= i,
        i + esc_json(v).len() + 1 <= s.len(),
        s.subrange(i, i + esc_json(v).len() as int) == esc_json(v),
        s[i + esc_json(v).len() as int] == '"',
    ensures
        parse_str_body(s, i, acc) == Some((acc + v, i + esc_json(v).len() + 1)),
    decreases v.len(),
{
    if v.len() == 0 {
        assert(s[i] == '"');
        assert(acc + v =~= acc);
    } else {
        let c = v[0];
        let e = esc_char(c);
        let rest = v.drop_first();
        assert(esc_json(v) == e + esc_json(rest));
        assert(1 <= e.len() <= 2);
        assert(s[i] == e[0]) by {
            assert(s.subrange(i, i + esc_json(v).len() as int)[0] == esc_json(v)[0]);
            assert(esc_json(v)[0] == e[0]);
        }
        assert(e.len() == 2 ==> s[i + 1] == e[1]) by {
            if e.len() == 2 {
                assert(s.subrange(i, i + esc_json(v).len() as int)[1] == esc_json(v)[1]);
                assert(esc_json(v)[1] == e[1]);
            }
        }
        assert(s.subrange(i + e.len(), i + esc_json(v).len() as int) =~= esc_json(rest)) by {
            assert forall|k: int| 0 <= k < esc_json(rest).len() implies s[i + e.len() + k]
                == esc_json(rest)[k] by {
                assert(s.subrange(i, i + esc_json(v).len() as int)[e.len() + k]
                    == esc_json(v)[e.len() + k]);
            }
        }
        if c == '"' || c == '\\' || c == '\n' || c == '\r' || c == '\t' {
            assert(s[i] == '\\');
            lemma_parse_esc_body(rest, s, i + 2, acc.push(c));
            assert(acc.push(c) + rest =~= acc + v);
        } else {
            assert(s[i] == c);
            assert(c != '"' && c != '\\');
            lemma_parse_esc_body(rest, s, i + 1, acc.push(c));
            assert(acc.push(c) + rest =~= acc + v);
        }
    }
}

/// Reading a serialized string token back yields the text it was made from.
pub proof fn lemma_parse_ser_str(v: Seq<char>, s: Seq<char>, i: int)
    requires
        0 <= i,
        i + ser_str(v).len() <= s.len(),
        s.subrange(i, i + ser_str(v).len() as int) == ser_str(v),
    ensures
        parse_str_at(s, i) == Some((v, i + ser_str(v).len() as int)),
{
    let t = ser_str(v);
    assert(s[i] == '"') by {
        assert(s.subrange(i, i + t.len() as int)[0] == t[0]);
        assert(t[0] == '"');
    }
    assert(s.subrange(i + 1, i + 1 + esc_json(v).len() as int) =~= esc_json(v)) by {
        assert forall|k: int| 0 <= k < esc_json(v).len() implies s[i + 1 + k] == esc_json(v)[k] by {
            assert(s.subrange(i, i + t.len() as int)[1 + k] == t[1 + k]);
            assert(t[1 + k] == esc_json(v)[k]);
        }
    }
    assert(s[i + 1 + esc_json(v).len() as int] == '"') by {
        assert(s.subrange(i, i + t.len() as int)[t.len() - 1] == t[t.len() - 1]);
        assert(t[t.len() - 1] == '"');
    }
    lemma_parse_esc_body(v, s, i + 1, Seq::empty());
    assert(Seq::empty() + v =~= v);
}

proof fn lemma_parse_str_body_bounds(s: Seq<char>, i: int, acc: Seq<char>)
    ensures
        (parse_str_body(s, i, acc) matches Some(r) ==> i < r.1 <= s.len()),
    decreases s.len() - i,
{
    if 0 <= i < s.len() {
        if s[i] == '"' {
        } else if s[i] == '\\' {
            if i + 1 < s.len() {
                let c = s[i + 1];
                if c == '"' {
                    lemma_parse_str_body_bounds(s, i + 2, acc.push('"'));
                } else if c == '\\' {
                    lemma_parse_str_body_bounds(s, i + 2, acc.push('\\'));
                } else if c == 'n' {
                    lemma_parse_str_body_bounds(s, i + 2, acc.push('\n'));
                } else if c == 'r' {
                    lemma_parse_str_body_bounds(s, i + 2, acc.push('\r'));
                } else if c == 't' {
                    lemma_parse_str_body_bounds(s, i + 2, acc.push('\t'));
                }
            }
        } else {
            lemma_parse_str_body_bounds(s, i + 1, acc.push(s[i]));
        }
    }
}

/// A successfully parsed string token sits strictly inside the text.
pub proof fn lemma_parse_str_bounds(s: Seq<char>, i: int)
    ensures
        (parse_str_at(s, i) matches Some(r) ==> i + 2 <= r.1 <= s.len()),
{
    if 0 <= i < s.len() && s[i] == '"' {
        lemma_parse_str_body_bounds(s, i + 1, Seq::empty());
    }
}

/// Reads a JSON string token at `i`, mirroring `parse_str_at`.
pub fn take_str(s: &Vec<char>, i: usize) -> (r: Option<(Vec<char>, usize)>)
    requires
        i <= s.len(),
    ensures
        match r {
            Some((v, j)) => parse_str_at(s@, i as int) == Some((v@, j as int)) && i < j <= s.len(),
            None => parse_str_at(s@, i as int) is None,
        },
{
    if i == s.len() || s[i] != '"' {
        return None;
    }
    let mut acc: Vec<char> = Vec::new();
    let mut j: usize = i + 1;
    loop
        invariant
            i + 1 <= j <= s.len(),
            parse_str_at(s@, i as int) == parse_str_body(s@, j as int, acc@),
        decreases s.len() - j,
    {
        if j == s.len() {
            return None;
        }
        let c = s[j];
        if c == '"' {
            return Some((acc, j + 1));
        } else if c == '\\' {
            if j + 1 == s.len() {
                return None;
            }
            let e = s[j + 1];
            if e == '"' {
                acc.push('"');
            } else if e == '\\' {
                acc.push('\\');
            } else if e == 'n' {
                acc.push('\n');
            } else if e == 'r' {
                acc.push('\r');
            } else if e == 't' {
                acc.push('\t');
            } else {
                return None;
            }
            j = j + 2;
        } else {
            acc.push(c);
            j = j + 1;
        }
    }
}

/// `lit` occurs in `s` exactly at position `i`.
pub open spec fn lit_at(s: Seq<char>, i: int, lit: Seq<char>) -> bool {
    0 <= i && i + lit.len() <= s.len() && s.subrange(i, i + lit.len() as int) == lit
}

/// Compares the text at `i` against `lit`; on a match returns the position
/// just past it.
pub fn skip_lit(s: &Vec<char>, i: usize, lit: &Vec<char>) -> (r: Option<usize>)
    requires
        i <= s.len(),
    ensures
        match r {
            Some(j) => lit_at(s@, i as int, lit@) && j == i + lit.len(),
            None => !lit_at(s@, i as int, lit@),
        },
{
    if s.len() - i < lit.len() {
        return None;
    }
    let mut k: usize = 0;
    while k < lit.len()
        invariant
            k <= lit.len(),
            i + lit.len() <= s.len(),
            forall|m: int| 0 <= m < k ==> s@[i + m] == lit@[m],
        decreases lit.len() - k,
    {
        if s[i + k] != lit[k] {
            assert(!lit_at(s@, i as int, lit@)) by {
                if lit_at(s@, i as int, lit@) {
                    assert(s@.subrange(i as int, i + lit@.len() as int)[k as int] == lit@[k as int]);
                }
            }
            return None;
        }
        k = k + 1;
    }
    assert(s@.subrange(i as int, i + lit@.len() as int) =~= lit@);
    Some(i + lit.len())
}

/// The two JSON boolean tokens.
pub open spec fn ser_bool(b: bool) -> Seq<char> {
    if b {
        seq!['t', 'r', 'u', 'e']
    } else {
        seq!['f', 'a', 'l', 's', 'e']
    }
}

/// Reads a JSON boolean token at `i`.
pub open spec fn parse_bool_at(s: Seq<char>, i: int) -> Option<(bool, int)> {
    if lit_at(s, i, ser_bool(true)) {
        Some((true, i + 4))
    } else if lit_at(s, i, ser_bool(false)) {
        Some((false, i + 5))
    } else {
        None
    }
}

/// Reading a serialized boolean back yields the value it was made from.
pub proof fn lemma_parse_ser_bool(b: bool, s: Seq<char>, i: int)
    requires
        lit_at(s, i, ser_bool(b)),
    ensures
        parse_bool_at(s, i) == Some((b, i + ser_bool(b).len() as int)),
{
    if !b {
        // the text starts with 'f', so it cannot also start with 't'
        assert(s.subrange(i, i + 5)[0] == 'f');
        if lit_at(s, i, ser_bool(true)) {
            assert(s.subrange(i, i + 4)[0] == 't');
            assert(s[i] == 't' && s[i] == 'f');
        }
    }
}

/// Reads a JSON boolean token at `i`, mirroring `parse_bool_at`.
pub fn take_bool(s: &Vec<char>, i: usize) -> (r: Option<(bool, usize)>)
    requires
        i <= s.len(),
    ensures
        match r {
            Some((b, j)) => parse_bool_at(s@, i as int) == Some((b, j as int)) && i < j <= s.len(),
            None => parse_bool_at(s@, i as int) is None,
        },
{
    let t: Vec<char> = vec!['t', 'r', 'u', 'e'];
    let f: Vec<char> = vec!['f', 'a', 'l', 's', 'e'];
    assert(t@ =~= ser_bool(true));
    assert(f@ =~= ser_bool(false));
    if let Some(j) = skip_lit(s, i, &t) {
        return Some((true, j));
    }
    if let Some(j) = skip_lit(s, i, &f) {
        return Some((false, j));
    }
    None
}

} // verus!
