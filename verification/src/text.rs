use vstd::prelude::*;

verus! {

/// Collects the characters of a string slice into a vector.
pub fn to_chars(s: &str) -> (r: Vec<char>)
    ensures
        r@ == s@,
{
    let n = s.unicode_len();
    let mut r: Vec<char> = Vec::new();
    let mut i: usize = 0;
    while i < n
        invariant
            n == s@.len(),
            i <= n,
            r@ == s@.subrange(0, i as int),
        decreases n - i,
    {
        r.push(s.get_char(i));
        assert(r@ =~= s@.subrange(0, i + 1 as int));
        i = i + 1;
    }
    assert(r@ =~= s@);
    r
}

/// Relies on `String`'s `FromIterator` impl: collecting an iterator of
/// characters builds the string holding exactly those characters in order.
#[verifier::external_body]
pub fn chars_to_string(v: &Vec<char>) -> (s: String)
    ensures
        s@ == v@,
{
    v.iter().collect()
}

/// Decimal digit, `'0'` through `'9'`.
pub open spec fn is_digit(c: char) -> bool {
    48 <= c as u32 <= 57
}

pub open spec fn digit_val(c: char) -> u64 {
    (c as u32 - 48) as u64
}

pub open spec fn digit_char(d: u64) -> char {
    if d == 0 { '0' } else if d == 1 { '1' } else if d == 2 { '2' }
    else if d == 3 { '3' } else if d == 4 { '4' } else if d == 5 { '5' }
    else if d == 6 { '6' } else if d == 7 { '7' } else if d == 8 { '8' }
    else { '9' }
}

/// Decimal representation of `n`, most significant digit first, no leading
/// zeros (except for the single digit of zero itself).
pub open spec fn dec(n: u64) -> Seq<char>
    decreases n,
{
    if n < 10 {
        seq![digit_char(n)]
    } else {
        dec(n / 10) + seq![digit_char(n % 10)]
    }
}

pub proof fn lemma_dec_digits(n: u64)
    ensures
        dec(n).len() >= 1,
        forall|i: int| 0 <= i < dec(n).len() ==> is_digit(#[trigger] dec(n)[i]),
    decreases n,
{
    if n < 10 {
        assert(is_digit(digit_char(n)));
    } else {
        lemma_dec_digits(n / 10);
        assert(is_digit(digit_char(n % 10)));
        assert(forall|i: int| 0 <= i < dec(n / 10).len() ==> is_digit(#[trigger] dec(n)[i]));
    }
}

fn digit_char_exec(d: u64) -> (c: char)
    requires
        d < 10,
    ensures
        c == digit_char(d),
        is_digit(c),
        digit_val(c) == d,
{
    match d {
        0 => '0', 1 => '1', 2 => '2', 3 => '3', 4 => '4',
        5 => '5', 6 => '6', 7 => '7', 8 => '8', _ => '9',
    }
}

/// Writes the decimal representation of `n` onto the end of `out`.
pub fn push_dec(out: &mut Vec<char>, n: u64)
    ensures
        final(out)@ == old(out)@ + dec(n),
    decreases n,
{
    if n < 10 {
        out.push(digit_char_exec(n));
        assert(final(out)@ =~= old(out)@ + dec(n));
    } else {
        push_dec(out, n / 10);
        out.push(digit_char_exec(n % 10));
        assert(final(out)@ =~= old(out)@ + dec(n));
    }
}

pub open spec fn pow10(k: nat) -> nat
    decreases k,
{
    if k == 0 { 1 } else { 10 * pow10((k - 1) as nat) }
}

/// Reads digits starting at `i`, folding them onto `acc`; stops at the first
/// non-digit (or the end) and fails on `u64` overflow.
pub open spec fn parse_u64_rec(s: Seq<char>, i: int, acc: u64) -> Option<(u64, int)>
    decreases s.len() - i,
{
    if 0 <= i < s.len() && is_digit(s[i]) {
        if acc as nat * 10 + digit_val(s[i]) as nat > u64::MAX as nat {
            None
        } else {
            parse_u64_rec(s, i + 1, (acc * 10 + digit_val(s[i])) as u64)
        }
    } else {
        Some((acc, i))
    }
}

/// Parses a decimal number at position `i`: at least one digit, greedy,
/// failing on overflow.
pub open spec fn parse_u64_at(s: Seq<char>, i: int) -> Option<(u64, int)> {
    if 0 <= i < s.len() && is_digit(s[i]) {
        parse_u64_rec(s, i, 0)
    } else {
        None
    }
}

/// Reading the digits of `dec(n)` onto accumulator `acc` yields
/// `acc * pow10(len) + n` and consumes exactly `dec(n)`.
proof fn lemma_parse_dec_prefix(s: Seq<char>, i: int, acc: u64, n: u64)
    requires
        0 <= i,
        i + dec(n).len() <= s.len(),
        s.subrange(i, i + dec(n).len() as int) == dec(n),
        acc as nat * pow10(dec(n).len() as nat) + n as nat <= u64::MAX as nat,
    ensures
        parse_u64_rec(s, i, acc) == parse_u64_rec(
            s,
            i + dec(n).len() as int,
            (acc as nat * pow10(dec(n).len() as nat) + n as nat) as u64,
        ),
    decreases n,
{
    lemma_dec_digits(n);
    if n < 10 {
        assert(s[i] == dec(n)[0]);
        assert(digit_val(digit_char(n)) == n);
        assert(is_digit(s[i]));
        assert(pow10(1) == 10 * pow10(0));
        assert(pow10(0) == 1);
        assert(acc as nat * 10 + n as nat <= u64::MAX as nat);
        assert(parse_u64_rec(s, i, acc) == parse_u64_rec(s, i + 1, (acc * 10 + n) as u64));
    } else {
        let q = n / 10;
        let d = n % 10;
        let lq = dec(q).len();
        assert(dec(n) == dec(q) + seq![digit_char(d)]);
        assert(s.subrange(i, i + lq as int) =~= dec(q));
        // acc * pow10(lq + 1) + n == (acc * pow10(lq) + q) * 10 + d
        assert(pow10(lq as nat + 1) == 10 * pow10(lq as nat));
        assert(n as nat == 10 * q as nat + d as nat);
        assert(acc as nat * pow10(lq as nat + 1) + n as nat
            == (acc as nat * pow10(lq as nat) + q as nat) * 10 + d as nat) by (nonlinear_arith)
            requires
                pow10(lq as nat + 1) == 10 * pow10(lq as nat),
                n as nat == 10 * q as nat + d as nat,
        ;
        assert(pow10(lq as nat) >= 1) by {
            lemma_pow10_pos(lq as nat);
        }
        assert(acc as nat * pow10(lq as nat) + q as nat <= u64::MAX as nat) by (nonlinear_arith)
            requires
                (acc as nat * pow10(lq as nat) + q as nat) * 10 + d as nat <= u64::MAX as nat,
        ;
        lemma_parse_dec_prefix(s, i, acc, q);
        let acc2 = (acc as nat * pow10(lq as nat) + q as nat) as u64;
        // one more digit: d
        assert(s[i + lq] == dec(n)[lq as int]);
        assert(dec(n)[lq as int] == digit_char(d));
        assert(is_digit(s[i + lq]));
        assert(digit_val(digit_char(d)) == d);
        assert(parse_u64_rec(s, i + lq, acc2) == parse_u64_rec(s, i + lq + 1, (acc2 * 10 + d) as u64));
    }
}

proof fn lemma_pow10_pos(k: nat)
    ensures
        pow10(k) >= 1,
    decreases k,
{
    if k > 0 {
        lemma_pow10_pos((k - 1) as nat);
    }
}

/// Parsing at the start of `dec(n)` yields exactly `n` and stops right after
/// it, provided the next character is not a digit.
pub proof fn lemma_parse_dec(s: Seq<char>, i: int, n: u64)
    requires
        0 <= i,
        i + dec(n).len() <= s.len(),
        s.subrange(i, i + dec(n).len() as int) == dec(n),
        i + dec(n).len() < s.len() ==> !is_digit(s[i + dec(n).len()]),
    ensures
        parse_u64_at(s, i) == Some((n, i + dec(n).len() as int)),
{
    lemma_dec_digits(n);
    assert(s[i] == dec(n)[0]);
    assert(is_digit(s[i]));
    lemma_pow10_pos(dec(n).len() as nat);
    assert(0 as nat * pow10(dec(n).len() as nat) + n as nat == n as nat);
    lemma_parse_dec_prefix(s, i, 0, n);
    let j = i + dec(n).len() as int;
    assert(parse_u64_rec(s, j, n) == Some((n, j)));
}

/// Reads a decimal number from `s` at position `i`, mirroring `parse_u64_at`.
pub fn take_u64(s: &Vec<char>, i: usize) -> (r: Option<(u64, usize)>)
    requires
        i <= s.len(),
    ensures
        match r {
            Some((n, j)) => parse_u64_at(s@, i as int) == Some((n, j as int)) && i < j <= s.len(),
            None => parse_u64_at(s@, i as int) is None,
        },
{
    if i == s.len() || !(48 <= s[i] as u32 && s[i] as u32 <= 57) {
        return None;
    }
    let mut acc: u64 = 0;
    let mut j: usize = i;
    while j < s.len() && 48 <= s[j] as u32 && s[j] as u32 <= 57
        invariant
            i <= j <= s.len(),
            parse_u64_at(s@, i as int) == parse_u64_rec(s@, j as int, acc),
            j == i ==> j < s.len() && is_digit(s@[j as int]),
        decreases s.len() - j,
    {
        let d: u64 = (s[j] as u32 - 48) as u64;
        assert(is_digit(s@[j as int]));
        assert(d == digit_val(s@[j as int]));
        if acc > (u64::MAX - d) / 10 {
            assert(acc as nat * 10 + d as nat > u64::MAX as nat) by (nonlinear_arith)
                requires
                    acc as nat > ((u64::MAX - d) / 10) as nat,
                    d < 10,
            ;
            return None;
        }
        assert(acc as nat * 10 + d as nat <= u64::MAX as nat) by (nonlinear_arith)
            requires
                acc as nat <= ((u64::MAX - d) / 10) as nat,
                d < 10,
        ;
        acc = acc * 10 + d;
        j = j + 1;
    }
    assert(j > i);
    assert(parse_u64_rec(s@, j as int, acc) == Some((acc, j as int)));
    Some((acc, j))
}

proof fn lemma_parse_u64_rec_bounds(s: Seq<char>, i: int, acc: u64)
    requires
        0 <= i <= s.len(),
    ensures
        (parse_u64_rec(s, i, acc) matches Some(r) ==> i <= r.1 <= s.len()),
    decreases s.len() - i,
{
    if i < s.len() && is_digit(s[i]) && acc as nat * 10 + digit_val(s[i]) as nat
        <= u64::MAX as nat {
        lemma_parse_u64_rec_bounds(s, i + 1, (acc * 10 + digit_val(s[i])) as u64);
    }
}

/// A successfully parsed number sits strictly inside the text.
pub proof fn lemma_parse_u64_bounds(s: Seq<char>, i: int)
    ensures
        (parse_u64_at(s, i) matches Some(r) ==> i < r.1 <= s.len()),
{
    if 0 <= i < s.len() && is_digit(s[i]) {
        let d = digit_val(s[i]);
        if 0 as nat * 10 + d as nat <= u64::MAX as nat {
            lemma_parse_u64_rec_bounds(s, i + 1, (0 * 10 + d) as u64);
        }
    }
}

/// True when the text ends in `.` followed by one or more digits: the shape
/// of every backup file path.
pub open spec fn ends_dot_digits(s: Seq<char>) -> bool {
    exists|k: int|
        0 <= k < s.len() - 1 && s[k] == '.' && forall|m: int|
            k < m < s.len() ==> is_digit(#[trigger] s[m])
}

/// Appending `"." + dec(n)` to any text gives a backup-shaped path.
pub proof fn lemma_backup_shape(p: Seq<char>, n: u64)
    ensures
        ends_dot_digits(p + seq!['.'] + dec(n)),
{
    lemma_dec_digits(n);
    let s = p + seq!['.'] + dec(n);
    let k = p.len() as int;
    assert(s[k] == '.');
    assert(forall|m: int| k < m < s.len() ==> is_digit(#[trigger] s[m])) by {
        assert(forall|m: int| k < m < s.len() ==> s[m] == dec(n)[m - k - 1]);
    }
    assert(0 <= k < s.len() - 1);
}

/// Decides `ends_dot_digits` by scanning digits backward from the end.
pub fn is_backup_shaped(s: &Vec<char>) -> (r: bool)
    ensures
        r == ends_dot_digits(s@),
{
    let n = s.len();
    if n < 2 {
        assert(!ends_dot_digits(s@));
        return false;
    }
    let mut j: usize = n;
    // scan backward over digits
    while j > 0 && 48 <= s[j - 1] as u32 && s[j - 1] as u32 <= 57
        invariant
            0 <= j <= n,
            n == s.len(),
            forall|m: int| j <= m < n ==> is_digit(#[trigger] s@[m]),
        decreases j,
    {
        j = j - 1;
    }
    // s[j..] are all digits; s[j-1] (if any) is not a digit
    if j == n {
        // no digits at the end
        assert(!is_digit(s@[n - 1]));
        assert(!ends_dot_digits(s@)) by {
            assert forall|k: int| 0 <= k < s@.len() - 1 implies !(s@[k] == '.' && forall|m: int|
                k < m < s@.len() ==> is_digit(#[trigger] s@[m])) by {
                assert(k < s@.len() - 1 < s@.len());
            }
        }
        return false;
    }
    if j == 0 {
        // all digits, no dot before them
        assert(!ends_dot_digits(s@)) by {
            assert(forall|k: int| 0 <= k < s@.len() - 1 ==> is_digit(s@[k]) && s@[k] != '.');
        }
        return false;
    }
    let r = s[j - 1] == '.';
    proof {
        if r {
            let k = j - 1;
            assert(s@[k as int] == '.');
            assert(ends_dot_digits(s@));
        } else {
            assert(!is_digit(s@[j - 1]));
            assert forall|k: int| 0 <= k < s@.len() - 1 implies !(s@[k] == '.' && forall|m: int|
                k < m < s@.len() ==> is_digit(#[trigger] s@[m])) by {
                if s@[k] == '.' {
                    assert(k != j - 1);
                    if k > j - 1 {
                        assert(is_digit(s@[k]));
                        assert(!is_digit('.')) by {
                            assert('.' as u32 == 46);
                        }
                    } else {
                        // k < j - 1: position j - 1 lies strictly between k and the end
                        assert(k < j - 1 < s@.len());
                        assert(!is_digit(s@[j - 1]));
                    }
                }
            }
            assert(!ends_dot_digits(s@));
        }
    }
    r
}

} // verus!
