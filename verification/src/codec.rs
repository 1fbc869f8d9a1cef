//! Decimal-string codec for the snapshot format.
//!
//! Every counter is persisted as its canonical decimal digit string, so that
//! no consumer with limited-precision numbers can corrupt a magnitude.

use vstd::prelude::*;
use vstd::arithmetic::div_mod::lemma_fundamental_div_mod;

verus! {

/// A decimal digit character.
pub open spec fn is_digit(c: char) -> bool {
    '0' <= c && c <= '9'
}

/// Numeric value of a digit character (meaningful only when `is_digit(c)`).
pub open spec fn digit_val(c: char) -> nat {
    ((c as u32) - 48) as nat
}

/// The digit character for a value below ten.
pub open spec fn char_of_digit(d: nat) -> char {
    if d == 0 {
        '0'
    } else if d == 1 {
        '1'
    } else if d == 2 {
        '2'
    } else if d == 3 {
        '3'
    } else if d == 4 {
        '4'
    } else if d == 5 {
        '5'
    } else if d == 6 {
        '6'
    } else if d == 7 {
        '7'
    } else if d == 8 {
        '8'
    } else {
        '9'
    }
}

/// Every character of `s` is a decimal digit.
pub open spec fn all_digits(s: Seq<char>) -> bool {
    forall|i: int| 0 <= i < s.len() ==> is_digit(#[trigger] s[i])
}

/// The number denoted by a digit string, most significant digit first.
pub open spec fn str_to_nat(s: Seq<char>) -> nat
    decreases s.len(),
{
    if s.len() == 0 {
        0
    } else {
        str_to_nat(s.drop_last()) * 10 + digit_val(s.last())
    }
}

/// The canonical decimal representation of `n`: no sign, no leading zeros
/// (except for the single digit `0` itself).
pub open spec fn dec_digits(n: nat) -> Seq<char>
    decreases n,
{
    if n < 10 {
        seq![char_of_digit(n)]
    } else {
        dec_digits(n / 10).push(char_of_digit(n % 10))
    }
}

pub proof fn lemma_digit_char_val(d: nat)
    requires
        d < 10,
    ensures
        is_digit(char_of_digit(d)),
        digit_val(char_of_digit(d)) == d,
{
}

/// The canonical representation is a nonempty digit string that denotes `n`.
pub proof fn lemma_dec_digits(n: nat)
    ensures
        dec_digits(n).len() >= 1,
        all_digits(dec_digits(n)),
        str_to_nat(dec_digits(n)) == n,
    decreases n,
{
    if n < 10 {
        lemma_digit_char_val(n);
        assert(dec_digits(n) =~= seq![char_of_digit(n)]);
        assert(dec_digits(n).drop_last() =~= Seq::<char>::empty());
        assert(dec_digits(n).last() == char_of_digit(n));
        assert(str_to_nat(Seq::<char>::empty()) == 0);
        assert(str_to_nat(dec_digits(n)) == str_to_nat(dec_digits(n).drop_last()) * 10 + digit_val(
            dec_digits(n).last(),
        ));
        assert(str_to_nat(dec_digits(n)) == n);
    } else {
        lemma_dec_digits(n / 10);
        lemma_digit_char_val(n % 10);
        lemma_fundamental_div_mod(n as int, 10);
        let s = dec_digits(n / 10).push(char_of_digit(n % 10));
        assert(s.drop_last() =~= dec_digits(n / 10));
        assert(s.last() == char_of_digit(n % 10));
        assert(str_to_nat(s) == str_to_nat(dec_digits(n / 10)) * 10 + digit_val(char_of_digit(n % 10)));
        assert(str_to_nat(s) == (n / 10) * 10 + n % 10);
        assert((n / 10) * 10 + n % 10 == n);
        assert forall|i: int| 0 <= i < s.len() implies is_digit(#[trigger] s[i]) by {
            if i < s.len() - 1 {
                assert(s[i] == dec_digits(n / 10)[i]);
            }
        }
    }
}

/// The digit character for `d`, as a one-character string slice.
fn digit_str(d: u128) -> (r: &'static str)
    requires
        d < 10,
    ensures
        r@ =~= seq![char_of_digit(d as nat)],
{
    proof {
        reveal_strlit("0");
        reveal_strlit("1");
        reveal_strlit("2");
        reveal_strlit("3");
        reveal_strlit("4");
        reveal_strlit("5");
        reveal_strlit("6");
        reveal_strlit("7");
        reveal_strlit("8");
        reveal_strlit("9");
    }
    if d == 0 {
        "0"
    } else if d == 1 {
        "1"
    } else if d == 2 {
        "2"
    } else if d == 3 {
        "3"
    } else if d == 4 {
        "4"
    } else if d == 5 {
        "5"
    } else if d == 6 {
        "6"
    } else if d == 7 {
        "7"
    } else if d == 8 {
        "8"
    } else {
        "9"
    }
}

/// Renders `n` as its canonical decimal digit string.
pub fn u128_to_dec_string(n: u128) -> (r: String)
    ensures
        r@ == dec_digits(n as nat),
    decreases n,
{
    if n < 10 {
        let r = String::from_str(digit_str(n));
        proof {
            assert(r@ =~= dec_digits(n as nat));
        }
        r
    } else {
        let mut r = u128_to_dec_string(n / 10);
        r.append(digit_str(n % 10));
        proof {
            assert(r@ =~= dec_digits(n as nat));
        }
        r
    }
}

/// Appending one digit multiplies the prefix value by ten and adds the digit.
pub proof fn lemma_str_to_nat_step(s: Seq<char>, i: int)
    requires
        0 <= i < s.len(),
    ensures
        str_to_nat(s.take(i + 1)) == str_to_nat(s.take(i)) * 10 + digit_val(s[i]),
{
    assert(s.take(i + 1).drop_last() =~= s.take(i));
    assert(s.take(i + 1).last() == s[i]);
}

/// The value of a digit string never falls below the value of any prefix.
pub proof fn lemma_str_to_nat_prefix_le(s: Seq<char>, i: int, j: int)
    requires
        0 <= i <= j <= s.len(),
    ensures
        str_to_nat(s.take(i)) <= str_to_nat(s.take(j)),
    decreases j - i,
{
    if i < j {
        lemma_str_to_nat_prefix_le(s, i + 1, j);
        lemma_str_to_nat_step(s, i);
        assert(str_to_nat(s.take(i)) <= str_to_nat(s.take(i)) * 10 + digit_val(s[i]))
            by (nonlinear_arith);
    }
}

/// Parses a decimal digit string into a `u128`.
///
/// Succeeds exactly on nonempty all-digit strings whose value fits.
pub fn parse_dec_u128(s: &str) -> (r: Option<u128>)
    ensures
        match r {
            Some(n) => s@.len() > 0 && all_digits(s@) && str_to_nat(s@) <= u128::MAX
                && n as nat == str_to_nat(s@),
            None => s@.len() == 0 || !all_digits(s@) || str_to_nat(s@) > u128::MAX,
        },
{
    let len = s.unicode_len();
    if len == 0 {
        return None;
    }
    let mut acc: u128 = 0;
    let mut i: usize = 0;
    while i < len
        invariant
            0 <= i <= len,
            len == s@.len(),
            forall|k: int| 0 <= k < i ==> is_digit(#[trigger] s@[k]),
            acc as nat == str_to_nat(s@.take(i as int)),
        decreases len - i,
    {
        let c = s.get_char(i);
        if !(c >= '0' && c <= '9') {
            assert(!all_digits(s@));
            return None;
        }
        let d = (c as u32 - 48) as u128;
        proof {
            lemma_str_to_nat_step(s@, i as int);
        }
        let shifted = match acc.checked_mul(10) {
            Some(v) => v,
            None => {
                proof {
                    assert(str_to_nat(s@.take(i as int + 1)) > u128::MAX) by (nonlinear_arith)
                        requires
                            acc as nat == str_to_nat(s@.take(i as int)),
                            acc as nat * 10 > u128::MAX,
                            str_to_nat(s@.take(i as int + 1)) == str_to_nat(s@.take(i as int)) * 10
                                + digit_val(s@[i as int]),
                    ;
                    lemma_str_to_nat_prefix_le(s@, i as int + 1, s@.len() as int);
                    assert(s@.take(s@.len() as int) =~= s@);
                }
                return None;
            },
        };
        let next = match shifted.checked_add(d) {
            Some(v) => v,
            None => {
                proof {
                    lemma_str_to_nat_prefix_le(s@, i as int + 1, s@.len() as int);
                    assert(s@.take(s@.len() as int) =~= s@);
                }
                return None;
            },
        };
        acc = next;
        i = i + 1;
    }
    proof {
        assert(s@.take(len as int) =~= s@);
    }
    Some(acc)
}

} // verus!

verus! {

// ------------------------------------------------------------------
// The snapshot document: one textual object with the five table keys in
// a fixed order, each mapping to an array of quoted decimal digit strings.
// ------------------------------------------------------------------

/// `s` wrapped in double quotes.
pub open spec fn quoted(s: Seq<char>) -> Seq<char> {
    seq!['"'] + s + seq!['"']
}

/// The comma-separated quoted strings of one table, without brackets.
pub open spec fn arr_text(t: Seq<Seq<char>>) -> Seq<char>
    decreases t.len(),
{
    if t.len() == 0 {
        Seq::empty()
    } else if t.len() == 1 {
        quoted(t[0])
    } else {
        arr_text(t.drop_last()) + seq![','] + quoted(t.last())
    }
}

/// One quoted key with its bracketed array of quoted strings.
pub open spec fn keyed_text(key: Seq<char>, t: Seq<Seq<char>>) -> Seq<char> {
    quoted(key) + seq![':'] + seq!['['] + arr_text(t) + seq![']']
}

/// The canonical snapshot document for the five tables of `v`.
pub open spec fn snapshot_text(v: Seq<Seq<Seq<char>>>) -> Seq<char> {
    seq!['{'] + keyed_text("three_digit_number"@, v[0]) + seq![','] + keyed_text("mod_by_9"@, v[1])
        + seq![','] + keyed_text("divided_by_9_count"@, v[2]) + seq![','] + keyed_text(
        "coin_head_calc"@,
        v[3],
    ) + seq![','] + keyed_text("coin_tail_calc"@, v[4]) + seq!['}']
}

// ------------------------------------------------------------------
// The grammar, as a deterministic specification-level parser. The
// executable parser below returns exactly what these functions denote.
// ------------------------------------------------------------------

/// The first position at or after `pos` that does not hold a digit.
pub open spec fn digits_end(t: Seq<char>, pos: int) -> int
    decreases t.len() - pos,
        when 0 <= pos <= t.len()
{
    if pos < t.len() && is_digit(t[pos]) {
        digits_end(t, pos + 1)
    } else {
        pos
    }
}

pub proof fn lemma_digits_end_bounds(t: Seq<char>, pos: int)
    requires
        0 <= pos <= t.len(),
    ensures
        pos <= digits_end(t, pos) <= t.len(),
        forall|k: int| pos <= k < digits_end(t, pos) ==> is_digit(#[trigger] t[k]),
        digits_end(t, pos) == t.len() || !is_digit(t[digits_end(t, pos)]),
    decreases t.len() - pos,
{
    if pos < t.len() && is_digit(t[pos]) {
        lemma_digits_end_bounds(t, pos + 1);
    }
}

/// A quoted digit string starting at `pos`: its contents and the position
/// just past the closing quote.
pub open spec fn sp_string(t: Seq<char>, pos: int) -> Option<(Seq<char>, int)> {
    if 0 <= pos && pos < t.len() && t[pos] == '"' {
        let e = digits_end(t, pos + 1);
        if e < t.len() && t[e] == '"' {
            Some((t.subrange(pos + 1, e), e + 1))
        } else {
            None
        }
    } else {
        None
    }
}

/// The remaining elements of an array after its first string: a possibly
/// empty run of `,"digits"` followed by the closing bracket.
pub open spec fn sp_elems(t: Seq<char>, pos: int) -> Option<(Seq<Seq<char>>, int)>
    decreases t.len() - pos,
        when 0 <= pos <= t.len()
        via sp_elems_dec
{
    if pos < t.len() && t[pos] == ']' {
        Some((Seq::empty(), pos + 1))
    } else if pos < t.len() && t[pos] == ',' {
        match sp_string(t, pos + 1) {
            Some((s, p)) => match sp_elems(t, p) {
                Some((ss, q)) => Some((seq![s] + ss, q)),
                None => None,
            },
            None => None,
        }
    } else {
        None
    }
}

#[via_fn]
proof fn sp_elems_dec(t: Seq<char>, pos: int) {
    if 0 <= pos <= t.len() && pos < t.len() && t[pos] == ',' {
        if pos + 1 < t.len() && t[pos + 1] == '"' {
            lemma_digits_end_bounds(t, pos + 2);
        }
    }
}

/// A bracketed array of quoted digit strings starting at `pos`.
pub open spec fn sp_table(t: Seq<char>, pos: int) -> Option<(Seq<Seq<char>>, int)> {
    if 0 <= pos && pos < t.len() && t[pos] == '[' {
        if pos + 1 < t.len() && t[pos + 1] == ']' {
            Some((Seq::empty(), pos + 2))
        } else {
            match sp_string(t, pos + 1) {
                Some((s, p)) => match sp_elems(t, p) {
                    Some((ss, q)) => Some((seq![s] + ss, q)),
                    None => None,
                },
                None => None,
            }
        }
    } else {
        None
    }
}

/// A quoted `key`, a colon, and a bracketed array, starting at `pos`.
pub open spec fn sp_keyed(t: Seq<char>, pos: int, key: Seq<char>) -> Option<(Seq<Seq<char>>, int)> {
    let k = key.len() as int;
    if 0 <= pos && pos + k + 3 <= t.len() && t.subrange(pos, pos + k + 2) == quoted(key) && t[pos
        + k + 2] == ':' {
        sp_table(t, pos + k + 3)
    } else {
        None
    }
}

/// The whole snapshot document: the five keyed tables in their fixed
/// order, wrapped in braces, with nothing before or after.
pub open spec fn spec_parse(t: Seq<char>) -> Option<Seq<Seq<Seq<char>>>> {
    if t.len() > 0 && t[0] == '{' {
        match sp_keyed(t, 1, "three_digit_number"@) {
            Some((t0, p0)) => if p0 < t.len() && t[p0] == ',' {
                match sp_keyed(t, p0 + 1, "mod_by_9"@) {
                    Some((t1, p1)) => if p1 < t.len() && t[p1] == ',' {
                        match sp_keyed(t, p1 + 1, "divided_by_9_count"@) {
                            Some((t2, p2)) => if p2 < t.len() && t[p2] == ',' {
                                match sp_keyed(t, p2 + 1, "coin_head_calc"@) {
                                    Some((t3, p3)) => if p3 < t.len() && t[p3] == ',' {
                                        match sp_keyed(t, p3 + 1, "coin_tail_calc"@) {
                                            Some((t4, p4)) => if p4 < t.len() && t[p4] == '}' && p4
                                                + 1 == t.len() {
                                                Some(seq![t0, t1, t2, t3, t4])
                                            } else {
                                                None
                                            },
                                            None => None,
                                        }
                                    } else {
                                        None
                                    },
                                    None => None,
                                }
                            } else {
                                None
                            },
                            None => None,
                        }
                    } else {
                        None
                    },
                    None => None,
                }
            } else {
                None
            },
            None => None,
        }
    } else {
        None
    }
}

} // verus!

verus! {

// ------------------------------------------------------------------
// The executable parser: returns exactly what the grammar above denotes.
// ------------------------------------------------------------------

/// First non-digit position at or after `pos`.
fn scan_digits(s: &str, len: usize, pos: usize) -> (r: usize)
    requires
        len == s@.len(),
        pos <= len,
    ensures
        r == digits_end(s@, pos as int),
        pos <= r <= len,
    decreases len - pos,
{
    proof {
        lemma_digits_end_bounds(s@, pos as int);
    }
    if pos < len {
        let c = s.get_char(pos);
        if c >= '0' && c <= '9' {
            return scan_digits(s, len, pos + 1);
        }
    }
    pos
}

/// One quoted digit string; returns its contents and the next position.
fn parse_qstring(s: &str, len: usize, pos: usize) -> (r: Option<(String, usize)>)
    requires
        len == s@.len(),
        pos <= len,
    ensures
        match r {
            Some(p) => sp_string(s@, pos as int) == Some((p.0@, p.1 as int)) && pos < p.1 <= len,
            None => sp_string(s@, pos as int) is None,
        },
{
    if pos < len && s.get_char(pos) == '"' {
        let e = scan_digits(s, len, pos + 1);
        if e < len && s.get_char(e) == '"' {
            let sub = s.substring_char(pos + 1, e);
            let st = String::from_str(sub);
            Some((st, e + 1))
        } else {
            None
        }
    } else {
        None
    }
}

/// The elements after an array's first string, up to the closing bracket.
fn parse_elems(s: &str, len: usize, pos: usize) -> (r: Option<(Vec<String>, usize)>)
    requires
        len == s@.len(),
        pos <= len,
    ensures
        match r {
            Some(p) => sp_elems(s@, pos as int) == Some((p.0.deep_view(), p.1 as int)) && pos < p.1
                <= len,
            None => sp_elems(s@, pos as int) is None,
        },
    decreases len - pos,
{
    if pos < len {
        let c = s.get_char(pos);
        if c == ']' {
            let v: Vec<String> = Vec::new();
            proof {
                assert(v.deep_view() =~= Seq::<Seq<char>>::empty());
            }
            return Some((v, pos + 1));
        }
        if c == ',' {
            return match parse_qstring(s, len, pos + 1) {
                Some((st, p)) => match parse_elems(s, len, p) {
                    Some((mut v, q)) => {
                        let ghost tail_view = v.deep_view();
                        v.insert(0, st);
                        proof {
                            assert(v.deep_view() =~= seq![st@] + tail_view);
                        }
                        Some((v, q))
                    },
                    None => None,
                },
                None => None,
            };
        }
        return None;
    }
    None
}

/// One bracketed array of quoted digit strings.
pub fn parse_table(s: &str, len: usize, pos: usize) -> (r: Option<(Vec<String>, usize)>)
    requires
        len == s@.len(),
        pos <= len,
    ensures
        match r {
            Some(p) => sp_table(s@, pos as int) == Some((p.0.deep_view(), p.1 as int)) && pos < p.1
                <= len,
            None => sp_table(s@, pos as int) is None,
        },
{
    if pos < len && s.get_char(pos) == '[' {
        if pos + 1 < len && s.get_char(pos + 1) == ']' {
            let v: Vec<String> = Vec::new();
            proof {
                assert(v.deep_view() =~= Seq::<Seq<char>>::empty());
            }
            return Some((v, pos + 2));
        }
        match parse_qstring(s, len, pos + 1) {
            Some((st, p)) => match parse_elems(s, len, p) {
                Some((mut v, q)) => {
                    let ghost tail_view = v.deep_view();
                    v.insert(0, st);
                    proof {
                        assert(v.deep_view() =~= seq![st@] + tail_view);
                    }
                    Some((v, q))
                },
                None => None,
            },
            None => None,
        }
    } else {
        None
    }
}

/// Whether `lit` occurs in `s` exactly at `pos`.
pub fn expect_lit(s: &str, len: usize, pos: usize, lit: &str, litlen: usize) -> (r: bool)
    requires
        len == s@.len(),
        litlen == lit@.len(),
        pos <= len,
    ensures
        r == (pos + litlen <= len && s@.subrange(pos as int, pos as int + litlen as int) == lit@),
{
    if litlen > len - pos {
        return false;
    }
    let mut i: usize = 0;
    while i < litlen
        invariant
            i <= litlen,
            len == s@.len(),
            litlen == lit@.len(),
            pos + litlen <= len,
            forall|k: int| 0 <= k < i ==> s@[pos + k] == lit@[k],
        decreases litlen - i,
    {
        if s.get_char(pos + i) != lit.get_char(i) {
            proof {
                assert(s@.subrange(pos as int, pos as int + litlen as int)[i as int] != lit@[
                    i as int]);
            }
            return false;
        }
        i = i + 1;
    }
    proof {
        assert(s@.subrange(pos as int, pos as int + litlen as int) =~= lit@);
    }
    true
}

/// One quoted key with a colon and its bracketed array. `lit` must be the
/// key's quoted form followed by the colon.
pub fn parse_keyed(s: &str, len: usize, pos: usize, lit: &str, Ghost(key): Ghost<Seq<char>>) -> (r:
    Option<(Vec<String>, usize)>)
    requires
        len == s@.len(),
        pos <= len,
        lit@ == quoted(key) + seq![':'],
    ensures
        match r {
            Some(p) => sp_keyed(s@, pos as int, key) == Some((p.0.deep_view(), p.1 as int)) && pos
                < p.1 <= len,
            None => sp_keyed(s@, pos as int, key) is None,
        },
{
    let litlen = lit.unicode_len();
    proof {
        assert(litlen == key.len() + 3);
    }
    if expect_lit(s, len, pos, lit, litlen) {
        proof {
            let k = key.len() as int;
            let sub = s@.subrange(pos as int, pos as int + k + 3);
            assert(s@.subrange(pos as int, pos as int + k + 2) =~= quoted(key)) by {
                assert forall|j: int| 0 <= j < k + 2 implies s@.subrange(
                    pos as int,
                    pos as int + k + 2,
                )[j] == quoted(key)[j] by {
                    assert(sub[j] == lit@[j]);
                }
            }
            assert(s@[pos as int + k + 2] == lit@[k + 2]);
            assert(s@[pos as int + k + 2] == ':');
        }
        parse_table(s, len, pos + litlen)
    } else {
        proof {
            let k = key.len() as int;
            if 0 <= pos as int && pos as int + k + 3 <= s@.len() && s@.subrange(
                pos as int,
                pos as int + k + 2,
            ) == quoted(key) && s@[pos as int + k + 2] == ':' {
                assert(s@.subrange(pos as int, pos as int + k + 3) =~= lit@);
                assert(false);
            }
        }
        None
    }
}

} // verus!

verus! {

// ------------------------------------------------------------------
// The executable encoder.
// ------------------------------------------------------------------

/// Renders one table as its bracketed array of quoted strings.
pub fn encode_table(t: &Vec<String>) -> (r: String)
    ensures
        r@ == seq!['['] + arr_text(t.deep_view()) + seq![']'],
{
    proof {
        reveal_strlit("[");
        reveal_strlit("]");
        reveal_strlit(",");
        reveal_strlit("\"");
    }
    let ghost dv = t.deep_view();
    let mut r = String::from_str("[");
    let mut i: usize = 0;
    proof {
        assert(dv.take(0) =~= Seq::<Seq<char>>::empty());
        assert(r@ =~= seq!['['] + arr_text(dv.take(0)));
    }
    while i < t.len()
        invariant
            i <= t.len(),
            dv == t.deep_view(),
            r@ == seq!['['] + arr_text(dv.take(i as int)),
        decreases t.len() - i,
    {
        proof {
            reveal_strlit(",");
            reveal_strlit("\"");
        }
        if i > 0 {
            r.append(",");
        }
        r.append("\"");
        r.append(t[i].as_str());
        r.append("\"");
        proof {
            let prev = dv.take(i as int);
            let cur = dv.take(i as int + 1);
            assert(cur.drop_last() =~= prev);
            assert(cur.last() == dv[i as int]);
            assert(dv[i as int] == t@[i as int]@);
            if i == 0 {
                assert(cur.len() == 1);
                assert(arr_text(cur) == quoted(cur[0]));
                assert(r@ =~= seq!['['] + arr_text(cur));
            } else {
                assert(arr_text(cur) == arr_text(prev) + seq![','] + quoted(cur.last()));
                assert(r@ =~= seq!['['] + arr_text(cur));
            }
        }
        i = i + 1;
    }
    r.append("]");
    proof {
        assert(dv.take(t.len() as int) =~= dv);
        assert(r@ =~= seq!['['] + arr_text(dv) + seq![']']);
    }
    r
}

// ------------------------------------------------------------------
// The canonical document parses back to exactly the tables it encodes.
// ------------------------------------------------------------------

/// Characterizes `digits_end` on a known digit run.
proof fn lemma_digits_end_at(t: Seq<char>, pos: int, e: int)
    requires
        0 <= pos <= e < t.len(),
        forall|k: int| pos <= k < e ==> is_digit(#[trigger] t[k]),
        !is_digit(t[e]),
    ensures
        digits_end(t, pos) == e,
    decreases e - pos,
{
    if pos < e {
        lemma_digits_end_at(t, pos + 1, e);
    }
}

/// A quoted digit string at `pos` is scanned back exactly.
proof fn lemma_sp_string_at(t: Seq<char>, pos: int, s: Seq<char>)
    requires
        all_digits(s),
        0 <= pos,
        pos + s.len() + 2 <= t.len(),
        t[pos] == '"',
        t.subrange(pos + 1, pos + 1 + s.len() as int) == s,
        t[pos + 1 + s.len() as int] == '"',
    ensures
        sp_string(t, pos) == Some((s, pos + s.len() + 2)),
{
    let e = pos + 1 + s.len() as int;
    assert forall|k: int| pos + 1 <= k < e implies is_digit(#[trigger] t[k]) by {
        assert(t[k] == t.subrange(pos + 1, e)[k - (pos + 1)]);
    }
    assert(!is_digit('"'));
    lemma_digits_end_at(t, pos + 1, e);
    assert(t.subrange(pos + 1, e) == s);
}

/// The text of an array's elements after the first: `,"s"` runs, then `]`.
pub open spec fn tail_text(ss: Seq<Seq<char>>) -> Seq<char>
    decreases ss.len(),
{
    if ss.len() == 0 {
        seq![']']
    } else {
        seq![','] + quoted(ss[0]) + tail_text(ss.drop_first())
    }
}

/// A tail run at `pos` is parsed back exactly.
proof fn lemma_sp_elems_at(t: Seq<char>, pos: int, ss: Seq<Seq<char>>)
    requires
        forall|j: int| 0 <= j < ss.len() ==> all_digits(#[trigger] ss[j]),
        0 <= pos,
        pos + tail_text(ss).len() <= t.len(),
        t.subrange(pos, pos + tail_text(ss).len() as int) == tail_text(ss),
    ensures
        sp_elems(t, pos) == Some((ss, pos + tail_text(ss).len())),
    decreases ss.len(),
{
    let tt = tail_text(ss);
    if ss.len() == 0 {
        assert(t[pos] == t.subrange(pos, pos + 1)[0]);
        assert(t[pos] == ']');
    } else {
        let q = quoted(ss[0]);
        let rest = tail_text(ss.drop_first());
        assert(tt == seq![','] + q + rest);
        assert forall|k: int| 0 <= k < tt.len() implies t[pos + k] == tt[k] by {
            assert(t[pos + k] == t.subrange(pos, pos + tt.len() as int)[k]);
        }
        assert(t[pos + 0] == tt[0]);
        assert(tt[0] == ',');
        assert(t[pos] == ',');
        assert(t[pos] != ']');
        let slen = ss[0].len() as int;
        assert(t[pos + 1] == tt[1]);
        assert(tt[1] == (seq![','] + q)[1]);
        assert((seq![','] + q)[1] == q[0]);
        assert(q[0] == '"');
        assert(t[pos + 1] == '"');
        assert(t.subrange(pos + 2, pos + 2 + slen) =~= ss[0]) by {
            assert forall|j: int| 0 <= j < slen implies t.subrange(pos + 2, pos + 2 + slen)[j]
                == ss[0][j] by {
                assert(t[pos + 2 + j] == tt[2 + j]);
                assert(tt[2 + j] == q[1 + j]);
            }
        }
        assert(t[pos + 2 + slen] == tt[2 + slen]);
        assert(tt[2 + slen] == q[1 + slen]);
        assert(t[pos + 2 + slen] == '"');
        lemma_sp_string_at(t, pos + 1, ss[0]);
        let p2 = pos + 1 + slen + 2;
        assert(t.subrange(p2, p2 + rest.len() as int) =~= rest) by {
            assert forall|j: int| 0 <= j < rest.len() implies t.subrange(
                p2,
                p2 + rest.len() as int,
            )[j] == rest[j] by {
                assert(t[p2 + j] == tt[1 + q.len() + j]);
            }
        }
        lemma_sp_elems_at(t, p2, ss.drop_first());
        assert(seq![ss[0]] + ss.drop_first() =~= ss);
        assert(sp_elems(t, pos) == Some((ss, pos + tt.len())));
    }
}

/// Head decomposition of `arr_text`.
proof fn lemma_arr_text_head(ss: Seq<Seq<char>>)
    requires
        ss.len() >= 2,
    ensures
        arr_text(ss) == quoted(ss[0]) + seq![','] + arr_text(ss.drop_first()),
    decreases ss.len(),
{
    let dl = ss.drop_last();
    let df = ss.drop_first();
    if ss.len() == 2 {
        assert(dl =~= seq![ss[0]]);
        assert(df =~= seq![ss[1]]);
        assert(arr_text(dl) == quoted(ss[0]));
        assert(arr_text(df) == quoted(ss[1]));
        assert(arr_text(ss) =~= quoted(ss[0]) + seq![','] + arr_text(df));
    } else {
        lemma_arr_text_head(dl);
        assert(df.drop_last() =~= dl.drop_first());
        assert(df.last() == ss.last());
        assert(arr_text(df) == arr_text(dl.drop_first()) + seq![','] + quoted(ss.last()));
        assert(arr_text(ss) == arr_text(dl) + seq![','] + quoted(ss.last()));
        assert(dl[0] == ss[0]);
        assert(arr_text(ss) =~= quoted(ss[0]) + seq![','] + arr_text(df));
    }
}

/// The bracketed body of a nonempty array, rewritten head-first.
proof fn lemma_arr_to_tail(ss: Seq<Seq<char>>)
    requires
        ss.len() >= 1,
    ensures
        arr_text(ss) + seq![']'] == quoted(ss[0]) + tail_text(ss.drop_first()),
    decreases ss.len(),
{
    let df = ss.drop_first();
    if ss.len() == 1 {
        assert(tail_text(df) =~= seq![']']);
        assert(arr_text(ss) + seq![']'] =~= quoted(ss[0]) + tail_text(df));
    } else {
        lemma_arr_text_head(ss);
        lemma_arr_to_tail(df);
        assert(tail_text(df) == seq![','] + quoted(df[0]) + tail_text(df.drop_first()));
        assert(arr_text(ss) + seq![']'] =~= quoted(ss[0]) + seq![','] + (arr_text(df) + seq![
            ']',
        ]));
        assert(quoted(ss[0]) + seq![','] + (quoted(df[0]) + tail_text(df.drop_first())) =~= quoted(
            ss[0],
        ) + tail_text(df));
    }
}

/// A nonempty encoded array at `pos` is parsed back exactly.
proof fn lemma_sp_table_at(t: Seq<char>, pos: int, ss: Seq<Seq<char>>)
    requires
        ss.len() >= 1,
        forall|j: int| 0 <= j < ss.len() ==> all_digits(#[trigger] ss[j]),
        0 <= pos,
        pos + 2 + arr_text(ss).len() <= t.len(),
        t.subrange(pos, pos + 2 + arr_text(ss).len() as int) == seq!['['] + arr_text(ss) + seq![
            ']',
        ],
    ensures
        sp_table(t, pos) == Some((ss, pos + 2 + arr_text(ss).len())),
{
    let body = seq!['['] + arr_text(ss) + seq![']'];
    lemma_arr_to_tail(ss);
    let q = quoted(ss[0]);
    let rest = tail_text(ss.drop_first());
    assert(body =~= seq!['['] + (arr_text(ss) + seq![']']));
    assert(seq!['['] + (q + rest) =~= seq!['['] + q + rest);
    assert(body == seq!['['] + q + rest);
    assert forall|k: int| 0 <= k < body.len() implies t[pos + k] == body[k] by {
        assert(t[pos + k] == t.subrange(pos, pos + body.len() as int)[k]);
    }
    assert(t[pos + 0] == body[0]);
    assert(body[0] == '[');
    assert(t[pos] == '[');
    assert(t[pos + 1] == body[1]);
    assert(body[1] == (seq!['['] + q)[1]);
    assert((seq!['['] + q)[1] == q[0]);
    assert(q[0] == '"');
    assert(t[pos + 1] == '"');
    assert(t[pos + 1] != ']');
    let slen = ss[0].len() as int;
    assert(t.subrange(pos + 2, pos + 2 + slen) =~= ss[0]) by {
        assert forall|j: int| 0 <= j < slen implies t.subrange(pos + 2, pos + 2 + slen)[j]
            == ss[0][j] by {
            assert(t[pos + 2 + j] == body[2 + j]);
            assert(body[2 + j] == q[1 + j]);
        }
    }
    assert(t[pos + 2 + slen] == body[2 + slen]);
    assert(body[2 + slen] == q[1 + slen]);
    assert(t[pos + 2 + slen] == '"');
    lemma_sp_string_at(t, pos + 1, ss[0]);
    let p2 = pos + 1 + slen + 2;
    assert(t.subrange(p2, p2 + rest.len() as int) =~= rest) by {
        assert forall|j: int| 0 <= j < rest.len() implies t.subrange(p2, p2 + rest.len() as int)[j]
            == rest[j] by {
            assert(t[p2 + j] == body[1 + q.len() + j]);
        }
    }
    lemma_sp_elems_at(t, p2, ss.drop_first());
    assert(seq![ss[0]] + ss.drop_first() =~= ss);
    assert(p2 + rest.len() == pos + 2 + arr_text(ss).len());
}

/// A keyed table at `pos` is parsed back exactly.
proof fn lemma_sp_keyed_at(t: Seq<char>, pos: int, key: Seq<char>, ss: Seq<Seq<char>>)
    requires
        ss.len() >= 1,
        forall|j: int| 0 <= j < ss.len() ==> all_digits(#[trigger] ss[j]),
        0 <= pos,
        pos + keyed_text(key, ss).len() <= t.len(),
        t.subrange(pos, pos + keyed_text(key, ss).len() as int) == keyed_text(key, ss),
    ensures
        sp_keyed(t, pos, key) == Some((ss, pos + keyed_text(key, ss).len())),
{
    let kt = keyed_text(key, ss);
    let k = key.len() as int;
    assert forall|j: int| 0 <= j < kt.len() implies t[pos + j] == kt[j] by {
        assert(t[pos + j] == t.subrange(pos, pos + kt.len() as int)[j]);
    }
    assert(t.subrange(pos, pos + k + 2) =~= quoted(key)) by {
        assert forall|j: int| 0 <= j < k + 2 implies t.subrange(pos, pos + k + 2)[j] == quoted(
            key,
        )[j] by {
            assert(t[pos + j] == kt[j]);
            assert(kt[j] == quoted(key)[j]);
        }
    }
    assert(t[pos + k + 2] == kt[k + 2]);
    assert(kt[k + 2] == ':');
    let bodypos = pos + k + 3;
    let blen = 2 + arr_text(ss).len() as int;
    assert(t.subrange(bodypos, bodypos + blen) =~= seq!['['] + arr_text(ss) + seq![']']) by {
        assert forall|j: int| 0 <= j < blen implies t.subrange(bodypos, bodypos + blen)[j] == (
        seq!['['] + arr_text(ss) + seq![']'])[j] by {
            assert(t[bodypos + j] == kt[k + 3 + j]);
        }
    }
    lemma_sp_table_at(t, bodypos, ss);
}

/// Round trip of the document layer: the canonical snapshot text of any
/// five digit-string tables parses back to exactly those tables.
#[verifier::rlimit(100)]
pub proof fn lemma_spec_parse_snapshot(v: Seq<Seq<Seq<char>>>)
    requires
        v.len() == 5,
        forall|t: int| 0 <= t < 5 ==> (#[trigger] v[t]).len() >= 1,
        forall|t: int, j: int| 0 <= t < 5 && 0 <= j < v[t].len() ==> all_digits(
            #[trigger] v[t][j],
        ),
    ensures
        spec_parse(snapshot_text(v)) == Some(v),
{
    let t = snapshot_text(v);
    let k0 = keyed_text("three_digit_number"@, v[0]);
    let k1 = keyed_text("mod_by_9"@, v[1]);
    let k2 = keyed_text("divided_by_9_count"@, v[2]);
    let k3 = keyed_text("coin_head_calc"@, v[3]);
    let k4 = keyed_text("coin_tail_calc"@, v[4]);
    let p0 = 1int;
    let p1 = p0 + k0.len() + 1;
    let p2 = p1 + k1.len() + 1;
    let p3 = p2 + k2.len() + 1;
    let p4 = p3 + k3.len() + 1;
    let p5 = p4 + k4.len();
    assert(t.len() == p5 + 1);
    assert(t[0] == '{');
    assert(t.subrange(p0, p0 + k0.len() as int) =~= k0);
    lemma_sp_keyed_at(t, p0, "three_digit_number"@, v[0]);
    assert(t[p1 - 1] == ',');
    assert(t.subrange(p1, p1 + k1.len() as int) =~= k1);
    lemma_sp_keyed_at(t, p1, "mod_by_9"@, v[1]);
    assert(t[p2 - 1] == ',');
    assert(t.subrange(p2, p2 + k2.len() as int) =~= k2);
    lemma_sp_keyed_at(t, p2, "divided_by_9_count"@, v[2]);
    assert(t[p3 - 1] == ',');
    assert(t.subrange(p3, p3 + k3.len() as int) =~= k3);
    lemma_sp_keyed_at(t, p3, "coin_head_calc"@, v[3]);
    assert(t[p4 - 1] == ',');
    assert(t.subrange(p4, p4 + k4.len() as int) =~= k4);
    lemma_sp_keyed_at(t, p4, "coin_tail_calc"@, v[4]);
    assert(t[p5] == '}');
    assert(seq![v[0], v[1], v[2], v[3], v[4]] =~= v);
}

} // verus!
