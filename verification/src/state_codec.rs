//! The on-disk form of the hint store: a JSON object with the symbol table
//! and the directory counters. The encoder's output is pinned exactly;
//! string escaping is proved lossless. Reading and writing the file itself
//! happens outside the library; a malformed file decodes to nothing and
//! the caller starts from an empty store.

use vstd::prelude::*;
use vstd::string::*;
use crate::hints::{hints_view, scores_view, assoc_unique, PersistentState};
use crate::text::{
    chars_to_string, dec_chars, digit_char, is_digit, is_digit_char, str_to_chars, usize_to_chars,
};

verus! {

/// The hexadecimal digit for a value below sixteen.
pub open spec fn hex_char(d: int) -> char {
    if d < 10 {
        digit_char(d)
    } else {
        (('a' as u32) + (d as u32) - 10) as u8 as char
    }
}

/// How one character is rendered inside a JSON string: quotes and
/// backslashes escaped, control characters as `\u00..`, everything else
/// as itself.
pub open spec fn esc_char(c: char) -> Seq<char> {
    if c == '"' {
        seq!['\\', '"']
    } else if c == '\\' {
        seq!['\\', '\\']
    } else if (c as u32) < 0x20 {
        seq!['\\', 'u', '0', '0', hex_char((c as u32 / 16) as int), hex_char((c as u32 % 16) as int)]
    } else {
        seq![c]
    }
}

/// A whole string escaped.
pub open spec fn esc(s: Seq<char>) -> Seq<char>
    decreases s.len(),
{
    if s.len() == 0 {
        Seq::<char>::empty()
    } else {
        esc_char(s[0]) + esc(s.drop_first())
    }
}

/// Decoding an escaped body: a backslash quotes the next character or
/// introduces a four-digit control escape.
pub open spec fn unesc(s: Seq<char>) -> Seq<char>
    decreases s.len(),
{
    if s.len() == 0 {
        Seq::<char>::empty()
    } else if s[0] == '\\' && s.len() >= 6 && s[1] == 'u' {
        seq![(hex_val(s[4]) * 16 + hex_val(s[5])) as u8 as char] + unesc(s.skip(6))
    } else if s[0] == '\\' && s.len() >= 2 {
        seq![s[1]] + unesc(s.skip(2))
    } else {
        seq![s[0]] + unesc(s.skip(1))
    }
}

/// The value of a lowercase hexadecimal digit.
pub open spec fn hex_val(c: char) -> int {
    if is_digit_char(c) {
        c as u32 as int - '0' as u32 as int
    } else {
        c as u32 as int - 'a' as u32 as int + 10
    }
}

/// Law (store round trip, escaping layer): decoding an escaped string
/// returns exactly the original characters, whatever they are.
pub proof fn lemma_escape_round_trip(s: Seq<char>)
    ensures
        unesc(esc(s)) == s,
    decreases s.len(),
{
    if s.len() > 0 {
        let c = s[0];
        let rest = s.drop_first();
        lemma_escape_round_trip(rest);
        let e = esc(s);
        if c == '"' || c == '\\' {
            assert(e == seq!['\\', c] + esc(rest));
            assert(e[0] == '\\' && e[1] == c);
            assert(e[1] != 'u') by {
                assert(('u' as u32) != ('"' as u32) && ('u' as u32) != ('\\' as u32));
            }
            assert(e.skip(2) =~= esc(rest));
            assert(unesc(e) == seq![c] + unesc(esc(rest)));
            assert(unesc(e) =~= s);
        } else if (c as u32) < 0x20 {
            let hi = (c as u32 / 16) as int;
            let lo = (c as u32 % 16) as int;
            assert(e == seq!['\\', 'u', '0', '0', hex_char(hi), hex_char(lo)] + esc(rest));
            assert(e[0] == '\\' && e[1] == 'u');
            assert(e[4] == hex_char(hi) && e[5] == hex_char(lo));
            assert(hi < 2 && 0 <= lo < 16);
            assert(hex_val(hex_char(hi)) == hi && hex_val(hex_char(lo)) == lo) by {
                lemma_hex_round(hi);
                lemma_hex_round(lo);
            }
            assert(hi * 16 + lo == c as u32) by (nonlinear_arith)
                requires
                    hi == (c as u32 / 16) as int,
                    lo == (c as u32 % 16) as int,
                    (c as u32) < 0x20,
            ;
            let v = hi * 16 + lo;
            let x = (v as u8) as char;
            assert(x as u32 == v);
            vstd::utf8::char_u32_cast(c, x as u32);
            assert((hi * 16 + lo) as u8 as char == c);
            assert(e.skip(6) =~= esc(rest));
            assert(unesc(e) == seq![c] + unesc(esc(rest)));
            assert(unesc(e) =~= s);
        } else {
            assert(e == seq![c] + esc(rest));
            assert(e[0] == c && c != '\\');
            assert(e.skip(1) =~= esc(rest));
            assert(unesc(e) == seq![c] + unesc(esc(rest)));
            assert(unesc(e) =~= s);
        }
    }
}

proof fn lemma_hex_round(d: int)
    requires
        0 <= d < 16,
    ensures
        hex_val(hex_char(d)) == d,
        is_hex_char(hex_char(d)),
        !(hex_char(d) == '"') && !(hex_char(d) == '\\'),
{
    if d < 10 {
        assert(hex_char(d) == digit_char(d));
        assert(digit_char(d) as u32 == d + 48) by {
            assert(((d + 48) as u8) as char as u32 == d + 48);
        }
    } else {
        assert(hex_char(d) as u32 == 'a' as u32 + d - 10) by {
            assert(((('a' as u32) + (d as u32) - 10) as u8) as char as u32 == ('a' as u32) + (
            d as u32) - 10);
        }
    }
}

/// A quoted, escaped string.
pub open spec fn quoted(s: Seq<char>) -> Seq<char> {
    seq!['"'] + esc(s) + seq!['"']
}

/// A comma-separated run of quoted strings.
pub open spec fn quoted_list(ps: Seq<Seq<char>>) -> Seq<char>
    decreases ps.len(),
{
    if ps.len() == 0 {
        Seq::<char>::empty()
    } else if ps.len() == 1 {
        quoted(ps[0])
    } else {
        quoted(ps[0]) + seq![','] + quoted_list(ps.drop_first())
    }
}

/// The symbol-table entries, comma separated.
pub open spec fn hits_entries(hv: Seq<(Seq<char>, Seq<Seq<char>>)>) -> Seq<char>
    decreases hv.len(),
{
    if hv.len() == 0 {
        Seq::<char>::empty()
    } else {
        let e = quoted(hv[0].0) + seq![':', '['] + quoted_list(hv[0].1) + seq![']'];
        if hv.len() == 1 {
            e
        } else {
            e + seq![','] + hits_entries(hv.drop_first())
        }
    }
}

/// The directory-counter entries, comma separated.
pub open spec fn scores_entries(sv: Seq<(Seq<char>, u32)>) -> Seq<char>
    decreases sv.len(),
{
    if sv.len() == 0 {
        Seq::<char>::empty()
    } else {
        let e = quoted(sv[0].0) + seq![':'] + dec_chars(sv[0].1 as nat);
        if sv.len() == 1 {
            e
        } else {
            e + seq![','] + scores_entries(sv.drop_first())
        }
    }
}

/// The full document.
pub open spec fn encode_state_spec(
    hv: Seq<(Seq<char>, Seq<Seq<char>>)>,
    sv: Seq<(Seq<char>, u32)>,
) -> Seq<char> {
    "{\"symbol_hits\":{"@ + hits_entries(hv) + "},\"directory_scores\":{"@ + scores_entries(sv)
        + "}}"@
}

/// A lowercase hexadecimal digit.
pub open spec fn is_hex_char(c: char) -> bool {
    is_digit_char(c) || ('a' as u32 <= c as u32 && c as u32 <= 'f' as u32)
}

/// Reference parser for a string body after its opening quote: the decoded
/// characters and what follows the closing quote.
pub open spec fn p_str_body(s: Seq<char>) -> Option<(Seq<char>, Seq<char>)>
    decreases s.len(),
{
    if s.len() == 0 {
        Option::None
    } else if s[0] == '"' {
        Option::Some((Seq::<char>::empty(), s.skip(1)))
    } else if s[0] == '\\' {
        if s.len() >= 2 && (s[1] == '"' || s[1] == '\\') {
            match p_str_body(s.skip(2)) {
                Option::Some(p) => Option::Some((seq![s[1]] + p.0, p.1)),
                Option::None => Option::None,
            }
        } else if s.len() >= 6 && s[1] == 'u' && s[2] == '0' && s[3] == '0' && is_hex_char(s[4])
            && is_hex_char(s[5]) && hex_val(s[4]) * 16 + hex_val(s[5]) < 0x20 {
            match p_str_body(s.skip(6)) {
                Option::Some(p) => Option::Some(
                    (seq![(hex_val(s[4]) * 16 + hex_val(s[5])) as u8 as char] + p.0, p.1),
                ),
                Option::None => Option::None,
            }
        } else {
            Option::None
        }
    } else {
        match p_str_body(s.skip(1)) {
            Option::Some(p) => Option::Some((seq![s[0]] + p.0, p.1)),
            Option::None => Option::None,
        }
    }
}

/// Reference parser for a quoted string.
pub open spec fn p_qstring(s: Seq<char>) -> Option<(Seq<char>, Seq<char>)> {
    if s.len() > 0 && s[0] == '"' {
        p_str_body(s.skip(1))
    } else {
        Option::None
    }
}

/// Parsing inverts quoting: a quoted, escaped string followed by anything
/// parses back to the original characters and that remainder.
pub proof fn lemma_p_qstring(x: Seq<char>, rest: Seq<char>)
    ensures
        p_qstring(quoted(x) + rest) == Option::Some((x, rest)),
{
    let s = quoted(x) + rest;
    assert(s[0] == '"');
    assert(s.skip(1) =~= esc(x) + seq!['"'] + rest);
    lemma_p_str(x, rest);
}

proof fn lemma_p_str(x: Seq<char>, rest: Seq<char>)
    ensures
        p_str_body(esc(x) + seq!['"'] + rest) == Option::Some((x, rest)),
    decreases x.len(),
{
    let s = esc(x) + seq!['"'] + rest;
    if x.len() == 0 {
        assert(s[0] == '"');
        assert(s.skip(1) =~= rest);
    } else {
        let c = x[0];
        let x2 = x.drop_first();
        lemma_p_str(x2, rest);
        let tail = esc(x2) + seq!['"'] + rest;
        assert(esc(x) == esc_char(c) + esc(x2));
        if c == '"' || c == '\\' {
            assert(s =~= seq!['\\', c] + tail);
            assert(s[0] == '\\' && s.len() >= 2 && s[1] == c);
            assert(s.skip(2) =~= tail);
            assert(p_str_body(s) == Option::Some((seq![c] + x2, rest)));
            assert(seq![c] + x2 =~= x);
        } else if (c as u32) < 0x20 {
            let hi = (c as u32 / 16) as int;
            let lo = (c as u32 % 16) as int;
            lemma_hex_round(hi);
            lemma_hex_round(lo);
            assert(s =~= seq!['\\', 'u', '0', '0', hex_char(hi), hex_char(lo)] + tail);
            assert(s[0] == '\\' && s[1] == 'u' && s[2] == '0' && s[3] == '0');
            assert(s[4] == hex_char(hi) && s[5] == hex_char(lo));
            assert(s.len() >= 6);
            assert(!(s[1] == '"' || s[1] == '\\')) by {
                assert(('u' as u32) != ('"' as u32) && ('u' as u32) != ('\\' as u32));
            }
            assert(hex_val(s[4]) == hi && hex_val(s[5]) == lo);
            assert(hi * 16 + lo == c as u32) by (nonlinear_arith)
                requires
                    hi == (c as u32 / 16) as int,
                    lo == (c as u32 % 16) as int,
                    (c as u32) < 0x20,
            ;
            let v = hi * 16 + lo;
            let ch = (v as u8) as char;
            assert(ch as u32 == v);
            vstd::utf8::char_u32_cast(c, ch as u32);
            assert(s.skip(6) =~= tail);
            assert(p_str_body(s) == Option::Some((seq![c] + x2, rest)));
            assert(seq![c] + x2 =~= x);
        } else {
            assert(s =~= seq![c] + tail);
            assert(s[0] == c);
            assert(c != '"' && c != '\\');
            assert(s.skip(1) =~= tail);
            assert(p_str_body(s) == Option::Some((seq![c] + x2, rest)));
            assert(seq![c] + x2 =~= x);
        }
    }
}

/// Reference parser for a quoted-string list up to its closing bracket.
/// `fuel` bounds the number of items.
pub open spec fn p_qlist(s: Seq<char>, fuel: nat) -> Option<(Seq<Seq<char>>, Seq<char>)>
    decreases fuel,
{
    if s.len() > 0 && s[0] == ']' {
        Option::Some((Seq::<Seq<char>>::empty(), s.skip(1)))
    } else if fuel == 0 {
        Option::None
    } else {
        match p_qstring(s) {
            Option::None => Option::None,
            Option::Some(p) => {
                let x = p.0;
                let r = p.1;
                if r.len() > 0 && r[0] == ',' {
                    match p_qlist(r.skip(1), (fuel - 1) as nat) {
                        Option::Some(q) => Option::Some((seq![x] + q.0, q.1)),
                        Option::None => Option::None,
                    }
                } else if r.len() > 0 && r[0] == ']' {
                    Option::Some((seq![x], r.skip(1)))
                } else {
                    Option::None
                }
            },
        }
    }
}

/// Parsing inverts the quoted list, with any fuel at least the item count.
proof fn lemma_p_qlist(ps: Seq<Seq<char>>, rest: Seq<char>, fuel: nat)
    requires
        fuel >= ps.len(),
    ensures
        p_qlist(quoted_list(ps) + seq![']'] + rest, fuel) == Option::Some((ps, rest)),
    decreases ps.len(),
{
    let s = quoted_list(ps) + seq![']'] + rest;
    if ps.len() == 0 {
        assert(s[0] == ']');
        assert(s.skip(1) =~= rest);
    } else if ps.len() == 1 {
        assert(s =~= quoted(ps[0]) + (seq![']'] + rest));
        assert(s[0] == '"') by {
            assert((quoted(ps[0]) + (seq![']'] + rest))[0] == quoted(ps[0])[0]);
        }
        lemma_p_qstring(ps[0], seq![']'] + rest);
        let r = seq![']'] + rest;
        assert(r[0] == ']');
        assert(r.skip(1) =~= rest);
        assert(p_qlist(s, fuel) == Option::Some((seq![ps[0]], rest)));
        assert(seq![ps[0]] =~= ps);
    } else {
        let tail_items = ps.drop_first();
        let tail_text = quoted_list(tail_items) + seq![']'] + rest;
        assert(s =~= quoted(ps[0]) + (seq![','] + tail_text));
        assert(s[0] == '"') by {
            assert((quoted(ps[0]) + (seq![','] + tail_text))[0] == quoted(ps[0])[0]);
        }
        lemma_p_qstring(ps[0], seq![','] + tail_text);
        let r = seq![','] + tail_text;
        assert(r[0] == ',');
        assert(r.skip(1) =~= tail_text);
        lemma_p_qlist(tail_items, rest, (fuel - 1) as nat);
        assert(p_qlist(s, fuel) == Option::Some((seq![ps[0]] + tail_items, rest)));
        assert(seq![ps[0]] + tail_items =~= ps);
    }
}

/// Reference parser for a run of digits: the accumulated value and the
/// remainder after the last digit.
pub open spec fn p_digits(s: Seq<char>, acc: int) -> (int, Seq<char>)
    decreases s.len(),
{
    if s.len() > 0 && is_digit_char(s[0]) {
        p_digits(s.drop_first(), acc * 10 + (s[0] as u32 - '0' as u32))
    } else {
        (acc, s)
    }
}

/// Reference parser for a decimal number: at least one digit.
pub open spec fn p_number(s: Seq<char>) -> Option<(int, Seq<char>)> {
    if s.len() > 0 && is_digit_char(s[0]) {
        Option::Some(p_digits(s, 0))
    } else {
        Option::None
    }
}

proof fn lemma_digits_append(a: Seq<char>, b: Seq<char>, acc: int)
    requires
        forall|i: int| 0 <= i < a.len() ==> is_digit_char(#[trigger] a[i]),
    ensures
        p_digits(a + b, acc) == p_digits(b, p_digits(a, 0).0 + acc * pow10(a.len() as nat)),
    decreases a.len(),
{
    if a.len() == 0 {
        assert(a + b =~= b);
        assert(p_digits(a, 0).0 == 0);
        assert(acc * pow10(0) == acc) by (nonlinear_arith)
            requires
                pow10(0) == 1,
        ;
    } else {
        let d = a[0] as u32 - '0' as u32;
        let adf = a.drop_first();
        let k = adf.len() as nat;
        assert((a + b)[0] == a[0]);
        assert((a + b).drop_first() =~= adf + b);
        assert(forall|i: int| 0 <= i < adf.len() ==> is_digit_char(#[trigger] adf[i]));
        lemma_digits_append(adf, b, acc * 10 + d);
        // p_digits(a + b, acc) == p_digits(b, p_digits(adf, 0).0 + (acc * 10 + d) * pow10(k))
        lemma_digits_value(adf, d);
        assert(p_digits(a, 0) == p_digits(adf, d));
        assert(p_digits(adf, d).0 == d * pow10(k) + p_digits(adf, 0).0);
        assert(pow10(k + 1) == 10 * pow10(k));
        assert((acc * 10 + d) * pow10(k) == acc * pow10(k + 1) + d * pow10(k))
            by (nonlinear_arith)
            requires
                pow10(k + 1) == 10 * pow10(k),
        ;
        assert(a.len() as nat == k + 1);
        assert(p_digits(adf, 0).0 + (acc * 10 + d) * pow10(k) == p_digits(a, 0).0 + acc * pow10(
            a.len() as nat,
        ));
    }
}

/// Powers of ten.
pub open spec fn pow10(n: nat) -> int
    decreases n,
{
    if n == 0 {
        1
    } else {
        10 * pow10((n - 1) as nat)
    }
}

/// The value a digit run accumulates, from any starting accumulator.
proof fn lemma_digits_value(a: Seq<char>, acc: int)
    requires
        forall|i: int| 0 <= i < a.len() ==> is_digit_char(#[trigger] a[i]),
    ensures
        p_digits(a, acc).0 == acc * pow10(a.len() as nat) + p_digits(a, 0).0,
        p_digits(a, acc).1 == p_digits(a, 0).1,
    decreases a.len(),
{
    if a.len() == 0 {
        assert(acc * pow10(0) == acc) by (nonlinear_arith)
            requires
                pow10(0) == 1,
        ;
    } else {
        let d = a[0] as u32 - '0' as u32;
        let rest = a.drop_first();
        let k = rest.len() as nat;
        assert(forall|i: int| 0 <= i < rest.len() ==> is_digit_char(#[trigger] rest[i]));
        lemma_digits_value(rest, acc * 10 + d);
        lemma_digits_value(rest, d);
        assert(p_digits(a, acc) == p_digits(rest, acc * 10 + d));
        assert(p_digits(a, 0) == p_digits(rest, d));
        assert(p_digits(rest, acc * 10 + d).0 == (acc * 10 + d) * pow10(k) + p_digits(rest, 0).0);
        assert(p_digits(rest, d).0 == d * pow10(k) + p_digits(rest, 0).0);
        assert(pow10(k + 1) == 10 * pow10(k));
        assert((acc * 10 + d) * pow10(k) == acc * pow10(k + 1) + d * pow10(k))
            by (nonlinear_arith)
            requires
                pow10(k + 1) == 10 * pow10(k),
        ;
        assert(a.len() as nat == k + 1);
    }
}

/// Every character of a decimal rendering is a digit.
proof fn lemma_dec_chars_digits(n: nat)
    ensures
        forall|i: int| 0 <= i < dec_chars(n).len() ==> is_digit_char(#[trigger] dec_chars(n)[i]),
        dec_chars(n).len() >= 1,
    decreases n,
{
    if n < 10 {
        assert(dec_chars(n)[0] == digit_char(n as int));
        assert(digit_char(n as int) as u32 == n + 48) by {
            assert(((n + 48) as u8) as char as u32 == n + 48);
        }
    } else {
        lemma_dec_chars_digits(n / 10);
        let a = dec_chars(n / 10);
        let c = digit_char((n % 10) as int);
        assert(c as u32 == (n % 10) + 48) by {
            assert((((n % 10) + 48) as u8) as char as u32 == (n % 10) + 48);
        }
        assert forall|i: int| 0 <= i < dec_chars(n).len() implies is_digit_char(
            #[trigger] dec_chars(n)[i],
        ) by {
            if i < a.len() {
                assert(dec_chars(n)[i] == a[i]);
            } else {
                assert(dec_chars(n)[i] == c);
            }
        }
    }
}

/// Parsing a decimal rendering yields the number back.
proof fn lemma_dec_chars_value(n: nat)
    ensures
        p_digits(dec_chars(n), 0).0 == n,
        p_digits(dec_chars(n), 0).1 =~= Seq::<char>::empty(),
    decreases n,
{
    lemma_dec_chars_digits(n);
    if n < 10 {
        let c = digit_char(n as int);
        assert(c as u32 == n + 48) by {
            assert(((n + 48) as u8) as char as u32 == n + 48);
        }
        assert(dec_chars(n) =~= seq![c]);
        assert(seq![c].drop_first() =~= Seq::<char>::empty());
        assert(p_digits(seq![c], 0) == p_digits(Seq::<char>::empty(), (c as u32 - '0' as u32) as int));
    } else {
        let a = dec_chars(n / 10);
        let c = digit_char((n % 10) as int);
        lemma_dec_chars_value(n / 10);
        lemma_dec_chars_digits(n / 10);
        assert(dec_chars(n) =~= a + seq![c]);
        lemma_digits_append(a, seq![c], 0);
        assert(0 * pow10(a.len() as nat) == 0) by (nonlinear_arith);
        assert(p_digits(a, 0).0 == n / 10);
        assert(p_digits(dec_chars(n), 0) == p_digits(seq![c], (n / 10) as int));
        assert(c as u32 == (n % 10) + 48) by {
            assert((((n % 10) + 48) as u8) as char as u32 == (n % 10) + 48);
        }
        assert(is_digit_char(c));
        assert(seq![c].drop_first() =~= Seq::<char>::empty());
        assert(p_digits(seq![c], (n / 10) as int) == p_digits(
            Seq::<char>::empty(),
            ((n / 10) as int) * 10 + (c as u32 - '0' as u32) as int,
        ));
        vstd::arithmetic::div_mod::lemma_fundamental_div_mod(n as int, 10);
        assert(((n / 10) as int) * 10 + ((n % 10) as int) == n) by (nonlinear_arith)
            requires
                n as int == 10 * ((n as int) / 10) + (n as int) % 10,
                (n / 10) as int == (n as int) / 10,
                (n % 10) as int == (n as int) % 10,
        ;
    }
}

/// A number rendering followed by a non-digit parses to the number and
/// that remainder.
proof fn lemma_p_number(n: nat, rest: Seq<char>)
    requires
        rest.len() > 0,
        !is_digit_char(rest[0]),
    ensures
        p_number(dec_chars(n) + rest) == Option::Some((n as int, rest)),
{
    lemma_dec_chars_digits(n);
    let a = dec_chars(n);
    let s = a + rest;
    assert(s[0] == a[0]);
    lemma_digits_append(a, rest, 0);
    lemma_dec_chars_value(n);
    assert(p_digits(s, 0) == p_digits(rest, p_digits(a, 0).0 + 0 * pow10(
        a.len() as nat,
    )));
    assert(0 * pow10(a.len() as nat) == 0) by (nonlinear_arith);
    assert(p_digits(rest, n as int) == (n as int, rest));
}

/// Reference parser for the symbol-table entries, stopping (without
/// consuming) at the closing brace. `fuel` bounds the entry count.
pub open spec fn p_hits_entries(s: Seq<char>, fuel: nat) -> Option<
    (Seq<(Seq<char>, Seq<Seq<char>>)>, Seq<char>),
>
    decreases fuel,
{
    if s.len() > 0 && s[0] == '}' {
        Option::Some((Seq::<(Seq<char>, Seq<Seq<char>>)>::empty(), s))
    } else if fuel == 0 {
        Option::None
    } else {
        match p_qstring(s) {
            Option::None => Option::None,
            Option::Some(kp) => {
                let k = kp.0;
                let r = kp.1;
                if r.len() >= 2 && r[0] == ':' && r[1] == '[' {
                    match p_qlist(r.skip(2), r.len() as nat) {
                        Option::None => Option::None,
                        Option::Some(lp) => {
                            let items = lp.0;
                            let r2 = lp.1;
                            if r2.len() > 0 && r2[0] == ',' {
                                match p_hits_entries(r2.skip(1), (fuel - 1) as nat) {
                                    Option::None => Option::None,
                                    Option::Some(ep) => Option::Some(
                                        (seq![(k, items)] + ep.0, ep.1),
                                    ),
                                }
                            } else if r2.len() > 0 && r2[0] == '}' {
                                Option::Some((seq![(k, items)], r2))
                            } else {
                                Option::None
                            }
                        },
                    }
                } else {
                    Option::None
                }
            },
        }
    }
}

/// Reference parser for the directory-counter entries, stopping (without
/// consuming) at the closing brace.
pub open spec fn p_scores_entries(s: Seq<char>, fuel: nat) -> Option<
    (Seq<(Seq<char>, u32)>, Seq<char>),
>
    decreases fuel,
{
    if s.len() > 0 && s[0] == '}' {
        Option::Some((Seq::<(Seq<char>, u32)>::empty(), s))
    } else if fuel == 0 {
        Option::None
    } else {
        match p_qstring(s) {
            Option::None => Option::None,
            Option::Some(kp) => {
                let k = kp.0;
                let r = kp.1;
                if r.len() >= 1 && r[0] == ':' {
                    match p_number(r.skip(1)) {
                        Option::None => Option::None,
                        Option::Some(np) => {
                            let v = np.0;
                            let r2 = np.1;
                            if !(0 <= v <= u32::MAX) {
                                Option::None
                            } else if r2.len() > 0 && r2[0] == ',' {
                                match p_scores_entries(r2.skip(1), (fuel - 1) as nat) {
                                    Option::None => Option::None,
                                    Option::Some(ep) => Option::Some(
                                        (seq![(k, v as u32)] + ep.0, ep.1),
                                    ),
                                }
                            } else if r2.len() > 0 && r2[0] == '}' {
                                Option::Some((seq![(k, v as u32)], r2))
                            } else {
                                Option::None
                            }
                        },
                    }
                } else {
                    Option::None
                }
            },
        }
    }
}

/// The reference decoder for the whole document.
pub open spec fn decode_state_spec(s: Seq<char>) -> Option<
    (Seq<(Seq<char>, Seq<Seq<char>>)>, Seq<(Seq<char>, u32)>),
> {
    let head = "{\"symbol_hits\":{"@;
    let mid = "},\"directory_scores\":{"@;
    let tail = "}}"@;
    if crate::text::is_prefix_of(head, s) {
        let s1 = s.skip(head.len() as int);
        match p_hits_entries(s1, s1.len() as nat) {
            Option::None => Option::None,
            Option::Some(hp) => {
                let r = hp.1;
                if crate::text::is_prefix_of(mid, r) {
                    let s2 = r.skip(mid.len() as int);
                    match p_scores_entries(s2, s2.len() as nat) {
                        Option::None => Option::None,
                        Option::Some(sp) => {
                            if sp.1 == tail {
                                Option::Some((hp.0, sp.0))
                            } else {
                                Option::None
                            }
                        },
                    }
                } else {
                    Option::None
                }
            },
        }
    } else {
        Option::None
    }
}

proof fn lemma_quoted_list_len(ps: Seq<Seq<char>>)
    ensures
        quoted_list(ps).len() >= ps.len(),
    decreases ps.len(),
{
    if ps.len() > 1 {
        lemma_quoted_list_len(ps.drop_first());
    }
}

proof fn lemma_hits_entries_len(hv: Seq<(Seq<char>, Seq<Seq<char>>)>)
    ensures
        hits_entries(hv).len() >= hv.len(),
    decreases hv.len(),
{
    if hv.len() > 1 {
        lemma_hits_entries_len(hv.drop_first());
    }
}

proof fn lemma_scores_entries_len(sv: Seq<(Seq<char>, u32)>)
    ensures
        scores_entries(sv).len() >= sv.len(),
    decreases sv.len(),
{
    if sv.len() > 1 {
        lemma_scores_entries_len(sv.drop_first());
    }
}

proof fn lemma_p_hits_entries(hv: Seq<(Seq<char>, Seq<Seq<char>>)>, rest: Seq<char>, fuel: nat)
    requires
        fuel >= hv.len(),
        rest.len() > 0,
        rest[0] == '}',
    ensures
        p_hits_entries(hits_entries(hv) + rest, fuel) == Option::Some((hv, rest)),
    decreases hv.len(),
{
    let s = hits_entries(hv) + rest;
    if hv.len() == 0 {
        assert(s =~= rest);
    } else {
        let k = hv[0].0;
        let items = hv[0].1;
        let entry = quoted(k) + seq![':', '['] + quoted_list(items) + seq![']'];
        let after: Seq<char> = if hv.len() == 1 {
            rest
        } else {
            seq![','] + (hits_entries(hv.drop_first()) + rest)
        };
        assert(s =~= quoted(k) + (seq![':', '['] + quoted_list(items) + seq![']'] + after)) by {
            if hv.len() == 1 {
                assert(hits_entries(hv) == entry);
            } else {
                assert(hits_entries(hv) == entry + seq![','] + hits_entries(hv.drop_first()));
            }
        }
        assert(s[0] == '"') by {
            assert(s[0] == quoted(k)[0]);
        }
        lemma_p_qstring(k, seq![':', '['] + quoted_list(items) + seq![']'] + after);
        let r = seq![':', '['] + quoted_list(items) + seq![']'] + after;
        assert(r[0] == ':' && r[1] == '[');
        assert(r.skip(2) =~= quoted_list(items) + seq![']'] + after);
        assert(r.len() as nat >= items.len()) by {
            lemma_quoted_list_len(items);
        }
        lemma_p_qlist(items, after, r.len() as nat);
        if hv.len() == 1 {
            assert(after[0] == '}');
            assert(p_hits_entries(s, fuel) == Option::Some((seq![(k, items)], after)));
            assert(seq![(k, items)] =~= hv);
        } else {
            assert(after[0] == ',');
            assert(after.skip(1) =~= hits_entries(hv.drop_first()) + rest);
            lemma_p_hits_entries(hv.drop_first(), rest, (fuel - 1) as nat);
            assert(p_hits_entries(s, fuel) == Option::Some((seq![(k, items)] + hv.drop_first(), rest)));
            assert(seq![(k, items)] + hv.drop_first() =~= hv);
        }
    }
}

proof fn lemma_p_scores_entries(sv: Seq<(Seq<char>, u32)>, rest: Seq<char>, fuel: nat)
    requires
        fuel >= sv.len(),
        rest.len() > 0,
        rest[0] == '}',
    ensures
        p_scores_entries(scores_entries(sv) + rest, fuel) == Option::Some((sv, rest)),
    decreases sv.len(),
{
    let s = scores_entries(sv) + rest;
    if sv.len() == 0 {
        assert(s =~= rest);
    } else {
        let k = sv[0].0;
        let v = sv[0].1;
        let entry = quoted(k) + seq![':'] + dec_chars(v as nat);
        let after: Seq<char> = if sv.len() == 1 {
            rest
        } else {
            seq![','] + (scores_entries(sv.drop_first()) + rest)
        };
        assert(s =~= quoted(k) + (seq![':'] + dec_chars(v as nat) + after)) by {
            if sv.len() == 1 {
                assert(scores_entries(sv) == entry);
            } else {
                assert(scores_entries(sv) == entry + seq![','] + scores_entries(sv.drop_first()));
            }
        }
        assert(s[0] == '"') by {
            assert(s[0] == quoted(k)[0]);
        }
        lemma_p_qstring(k, seq![':'] + dec_chars(v as nat) + after);
        let r = seq![':'] + dec_chars(v as nat) + after;
        assert(r[0] == ':');
        assert(r.skip(1) =~= dec_chars(v as nat) + after);
        assert(after.len() > 0 && !is_digit_char(after[0])) by {
            if sv.len() == 1 {
                assert(after[0] == '}');
            } else {
                assert(after[0] == ',');
            }
        }
        lemma_p_number(v as nat, after);
        if sv.len() == 1 {
            assert(after[0] == '}');
            assert(p_scores_entries(s, fuel) == Option::Some((seq![(k, v)], after)));
            assert(seq![(k, v)] =~= sv);
        } else {
            assert(after[0] == ',');
            assert(after.skip(1) =~= scores_entries(sv.drop_first()) + rest);
            lemma_p_scores_entries(sv.drop_first(), rest, (fuel - 1) as nat);
            assert(p_scores_entries(s, fuel) == Option::Some(
                (seq![(k, v)] + sv.drop_first(), rest),
            ));
            assert(seq![(k, v)] + sv.drop_first() =~= sv);
        }
    }
}

/// Law (store round trip): decoding an encoded store returns exactly the
/// symbol table and the directory counters that were written — saving and
/// loading preserve `hints_for_symbol` and `top_directories` for every
/// symbol and limit, since both read only these two tables.
pub proof fn lemma_state_round_trip(
    hv: Seq<(Seq<char>, Seq<Seq<char>>)>,
    sv: Seq<(Seq<char>, u32)>,
)
    ensures
        decode_state_spec(encode_state_spec(hv, sv)) == Option::Some((hv, sv)),
{
    let head = "{\"symbol_hits\":{"@;
    let mid = "},\"directory_scores\":{"@;
    let tail = "}}"@;
    let s = encode_state_spec(hv, sv);
    reveal_strlit("{\"symbol_hits\":{");
    reveal_strlit("},\"directory_scores\":{");
    reveal_strlit("}}");
    assert(crate::text::is_prefix_of(head, s)) by {
        assert(s.take(head.len() as int) =~= head);
    }
    let s1 = s.skip(head.len() as int);
    let rest1 = mid + scores_entries(sv) + "}}"@;
    assert(s1 =~= hits_entries(hv) + rest1);
    assert(rest1[0] == '}') by {
        assert(rest1[0] == mid[0]);
        assert(mid[0] == '}');
    }
    assert(s1.len() as nat >= hv.len()) by {
        lemma_hits_entries_len(hv);
    }
    lemma_p_hits_entries(hv, rest1, s1.len() as nat);
    assert(crate::text::is_prefix_of(mid, rest1)) by {
        assert(rest1.take(mid.len() as int) =~= mid);
    }
    let s2 = rest1.skip(mid.len() as int);
    assert(s2 =~= scores_entries(sv) + tail);
    assert(tail[0] == '}');
    assert(s2.len() as nat >= sv.len()) by {
        lemma_scores_entries_len(sv);
    }
    lemma_p_scores_entries(sv, tail, s2.len() as nat);
}

/// Escapes one string into the output.
fn push_escaped(out: &mut Vec<char>, s: &str)
    ensures
        final(out)@ == old(out)@ + esc(s@),
{
    let v = str_to_chars(s);
    let mut i: usize = 0;
    proof {
        assert(v@.skip(0) =~= v@);
        assert(out@ + esc(v@) =~= old(out)@ + esc(v@));
    }
    while i < v.len()
        invariant
            i <= v@.len(),
            v@ == s@,
            out@ + esc(v@.skip(i as int)) == old(out)@ + esc(v@),
        decreases v@.len() - i,
    {
        let c = v[i];
        proof {
            let u = v@.skip(i as int);
            assert(u[0] == v@[i as int]);
            assert(u.drop_first() =~= v@.skip(i + 1 as int));
        }
        let ghost out0 = out@;
        if c == '"' {
            out.push('\\');
            out.push('"');
        } else if c == '\\' {
            out.push('\\');
            out.push('\\');
        } else if (c as u32) < 0x20 {
            out.push('\\');
            out.push('u');
            out.push('0');
            out.push('0');
            let u = c as u32;
            out.push(hex_digit_exec(u / 16));
            out.push(hex_digit_exec(u % 16));
        } else {
            out.push(c);
        }
        proof {
            assert(out@ =~= out0 + esc_char(v@[i as int]));
            assert(out@ + esc(v@.skip(i + 1 as int)) =~= out0 + esc(v@.skip(i as int)));
        }
        i += 1;
    }
    proof {
        assert(v@.skip(v@.len() as int) =~= Seq::<char>::empty());
        assert(out@ + Seq::<char>::empty() =~= out@);
    }
}

fn hex_digit_exec(d: u32) -> (r: char)
    requires
        d < 16,
    ensures
        r == hex_char(d as int),
{
    if d < 10 {
        ((d as u8) + 48) as char
    } else {
        (('a' as u8) + (d as u8) - 10) as char
    }
}

/// Appends the characters of a literal.
fn push_lit_chars(out: &mut Vec<char>, lit: &str)
    ensures
        final(out)@ == old(out)@ + lit@,
{
    let n = lit.unicode_len();
    let mut i: usize = 0;
    proof {
        assert(out@ =~= old(out)@ + lit@.take(0));
    }
    while i < n
        invariant
            i <= n,
            n == lit@.len(),
            out@ == old(out)@ + lit@.take(i as int),
        decreases n - i,
    {
        out.push(lit.get_char(i));
        proof {
            assert(lit@.take(i + 1 as int) =~= lit@.take(i as int).push(lit@[i as int]));
            assert(old(out)@ + lit@.take(i + 1 as int) =~= (old(out)@ + lit@.take(i as int)).push(
                lit@[i as int],
            ));
        }
        i += 1;
    }
    proof {
        assert(lit@.take(n as int) =~= lit@);
    }
}

impl PersistentState {
    /// Renders the store in its on-disk JSON form.
    pub fn encoded(&self) -> (r: String)
        ensures
            r@ == encode_state_spec(
                hints_view(self.symbol_hits@),
                scores_view(self.directory_scores@),
            ),
    {
        let ghost hv = hints_view(self.symbol_hits@);
        let ghost sv = scores_view(self.directory_scores@);
        let mut out: Vec<char> = Vec::new();
        push_lit_chars(&mut out, "{\"symbol_hits\":{");
        let ghost base = out@;
        let mut i: usize = 0;
        proof {
            assert(hv.len() == self.symbol_hits@.len());
            assert(hv.skip(0) =~= hv);
            assert(out@ + hits_entries(hv) =~= base + hits_entries(hv));
        }
        while i < self.symbol_hits.len()
            invariant
                i <= hv.len(),
                hv == hints_view(self.symbol_hits@),
                hv.len() == self.symbol_hits@.len(),
                out@ + hits_entries(hv.skip(i as int)) == base + hits_entries(hv),
            decreases hv.len() - i,
        {
            proof {
                let u = hv.skip(i as int);
                assert(u[0] == hv[i as int]);
                assert(u.drop_first() =~= hv.skip(i + 1 as int));
                assert(hv[i as int].0 == self.symbol_hits@[i as int].0@);
                assert(hv[i as int].1 =~~= self.symbol_hits@[i as int].1.deep_view());
            }
            let ghost pre = out@;
            out.push('"');
            push_escaped(&mut out, self.symbol_hits[i].0.as_str());
            out.push('"');
            out.push(':');
            out.push('[');
            let entry = &self.symbol_hits[i].1;
            let ghost ed = entry.deep_view();
            let mut k: usize = 0;
            let ghost pre_list = out@;
            proof {
                assert(ed.len() == entry@.len());
                assert(ed.skip(0) =~= ed);
                assert(out@ + quoted_list(ed) =~= pre_list + quoted_list(ed));
            }
            while k < entry.len()
                invariant
                    k <= ed.len(),
                    ed == entry.deep_view(),
                    ed.len() == entry@.len(),
                    out@ + quoted_list(ed.skip(k as int)) == pre_list + quoted_list(ed),
                decreases ed.len() - k,
            {
                proof {
                    let w = ed.skip(k as int);
                    assert(w[0] == ed[k as int]);
                    assert(w.drop_first() =~= ed.skip(k + 1 as int));
                    assert(ed[k as int] == entry@[k as int]@);
                }
                let ghost before = out@;
                out.push('"');
                push_escaped(&mut out, entry[k].as_str());
                out.push('"');
                if k + 1 < entry.len() {
                    out.push(',');
                    proof {
                        assert(out@ =~= before + (quoted(ed[k as int]) + seq![',']));
                        assert(out@ + quoted_list(ed.skip(k + 1 as int)) =~= before + quoted_list(
                            ed.skip(k as int),
                        ));
                    }
                } else {
                    proof {
                        assert(ed.skip(k as int).len() == 1);
                        assert(out@ =~= before + quoted(ed[k as int]));
                        assert(ed.skip(k + 1 as int).len() == 0);
                        assert(out@ + quoted_list(ed.skip(k + 1 as int)) =~= before + quoted_list(
                            ed.skip(k as int),
                        ));
                    }
                }
                k += 1;
            }
            proof {
                assert(ed.skip(ed.len() as int) =~= Seq::<Seq<char>>::empty());
                assert(out@ + Seq::<char>::empty() =~= out@);
            }
            out.push(']');
            if i + 1 < self.symbol_hits.len() {
                out.push(',');
                proof {
                    assert(hv.skip(i as int).len() > 1);
                    assert(out@ =~= pre + (quoted(hv[i as int].0) + seq![':', '['] + quoted_list(
                        hv[i as int].1,
                    ) + seq![']'] + seq![',']));
                    assert(out@ + hits_entries(hv.skip(i + 1 as int)) =~= pre + hits_entries(
                        hv.skip(i as int),
                    ));
                }
            } else {
                proof {
                    assert(hv.skip(i as int).len() == 1);
                    assert(out@ =~= pre + (quoted(hv[i as int].0) + seq![':', '['] + quoted_list(
                        hv[i as int].1,
                    ) + seq![']']));
                    assert(hv.skip(i + 1 as int).len() == 0);
                    assert(out@ + hits_entries(hv.skip(i + 1 as int)) =~= pre + hits_entries(
                        hv.skip(i as int),
                    ));
                }
            }
            i += 1;
        }
        proof {
            assert(hv.skip(hv.len() as int) =~= Seq::<(Seq<char>, Seq<Seq<char>>)>::empty());
            assert(out@ + Seq::<char>::empty() =~= out@);
        }
        push_lit_chars(&mut out, "},\"directory_scores\":{");
        let ghost base2 = out@;
        let mut j: usize = 0;
        proof {
            assert(sv.len() == self.directory_scores@.len());
            assert(sv.skip(0) =~= sv);
            assert(out@ + scores_entries(sv) =~= base2 + scores_entries(sv));
        }
        while j < self.directory_scores.len()
            invariant
                j <= sv.len(),
                sv == scores_view(self.directory_scores@),
                sv.len() == self.directory_scores@.len(),
                out@ + scores_entries(sv.skip(j as int)) == base2 + scores_entries(sv),
            decreases sv.len() - j,
        {
            proof {
                let u = sv.skip(j as int);
                assert(u[0] == sv[j as int]);
                assert(u.drop_first() =~= sv.skip(j + 1 as int));
                assert(sv[j as int].0 == self.directory_scores@[j as int].0@);
                assert(sv[j as int].1 == self.directory_scores@[j as int].1);
            }
            let ghost pre = out@;
            out.push('"');
            push_escaped(&mut out, self.directory_scores[j].0.as_str());
            out.push('"');
            out.push(':');
            let num = usize_to_chars(self.directory_scores[j].1 as usize);
            let mut d: usize = 0;
            let ghost num_base = out@;
            while d < num.len()
                invariant
                    d <= num@.len(),
                    out@ == num_base + num@.take(d as int),
                decreases num@.len() - d,
            {
                out.push(num[d]);
                proof {
                    assert(num@.take(d + 1 as int) =~= num@.take(d as int).push(num@[d as int]));
                    assert(num_base + num@.take(d + 1 as int) =~= (num_base + num@.take(
                        d as int,
                    )).push(num@[d as int]));
                }
                d += 1;
            }
            proof {
                assert(num@.take(num@.len() as int) =~= num@);
                assert(num@ == dec_chars(sv[j as int].1 as nat));
            }
            if j + 1 < self.directory_scores.len() {
                out.push(',');
                proof {
                    assert(sv.skip(j as int).len() > 1);
                    assert(out@ =~= pre + (quoted(sv[j as int].0) + seq![':'] + dec_chars(
                        sv[j as int].1 as nat,
                    ) + seq![',']));
                    assert(out@ + scores_entries(sv.skip(j + 1 as int)) =~= pre + scores_entries(
                        sv.skip(j as int),
                    ));
                }
            } else {
                proof {
                    assert(sv.skip(j as int).len() == 1);
                    assert(out@ =~= pre + (quoted(sv[j as int].0) + seq![':'] + dec_chars(
                        sv[j as int].1 as nat,
                    )));
                    assert(sv.skip(j + 1 as int).len() == 0);
                    assert(out@ + scores_entries(sv.skip(j + 1 as int)) =~= pre + scores_entries(
                        sv.skip(j as int),
                    ));
                }
            }
            j += 1;
        }
        proof {
            assert(sv.skip(sv.len() as int) =~= Seq::<(Seq<char>, u32)>::empty());
            assert(out@ + Seq::<char>::empty() =~= out@);
        }
        push_lit_chars(&mut out, "}}");
        proof {
            assert(out@ =~= encode_state_spec(hv, sv));
        }
        chars_to_string(&out)
    }
}

/// The reference decoder with the duplicate-key guard the store needs:
/// a document whose tables repeat a key decodes to nothing.
pub open spec fn decode_full_spec(s: Seq<char>) -> Option<
    (Seq<(Seq<char>, Seq<Seq<char>>)>, Seq<(Seq<char>, u32)>),
> {
    match decode_state_spec(s) {
        Option::None => Option::None,
        Option::Some(d) => {
            if assoc_unique(d.0) && assoc_unique(d.1) {
                Option::Some(d)
            } else {
                Option::None
            }
        },
    }
}

/// Law (store round trip): a store with unique keys — every store the
/// library builds — decodes from its encoding to exactly its own tables.
pub proof fn lemma_store_round_trip(hv: Seq<(Seq<char>, Seq<Seq<char>>)>, sv: Seq<(Seq<char>, u32)>)
    requires
        assoc_unique(hv),
        assoc_unique(sv),
    ensures
        decode_full_spec(encode_state_spec(hv, sv)) == Option::Some((hv, sv)),
{
    lemma_state_round_trip(hv, sv);
}

/// Consumes an exact literal at the given position.
fn eat_lit(v: &Vec<char>, i: usize, lit: &str) -> (r: Option<usize>)
    requires
        i <= v@.len(),
    ensures
        r matches Option::Some(j) ==> i <= j <= v@.len() && j == i + lit@.len()
            && crate::text::is_prefix_of(lit@, v@.skip(i as int)),
        r is None ==> !crate::text::is_prefix_of(lit@, v@.skip(i as int)),
{
    let n = lit.unicode_len();
    let vn = v.len();
    if n > vn - i {
        proof {
            assert(v@.skip(i as int).len() < lit@.len());
        }
        return Option::None;
    }
    let mut k: usize = 0;
    while k < n
        invariant
            k <= n,
            n == lit@.len(),
            vn == v@.len(),
            i + n <= vn,
            forall|m: int| 0 <= m < k ==> v@.skip(i as int)[m] == lit@[m],
        decreases n - k,
    {
        if v[i + k] != lit.get_char(k) {
            proof {
                assert(v@.skip(i as int)[k as int] == v@[i + k]);
                assert(v@.skip(i as int).take(n as int)[k as int] == v@.skip(i as int)[k as int]);
            }
            return Option::None;
        }
        proof {
            assert(v@.skip(i as int)[k as int] == v@[i + k]);
        }
        k += 1;
    }
    proof {
        assert(v@.skip(i as int).take(n as int) =~= lit@);
    }
    Option::Some(i + n)
}

/// The value of one lowercase hexadecimal digit.
fn hex_val_exec(c: char) -> (r: Option<u32>)
    ensures
        r matches Option::Some(h) ==> is_hex_char(c) && h == hex_val(c),
        r is None ==> !is_hex_char(c),
{
    let u = c as u32;
    if '0' as u32 <= u && u <= '9' as u32 {
        Option::Some(u - '0' as u32)
    } else if 'a' as u32 <= u && u <= 'f' as u32 {
        Option::Some(u - 'a' as u32 + 10)
    } else {
        Option::None
    }
}

/// Parses a string body from after the opening quote, mirroring the
/// reference parser exactly.
fn parse_str_body(v: &Vec<char>, i: usize) -> (r: Option<(Vec<char>, usize)>)
    requires
        i <= v@.len(),
    ensures
        r matches Option::Some(p) ==> {
            &&& i < p.1 <= v@.len()
            &&& p_str_body(v@.skip(i as int)) matches Option::Some(q) && q.0 == p.0@ && q.1
                =~= v@.skip(p.1 as int)
        },
        r is None ==> p_str_body(v@.skip(i as int)) is None,
    decreases v@.len() - i,
{
    let ghost s = v@.skip(i as int);
    if i >= v.len() {
        return Option::None;
    }
    let c = v[i];
    proof {
        assert(s[0] == v@[i as int]);
    }
    if c == '"' {
        proof {
            assert(s.skip(1) =~= v@.skip(i + 1 as int));
        }
        return Option::Some((Vec::new(), i + 1));
    }
    if c == '\\' {
        if v.len() - i >= 2 && (v[i + 1] == '"' || v[i + 1] == '\\') {
            proof {
                assert(s.len() >= 2 && s[1] == v@[i + 1]);
                assert(s.skip(2) =~= v@.skip(i + 2 as int));
            }
            match parse_str_body(v, i + 2) {
                Option::Some(p) => {
                    let (rest_chars, j) = p;
                    let mut out: Vec<char> = Vec::new();
                    out.push(v[i + 1]);
                    let mut t: usize = 0;
                    while t < rest_chars.len()
                        invariant
                            t <= rest_chars@.len(),
                            out@ == seq![v@[i + 1]] + rest_chars@.take(t as int),
                        decreases rest_chars@.len() - t,
                    {
                        out.push(rest_chars[t]);
                        proof {
                            assert(rest_chars@.take(t + 1 as int) =~= rest_chars@.take(
                                t as int,
                            ).push(rest_chars@[t as int]));
                            assert(seq![v@[i + 1]] + rest_chars@.take(t + 1 as int) =~= (seq![
                                v@[i + 1],
                            ] + rest_chars@.take(t as int)).push(rest_chars@[t as int]));
                        }
                        t += 1;
                    }
                    proof {
                        assert(rest_chars@.take(rest_chars@.len() as int) =~= rest_chars@);
                    }
                    return Option::Some((out, j));
                },
                Option::None => {
                    return Option::None;
                },
            }
        } else if v.len() - i >= 6 && v[i + 1] == 'u' && v[i + 2] == '0' && v[i + 3] == '0' {
            proof {
                assert(s.len() >= 6);
                assert(s[1] == v@[i + 1] && s[2] == v@[i + 2] && s[3] == v@[i + 3]);
                assert(s[4] == v@[i + 4] && s[5] == v@[i + 5]);
            }
            let hi = match hex_val_exec(v[i + 4]) {
                Option::Some(h) => h,
                Option::None => {
                    return Option::None;
                },
            };
            let lo = match hex_val_exec(v[i + 5]) {
                Option::Some(h) => h,
                Option::None => {
                    return Option::None;
                },
            };
            let code = hi * 16 + lo;
            if code >= 0x20 {
                return Option::None;
            }
            proof {
                assert(s.skip(6) =~= v@.skip(i + 6 as int));
            }
            match parse_str_body(v, i + 6) {
                Option::Some(p) => {
                    let (rest_chars, j) = p;
                    let decoded: char = (code as u8) as char;
                    let mut out: Vec<char> = Vec::new();
                    out.push(decoded);
                    let mut t: usize = 0;
                    while t < rest_chars.len()
                        invariant
                            t <= rest_chars@.len(),
                            out@ == seq![decoded] + rest_chars@.take(t as int),
                        decreases rest_chars@.len() - t,
                    {
                        out.push(rest_chars[t]);
                        proof {
                            assert(rest_chars@.take(t + 1 as int) =~= rest_chars@.take(
                                t as int,
                            ).push(rest_chars@[t as int]));
                            assert(seq![decoded] + rest_chars@.take(t + 1 as int) =~= (seq![
                                decoded,
                            ] + rest_chars@.take(t as int)).push(rest_chars@[t as int]));
                        }
                        t += 1;
                    }
                    proof {
                        assert(rest_chars@.take(rest_chars@.len() as int) =~= rest_chars@);
                    }
                    return Option::Some((out, j));
                },
                Option::None => {
                    return Option::None;
                },
            }
        } else {
            proof {
                if s.len() >= 2 {
                    assert(s[1] == v@[i + 1]);
                }
            }
            return Option::None;
        }
    }
    proof {
        assert(s.skip(1) =~= v@.skip(i + 1 as int));
    }
    match parse_str_body(v, i + 1) {
        Option::Some(p) => {
            let (rest_chars, j) = p;
            let mut out: Vec<char> = Vec::new();
            out.push(c);
            let mut t: usize = 0;
            while t < rest_chars.len()
                invariant
                    t <= rest_chars@.len(),
                    out@ == seq![c] + rest_chars@.take(t as int),
                decreases rest_chars@.len() - t,
            {
                out.push(rest_chars[t]);
                proof {
                    assert(rest_chars@.take(t + 1 as int) =~= rest_chars@.take(t as int).push(
                        rest_chars@[t as int],
                    ));
                    assert(seq![c] + rest_chars@.take(t + 1 as int) =~= (seq![c]
                        + rest_chars@.take(t as int)).push(rest_chars@[t as int]));
                }
                t += 1;
            }
            proof {
                assert(rest_chars@.take(rest_chars@.len() as int) =~= rest_chars@);
            }
            Option::Some((out, j))
        },
        Option::None => Option::None,
    }
}

/// Parses a quoted string, mirroring the reference parser.
fn parse_qstring(v: &Vec<char>, i: usize) -> (r: Option<(String, usize)>)
    requires
        i <= v@.len(),
    ensures
        r matches Option::Some(p) ==> {
            &&& i < p.1 <= v@.len()
            &&& p_qstring(v@.skip(i as int)) matches Option::Some(q) && q.0 == p.0@ && q.1
                =~= v@.skip(p.1 as int)
        },
        r is None ==> p_qstring(v@.skip(i as int)) is None,
{
    if i >= v.len() || v[i] != '"' {
        proof {
            if i < v@.len() {
                assert(v@.skip(i as int)[0] == v@[i as int]);
            }
        }
        return Option::None;
    }
    proof {
        assert(v@.skip(i as int)[0] == v@[i as int]);
        assert(v@.skip(i as int).skip(1) =~= v@.skip(i + 1 as int));
    }
    match parse_str_body(v, i + 1) {
        Option::Some(p) => Option::Some((chars_to_string(&p.0), p.1)),
        Option::None => Option::None,
    }
}

/// Parses a decimal number, mirroring the reference parser. A value beyond
/// the counter range is reported as an overflow, with the end position.
fn parse_number(v: &Vec<char>, i: usize) -> (r: Option<(Option<u32>, usize)>)
    requires
        i <= v@.len(),
    ensures
        r matches Option::Some(p) ==> {
            &&& i < p.1 <= v@.len()
            &&& p_number(v@.skip(i as int)) matches Option::Some(q) && q.1 =~= v@.skip(
                p.1 as int,
            ) && (match p.0 {
                Option::Some(u) => q.0 == u,
                Option::None => q.0 > u32::MAX,
            })
        },
        r is None ==> p_number(v@.skip(i as int)) is None,
{
    let ghost s = v@.skip(i as int);
    if i >= v.len() || !is_digit(v[i]) {
        proof {
            if i < v@.len() {
                assert(s[0] == v@[i as int]);
            }
        }
        return Option::None;
    }
    proof {
        assert(s[0] == v@[i as int]);
    }
    let mut acc: u32 = 0;
    let mut over = false;
    let mut j: usize = i;
    let ghost gacc: int = 0;
    proof {
        assert(s.skip(0) =~= s);
    }
    while j < v.len() && is_digit(v[j])
        invariant
            i <= j <= v@.len(),
            s == v@.skip(i as int),
            p_digits(s, 0) == p_digits(v@.skip(j as int), gacc),
            !over ==> gacc == acc,
            over ==> gacc > u32::MAX,
            gacc >= 0,
        decreases v@.len() - j,
    {
        let d = (v[j] as u32) - ('0' as u32);
        proof {
            assert(crate::text::is_digit_char(v@[j as int]));
            assert(d < 10);
            let u = v@.skip(j as int);
            assert(u[0] == v@[j as int]);
            assert(u.drop_first() =~= v@.skip(j + 1 as int));
        }
        if !over {
            if acc > (u32::MAX - d) / 10 {
                over = true;
                proof {
                    vstd::arithmetic::div_mod::lemma_fundamental_div_mod(
                        (u32::MAX - d) as int,
                        10,
                    );
                    assert((acc as int) * 10 + d > u32::MAX) by (nonlinear_arith)
                        requires
                            acc as int > ((u32::MAX - d) as int) / 10,
                            ((u32::MAX - d) as int) == 10 * (((u32::MAX - d) as int) / 10) + ((
                            u32::MAX - d) as int) % 10,
                            0 <= ((u32::MAX - d) as int) % 10 < 10,
                            0 <= d < 10,
                    ;
                }
            } else {
                proof {
                    vstd::arithmetic::div_mod::lemma_fundamental_div_mod(
                        (u32::MAX - d) as int,
                        10,
                    );
                    assert((acc as int) * 10 + d <= u32::MAX) by (nonlinear_arith)
                        requires
                            acc as int <= ((u32::MAX - d) as int) / 10,
                            ((u32::MAX - d) as int) == 10 * (((u32::MAX - d) as int) / 10) + ((
                            u32::MAX - d) as int) % 10,
                            0 <= ((u32::MAX - d) as int) % 10 < 10,
                            0 <= d < 10,
                    ;
                }
                acc = acc * 10 + d;
            }
        }
        proof {
            if over {
                assert(gacc * 10 + d > u32::MAX) by (nonlinear_arith)
                    requires
                        gacc > u32::MAX || (gacc == acc as int && gacc * 10 + d > u32::MAX),
                        gacc >= 0,
                        d >= 0,
                ;
            }
        }
        proof {
            gacc = gacc * 10 + d;
        }
        j += 1;
    }
    proof {
        if j < v@.len() {
            assert(v@.skip(j as int)[0] == v@[j as int]);
        }
        assert(p_digits(v@.skip(j as int), gacc) == (gacc, v@.skip(j as int)));
    }
    if over {
        Option::Some((Option::None, j))
    } else {
        Option::Some((Option::Some(acc), j))
    }
}

/// Parses the symbol-table entries, mirroring the reference parser; `fuel`
/// is threaded through unchanged.
fn parse_hits_entries(v: &Vec<char>, i: usize, fuel: usize) -> (r: Option<
    (Vec<(String, Vec<String>)>, usize),
>)
    requires
        i <= v@.len(),
    ensures
        r matches Option::Some(p) ==> {
            &&& i <= p.1 <= v@.len()
            &&& p_hits_entries(v@.skip(i as int), fuel as nat) matches Option::Some(q) && q.0
                == hints_view(p.0@) && q.1 =~= v@.skip(p.1 as int)
        },
        r is None ==> p_hits_entries(v@.skip(i as int), fuel as nat) is None,
    decreases fuel,
{
    let ghost s = v@.skip(i as int);
    if i < v.len() && v[i] == '}' {
        proof {
            assert(s[0] == v@[i as int]);
        }
        let empty: Vec<(String, Vec<String>)> = Vec::new();
        proof {
            assert(hints_view(empty@) =~= Seq::<(Seq<char>, Seq<Seq<char>>)>::empty());
        }
        return Option::Some((empty, i));
    }
    if fuel == 0 {
        proof {
            if i < v@.len() {
                assert(s[0] == v@[i as int]);
            }
        }
        return Option::None;
    }
    let (key, after_key) = match parse_qstring(v, i) {
        Option::Some(p) => p,
        Option::None => {
            proof {
                if i < v@.len() {
                    assert(s[0] == v@[i as int]);
                }
            }
            return Option::None;
        },
    };
    proof {
        if i < v@.len() {
            assert(s[0] == v@[i as int]);
        }
    }
    let ghost rspec = v@.skip(after_key as int);
    if v.len() - after_key < 2 || v[after_key] != ':' || v[after_key + 1] != '[' {
        proof {
            if after_key < v@.len() {
                assert(rspec[0] == v@[after_key as int]);
            }
            if after_key + 1 < v@.len() {
                assert(rspec[1] == v@[after_key + 1]);
            }
        }
        return Option::None;
    }
    proof {
        assert(rspec[0] == v@[after_key as int]);
        assert(rspec[1] == v@[after_key + 1]);
        assert(rspec.skip(2) =~= v@.skip(after_key + 2 as int));
    }
    let fuel_list = v.len() - after_key;
    let (items, after_list) = match parse_qlist(v, after_key + 2, fuel_list) {
        Option::Some(p) => p,
        Option::None => {
            proof {
                assert(rspec.len() as nat == fuel_list as nat);
            }
            return Option::None;
        },
    };
    proof {
        assert(rspec.len() as nat == fuel_list as nat);
    }
    let ghost r2 = v@.skip(after_list as int);
    if after_list < v.len() && v[after_list] == ',' {
        proof {
            assert(r2[0] == v@[after_list as int]);
            assert(r2.skip(1) =~= v@.skip(after_list + 1 as int));
        }
        match parse_hits_entries(v, after_list + 1, fuel - 1) {
            Option::Some(p) => {
                let (mut entries, j) = p;
                let ghost pre = entries@;
                entries.insert(0, (key, items));
                proof {
                    assert(hints_view(entries@) =~~= seq![
                        (key@, items.deep_view()),
                    ] + hints_view(pre));
                }
                Option::Some((entries, j))
            },
            Option::None => Option::None,
        }
    } else if after_list < v.len() && v[after_list] == '}' {
        proof {
            assert(r2[0] == v@[after_list as int]);
        }
        let mut entries: Vec<(String, Vec<String>)> = Vec::new();
        entries.push((key, items));
        proof {
            assert(hints_view(entries@) =~~= seq![(key@, items.deep_view())]);
        }
        Option::Some((entries, after_list))
    } else {
        proof {
            if after_list < v@.len() {
                assert(r2[0] == v@[after_list as int]);
            }
        }
        Option::None
    }
}

/// Parses a quoted-string list, mirroring the reference parser.
fn parse_qlist(v: &Vec<char>, i: usize, fuel: usize) -> (r: Option<(Vec<String>, usize)>)
    requires
        i <= v@.len(),
    ensures
        r matches Option::Some(p) ==> {
            &&& i <= p.1 <= v@.len()
            &&& p_qlist(v@.skip(i as int), fuel as nat) matches Option::Some(q) && q.0
                == p.0.deep_view() && q.1 =~= v@.skip(p.1 as int)
        },
        r is None ==> p_qlist(v@.skip(i as int), fuel as nat) is None,
    decreases fuel,
{
    let ghost s = v@.skip(i as int);
    if i < v.len() && v[i] == ']' {
        proof {
            assert(s[0] == v@[i as int]);
            assert(s.skip(1) =~= v@.skip(i + 1 as int));
        }
        let empty: Vec<String> = Vec::new();
        proof {
            assert(empty.deep_view() =~= Seq::<Seq<char>>::empty());
        }
        return Option::Some((empty, i + 1));
    }
    if fuel == 0 {
        proof {
            if i < v@.len() {
                assert(s[0] == v@[i as int]);
            }
        }
        return Option::None;
    }
    let (x, after_x) = match parse_qstring(v, i) {
        Option::Some(p) => p,
        Option::None => {
            proof {
                if i < v@.len() {
                    assert(s[0] == v@[i as int]);
                }
            }
            return Option::None;
        },
    };
    proof {
        if i < v@.len() {
            assert(s[0] == v@[i as int]);
        }
    }
    let ghost r1 = v@.skip(after_x as int);
    if after_x < v.len() && v[after_x] == ',' {
        proof {
            assert(r1[0] == v@[after_x as int]);
            assert(r1.skip(1) =~= v@.skip(after_x + 1 as int));
        }
        match parse_qlist(v, after_x + 1, fuel - 1) {
            Option::Some(p) => {
                let (mut items, j) = p;
                let ghost pre = items@;
                items.insert(0, x);
                proof {
                    assert(items.deep_view() =~~= seq![items@[0]@] + pre.map(
                        |_k: int, e: String| e@,
                    ));
                    assert(pre.map(|_k: int, e: String| e@) =~~= p_qlist(
                        v@.skip(after_x + 1 as int),
                        (fuel - 1) as nat,
                    )->Some_0.0) by {
                        assert(forall|k: int|
                            0 <= k < pre.len() ==> pre.map(|_k: int, e: String| e@)[k] == #[trigger] pre[k]@);
                    }
                }
                Option::Some((items, j))
            },
            Option::None => Option::None,
        }
    } else if after_x < v.len() && v[after_x] == ']' {
        proof {
            assert(r1[0] == v@[after_x as int]);
            assert(r1.skip(1) =~= v@.skip(after_x + 1 as int));
        }
        let mut items: Vec<String> = Vec::new();
        items.push(x);
        proof {
            assert(items.deep_view() =~~= seq![items@[0]@]);
        }
        Option::Some((items, after_x + 1))
    } else {
        proof {
            if after_x < v@.len() {
                assert(r1[0] == v@[after_x as int]);
            }
        }
        Option::None
    }
}

/// Parses the directory-counter entries, mirroring the reference parser.
fn parse_scores_entries(v: &Vec<char>, i: usize, fuel: usize) -> (r: Option<
    (Vec<(String, u32)>, usize),
>)
    requires
        i <= v@.len(),
    ensures
        r matches Option::Some(p) ==> {
            &&& i <= p.1 <= v@.len()
            &&& p_scores_entries(v@.skip(i as int), fuel as nat) matches Option::Some(q) && q.0
                == scores_view(p.0@) && q.1 =~= v@.skip(p.1 as int)
        },
        r is None ==> p_scores_entries(v@.skip(i as int), fuel as nat) is None,
    decreases fuel,
{
    let ghost s = v@.skip(i as int);
    if i < v.len() && v[i] == '}' {
        proof {
            assert(s[0] == v@[i as int]);
        }
        let empty: Vec<(String, u32)> = Vec::new();
        proof {
            assert(scores_view(empty@) =~= Seq::<(Seq<char>, u32)>::empty());
        }
        return Option::Some((empty, i));
    }
    if fuel == 0 {
        proof {
            if i < v@.len() {
                assert(s[0] == v@[i as int]);
            }
        }
        return Option::None;
    }
    let (key, after_key) = match parse_qstring(v, i) {
        Option::Some(p) => p,
        Option::None => {
            proof {
                if i < v@.len() {
                    assert(s[0] == v@[i as int]);
                }
            }
            return Option::None;
        },
    };
    proof {
        if i < v@.len() {
            assert(s[0] == v@[i as int]);
        }
    }
    let ghost rspec = v@.skip(after_key as int);
    if after_key >= v.len() || v[after_key] != ':' {
        proof {
            if after_key < v@.len() {
                assert(rspec[0] == v@[after_key as int]);
            }
        }
        return Option::None;
    }
    proof {
        assert(rspec[0] == v@[after_key as int]);
        assert(rspec.skip(1) =~= v@.skip(after_key + 1 as int));
    }
    let (value, after_n) = match parse_number(v, after_key + 1) {
        Option::Some(p) => p,
        Option::None => {
            return Option::None;
        },
    };
    let count = match value {
        Option::Some(u) => u,
        Option::None => {
            return Option::None;
        },
    };
    let ghost r2 = v@.skip(after_n as int);
    if after_n < v.len() && v[after_n] == ',' {
        proof {
            assert(r2[0] == v@[after_n as int]);
            assert(r2.skip(1) =~= v@.skip(after_n + 1 as int));
        }
        match parse_scores_entries(v, after_n + 1, fuel - 1) {
            Option::Some(p) => {
                let (mut entries, j) = p;
                let ghost pre = entries@;
                entries.insert(0, (key, count));
                proof {
                    assert(scores_view(entries@) =~~= seq![(key@, count)] + scores_view(pre));
                }
                Option::Some((entries, j))
            },
            Option::None => Option::None,
        }
    } else if after_n < v.len() && v[after_n] == '}' {
        proof {
            assert(r2[0] == v@[after_n as int]);
        }
        let mut entries: Vec<(String, u32)> = Vec::new();
        entries.push((key, count));
        proof {
            assert(scores_view(entries@) =~~= seq![(key@, count)]);
        }
        Option::Some((entries, after_n))
    } else {
        proof {
            if after_n < v@.len() {
                assert(r2[0] == v@[after_n as int]);
            }
        }
        Option::None
    }
}

/// Whether an association list repeats a key.
fn has_dup_keys_hits(m: &Vec<(String, Vec<String>)>) -> (r: bool)
    ensures
        r == !assoc_unique(hints_view(m@)),
{
    let ghost hv = hints_view(m@);
    proof {
        assert(hv.len() == m@.len());
    }
    let mut a: usize = 0;
    while a < m.len()
        invariant
            a <= m@.len(),
            hv == hints_view(m@),
            hv.len() == m@.len(),
            forall|x: int, y: int| 0 <= x < y < hv.len() && x < a ==> hv[x].0 != hv[y].0,
        decreases m@.len() - a,
    {
        let mut b: usize = a + 1;
        while b < m.len()
            invariant
                a < b <= m@.len() || b == a + 1,
                a < m@.len(),
                hv == hints_view(m@),
                hv.len() == m@.len(),
                forall|y: int| a < y < b ==> hv[a as int].0 != hv[y].0,
            decreases m@.len() - b,
        {
            if crate::text::str_eq(m[a].0.as_str(), m[b].0.as_str()) {
                proof {
                    assert(hv[a as int].0 == m@[a as int].0@);
                    assert(hv[b as int].0 == m@[b as int].0@);
                }
                return true;
            }
            proof {
                assert(hv[a as int].0 == m@[a as int].0@);
                assert(hv[b as int].0 == m@[b as int].0@);
            }
            b += 1;
        }
        a += 1;
    }
    false
}

fn has_dup_keys_scores(m: &Vec<(String, u32)>) -> (r: bool)
    ensures
        r == !assoc_unique(scores_view(m@)),
{
    let ghost sv = scores_view(m@);
    proof {
        assert(sv.len() == m@.len());
    }
    let mut a: usize = 0;
    while a < m.len()
        invariant
            a <= m@.len(),
            sv == scores_view(m@),
            sv.len() == m@.len(),
            forall|x: int, y: int| 0 <= x < y < sv.len() && x < a ==> sv[x].0 != sv[y].0,
        decreases m@.len() - a,
    {
        let mut b: usize = a + 1;
        while b < m.len()
            invariant
                a < b <= m@.len() || b == a + 1,
                a < m@.len(),
                sv == scores_view(m@),
                sv.len() == m@.len(),
                forall|y: int| a < y < b ==> sv[a as int].0 != sv[y].0,
            decreases m@.len() - b,
        {
            if crate::text::str_eq(m[a].0.as_str(), m[b].0.as_str()) {
                proof {
                    assert(sv[a as int].0 == m@[a as int].0@);
                    assert(sv[b as int].0 == m@[b as int].0@);
                }
                return true;
            }
            proof {
                assert(sv[a as int].0 == m@[a as int].0@);
                assert(sv[b as int].0 == m@[b as int].0@);
            }
            b += 1;
        }
        a += 1;
    }
    false
}

/// Reads a store back from its on-disk JSON form, following the reference
/// decoder exactly: anything else — stray whitespace, repeated keys,
/// trailing bytes — yields `None`, and the caller starts from an empty
/// store.
pub fn decode_state(text: &str) -> (r: Option<PersistentState>)
    ensures
        r matches Option::Some(st) ==> {
            &&& decode_full_spec(text@) matches Option::Some(d) && hints_view(st.symbol_hits@)
                == d.0 && scores_view(st.directory_scores@) == d.1
            &&& st.wf()
            &&& !st.dirty
        },
        r is None ==> decode_full_spec(text@) is None,
{
    let v = str_to_chars(text);
    let i0: usize = match eat_lit(&v, 0, "{\"symbol_hits\":{") {
        Option::Some(j) => j,
        Option::None => {
            proof {
                assert(v@.skip(0) =~= v@);
            }
            return Option::None;
        },
    };
    proof {
        assert(v@.skip(0) =~= v@);
        assert(v@.take("{\"symbol_hits\":{"@.len() as int) =~= v@.skip(0).take(
            "{\"symbol_hits\":{"@.len() as int,
        ));
    }
    let fuel1 = v.len() - i0;
    let (symbol_hits, i1) = match parse_hits_entries(&v, i0, fuel1) {
        Option::Some(p) => p,
        Option::None => {
            proof {
                assert(v@.skip(i0 as int).len() as nat == fuel1 as nat);
            }
            return Option::None;
        },
    };
    proof {
        assert(v@.skip(i0 as int).len() as nat == fuel1 as nat);
    }
    let i2: usize = match eat_lit(&v, i1, "},\"directory_scores\":{") {
        Option::Some(j) => j,
        Option::None => {
            return Option::None;
        },
    };
    proof {
        assert(v@.skip(i1 as int).skip("},\"directory_scores\":{"@.len() as int) =~= v@.skip(
            i2 as int,
        ));
    }
    let fuel2 = v.len() - i2;
    let (directory_scores, i3) = match parse_scores_entries(&v, i2, fuel2) {
        Option::Some(p) => p,
        Option::None => {
            proof {
                assert(v@.skip(i2 as int).len() as nat == fuel2 as nat);
            }
            return Option::None;
        },
    };
    proof {
        assert(v@.skip(i2 as int).len() as nat == fuel2 as nat);
    }
    let i4: usize = match eat_lit(&v, i3, "}}") {
        Option::Some(j) => j,
        Option::None => {
            proof {
                assert(v@.skip(i3 as int) != "}}"@) by {
                    if v@.skip(i3 as int) == "}}"@ {
                        assert(v@.skip(i3 as int).take("}}"@.len() as int) =~= "}}"@);
                    }
                }
            }
            return Option::None;
        },
    };
    if i4 != v.len() {
        proof {
            assert(v@.skip(i3 as int).len() == v@.len() - i3);
            assert(v@.skip(i3 as int) != "}}"@) by {
                assert(v@.skip(i3 as int).len() > "}}"@.len());
            }
        }
        return Option::None;
    }
    proof {
        assert(v@.skip(i3 as int) =~= "}}"@) by {
            assert(v@.skip(i3 as int).take("}}"@.len() as int) =~= v@.skip(i3 as int));
        }
    }
    if has_dup_keys_hits(&symbol_hits) {
        return Option::None;
    }
    if has_dup_keys_scores(&directory_scores) {
        return Option::None;
    }
    Option::Some(PersistentState { symbol_hits, directory_scores, dirty: false })
}

} // verus!
