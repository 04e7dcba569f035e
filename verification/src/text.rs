//! Character-level text utilities shared by the whole crate.
//!
//! All string logic in this crate is reasoned about over `Seq<char>` views;
//! these helpers convert between `String`/`&str` and `Vec<char>` and provide
//! the small character predicates the engine needs.

use vstd::prelude::*;
use vstd::string::*;

verus! {

/// The whitespace characters this crate recognizes (the ASCII ones).
pub open spec fn is_ws_char(c: char) -> bool {
    c == ' ' || c == '\t' || c == '\n' || c == '\r' || c == '\u{b}' || c == '\u{c}'
}

/// ASCII uppercase letter.
pub open spec fn is_upper_char(c: char) -> bool {
    'A' as u32 <= c as u32 && c as u32 <= 'Z' as u32
}

/// ASCII lowercase letter.
pub open spec fn is_lower_char(c: char) -> bool {
    'a' as u32 <= c as u32 && c as u32 <= 'z' as u32
}

/// ASCII digit.
pub open spec fn is_digit_char(c: char) -> bool {
    '0' as u32 <= c as u32 && c as u32 <= '9' as u32
}

/// Character allowed in a plain identifier: ASCII alphanumeric or underscore.
pub open spec fn is_ident_char(c: char) -> bool {
    is_upper_char(c) || is_lower_char(c) || is_digit_char(c) || c == '_'
}

/// ASCII uppercasing of a single character.
pub open spec fn to_upper_char(c: char) -> char {
    if is_lower_char(c) {
        ((c as u32 - 32) as u8) as char
    } else {
        c
    }
}

/// ASCII lowercasing of a single character.
pub open spec fn to_lower_char(c: char) -> char {
    if is_upper_char(c) {
        ((c as u32 + 32) as u8) as char
    } else {
        c
    }
}

pub fn is_ws(c: char) -> (r: bool)
    ensures
        r == is_ws_char(c),
{
    c == ' ' || c == '\t' || c == '\n' || c == '\r' || c == '\u{b}' || c == '\u{c}'
}

pub fn is_upper(c: char) -> (r: bool)
    ensures
        r == is_upper_char(c),
{
    let u = c as u32;
    'A' as u32 <= u && u <= 'Z' as u32
}

pub fn is_lower(c: char) -> (r: bool)
    ensures
        r == is_lower_char(c),
{
    let u = c as u32;
    'a' as u32 <= u && u <= 'z' as u32
}

pub fn is_digit(c: char) -> (r: bool)
    ensures
        r == is_digit_char(c),
{
    let u = c as u32;
    '0' as u32 <= u && u <= '9' as u32
}

pub fn is_ident(c: char) -> (r: bool)
    ensures
        r == is_ident_char(c),
{
    is_upper(c) || is_lower(c) || is_digit(c) || c == '_'
}

pub fn to_upper(c: char) -> (r: char)
    ensures
        r == to_upper_char(c),
{
    if is_lower(c) {
        ((c as u32 - 32) as u8) as char
    } else {
        c
    }
}

pub fn to_lower(c: char) -> (r: char)
    ensures
        r == to_lower_char(c),
{
    if is_upper(c) {
        ((c as u32 + 32) as u8) as char
    } else {
        c
    }
}

/// Relies on `String::push`: appends exactly the given character.
#[verifier::external_body]
pub fn push_char(s: &mut String, c: char)
    ensures
        final(s)@ == old(s)@.push(c),
{
    s.push(c)
}

/// True when the two string slices hold the same characters.
pub fn str_eq(a: &str, b: &str) -> (r: bool)
    ensures
        r == (a@ == b@),
{
    let alen = a.unicode_len();
    let blen = b.unicode_len();
    if alen != blen {
        return false;
    }
    let mut i: usize = 0;
    while i < alen
        invariant
            alen == a@.len(),
            blen == b@.len(),
            alen == blen,
            i <= alen,
            forall|j: int| 0 <= j < i ==> a@[j] == b@[j],
        decreases alen - i,
    {
        if a.get_char(i) != b.get_char(i) {
            return false;
        }
        i += 1;
    }
    proof {
        assert(a@ =~= b@);
    }
    true
}

/// Copies the characters of a string slice into a vector.
pub fn str_to_chars(s: &str) -> (r: Vec<char>)
    ensures
        r@ == s@,
{
    let n = s.unicode_len();
    let mut r: Vec<char> = Vec::new();
    let mut i: usize = 0;
    while i < n
        invariant
            n == s@.len(),
            i <= n,
            r@ == s@.take(i as int),
        decreases n - i,
    {
        r.push(s.get_char(i));
        proof {
            assert(s@.take(i + 1 as int) =~= s@.take(i as int).push(s@[i as int]));
        }
        i += 1;
    }
    proof {
        assert(s@.take(n as int) =~= s@);
    }
    r
}

/// Builds a `String` holding exactly the given characters.
pub fn chars_to_string(v: &Vec<char>) -> (r: String)
    ensures
        r@ == v@,
{
    let mut r = String::new();
    let mut i: usize = 0;
    while i < v.len()
        invariant
            i <= v.len(),
            r@ == v@.take(i as int),
        decreases v.len() - i,
    {
        push_char(&mut r, v[i]);
        proof {
            assert(v@.take(i + 1 as int) =~= v@.take(i as int).push(v@[i as int]));
        }
        i += 1;
    }
    proof {
        assert(v@.take(v.len() as int) =~= v@);
    }
    r
}

/// What is left after dropping leading whitespace.
pub open spec fn trim_start_spec(s: Seq<char>) -> Seq<char>
    decreases s.len(),
{
    if s.len() > 0 && is_ws_char(s[0]) {
        trim_start_spec(s.drop_first())
    } else {
        s
    }
}

/// What is left after dropping trailing whitespace.
pub open spec fn trim_end_spec(s: Seq<char>) -> Seq<char>
    decreases s.len(),
{
    if s.len() > 0 && is_ws_char(s.last()) {
        trim_end_spec(s.drop_last())
    } else {
        s
    }
}

/// What is left after dropping whitespace at both ends.
pub open spec fn trim_spec(s: Seq<char>) -> Seq<char> {
    trim_end_spec(trim_start_spec(s))
}

proof fn lemma_trim_start_skip(s: Seq<char>, k: int)
    requires
        0 <= k <= s.len(),
        forall|j: int| 0 <= j < k ==> is_ws_char(s[j]),
        k == s.len() || !is_ws_char(s[k]),
    ensures
        trim_start_spec(s) == s.skip(k),
    decreases k,
{
    if k == 0 {
        assert(s.skip(0) =~= s);
    } else {
        let t = s.drop_first();
        assert(forall|j: int| 0 <= j < k - 1 ==> is_ws_char(t[j]));
        lemma_trim_start_skip(t, k - 1);
        assert(t.skip(k - 1) =~= s.skip(k));
    }
}

proof fn lemma_trim_end_take(s: Seq<char>, k: int)
    requires
        0 <= k <= s.len(),
        forall|j: int| k <= j < s.len() ==> is_ws_char(s[j]),
        k == 0 || !is_ws_char(s[k - 1]),
    ensures
        trim_end_spec(s) == s.take(k),
    decreases s.len() - k,
{
    if k == s.len() {
        assert(s.take(k) =~= s);
    } else {
        let t = s.drop_last();
        lemma_trim_end_take(t, k);
        assert(t.take(k) =~= s.take(k));
    }
}

/// Drops whitespace at both ends of the character vector.
pub fn trim_chars(v: &Vec<char>) -> (r: Vec<char>)
    ensures
        r@ == trim_spec(v@),
{
    let n = v.len();
    let mut a: usize = 0;
    while a < n && is_ws(v[a])
        invariant
            n == v@.len(),
            a <= n,
            forall|j: int| 0 <= j < a ==> is_ws_char(v@[j]),
        decreases n - a,
    {
        a += 1;
    }
    proof {
        lemma_trim_start_skip(v@, a as int);
    }
    let mut b: usize = n;
    while b > a && is_ws(v[b - 1])
        invariant
            n == v@.len(),
            a <= b <= n,
            forall|j: int| b <= j < n ==> is_ws_char(v@[j]),
        decreases b,
    {
        b -= 1;
    }
    let ghost t = trim_start_spec(v@);
    proof {
        assert(t =~= v@.skip(a as int));
        assert(forall|j: int| b - a <= j < t.len() ==> is_ws_char(t[j]));
        if b > a {
            assert(t[b - a - 1] == v@[b as int - 1]);
        }
        lemma_trim_end_take(t, b - a);
    }
    let mut r: Vec<char> = Vec::new();
    let mut i: usize = a;
    while i < b
        invariant
            a <= i <= b <= n,
            n == v@.len(),
            r@ =~= v@.subrange(a as int, i as int),
        decreases b - i,
    {
        r.push(v[i]);
        i += 1;
    }
    proof {
        assert(v@.subrange(a as int, b as int) =~= t.take(b - a));
    }
    r
}

/// Copies the characters with indices in `[a, b)`.
pub fn subvec_chars(v: &Vec<char>, a: usize, b: usize) -> (r: Vec<char>)
    requires
        a <= b <= v@.len(),
    ensures
        r@ == v@.subrange(a as int, b as int),
{
    let mut r: Vec<char> = Vec::new();
    let mut i: usize = a;
    while i < b
        invariant
            a <= i <= b <= v@.len(),
            r@ =~= v@.subrange(a as int, i as int),
        decreases b - i,
    {
        r.push(v[i]);
        i += 1;
    }
    r
}

/// `p` is a prefix of `s`.
pub open spec fn is_prefix_of(p: Seq<char>, s: Seq<char>) -> bool {
    p.len() <= s.len() && s.take(p.len() as int) == p
}

/// True when the characters of `lit` are a prefix of `v`.
pub fn chars_start_with(v: &Vec<char>, lit: &str) -> (r: bool)
    ensures
        r == is_prefix_of(lit@, v@),
{
    let n = lit.unicode_len();
    if n > v.len() {
        assert(!is_prefix_of(lit@, v@));
        return false;
    }
    let mut i: usize = 0;
    while i < n
        invariant
            n == lit@.len(),
            n <= v@.len(),
            i <= n,
            forall|j: int| 0 <= j < i ==> v@[j] == lit@[j],
        decreases n - i,
    {
        if v[i] != lit.get_char(i) {
            assert(v@.take(n as int)[i as int] != lit@[i as int]);
            return false;
        }
        i += 1;
    }
    proof {
        assert(v@.take(n as int) =~= lit@);
    }
    true
}

/// True when some character of `v` equals `c`.
pub fn chars_contain(v: &Vec<char>, c: char) -> (r: bool)
    ensures
        r == v@.contains(c),
{
    let mut i: usize = 0;
    while i < v.len()
        invariant
            i <= v@.len(),
            forall|j: int| 0 <= j < i ==> v@[j] != c,
        decreases v@.len() - i,
    {
        if v[i] == c {
            return true;
        }
        i += 1;
    }
    false
}

/// One pass of whitespace collapsing: every run of whitespace becomes a
/// single space. `last_sp` records whether a space was just emitted.
pub open spec fn collapse_rec(s: Seq<char>, last_sp: bool) -> Seq<char>
    decreases s.len(),
{
    if s.len() == 0 {
        Seq::<char>::empty()
    } else if is_ws_char(s[0]) {
        if last_sp {
            collapse_rec(s.drop_first(), true)
        } else {
            seq![' '] + collapse_rec(s.drop_first(), true)
        }
    } else {
        seq![s[0]] + collapse_rec(s.drop_first(), false)
    }
}

/// Whitespace runs collapsed to single spaces, then trimmed at both ends.
pub open spec fn collapse_spec(s: Seq<char>) -> Seq<char> {
    trim_spec(collapse_rec(s, false))
}

/// Collapses internal whitespace runs to single spaces and trims the ends.
pub fn collapse_whitespace(input: &str) -> (r: String)
    ensures
        r@ == collapse_spec(input@),
{
    let v = str_to_chars(input);
    let c = collapse_chars(&v);
    let t = trim_chars(&c);
    chars_to_string(&t)
}

/// The collapsing pass over a character vector.
pub fn collapse_chars(v: &Vec<char>) -> (r: Vec<char>)
    ensures
        r@ == collapse_rec(v@, false),
{
    let mut out: Vec<char> = Vec::new();
    let mut last_sp = false;
    let mut i: usize = 0;
    proof {
        assert(v@.skip(0) =~= v@);
        assert(out@ + collapse_rec(v@, false) =~= collapse_rec(v@, false));
    }
    while i < v.len()
        invariant
            i <= v@.len(),
            out@ + collapse_rec(v@.skip(i as int), last_sp) == collapse_rec(v@, false),
        decreases v@.len() - i,
    {
        let c = v[i];
        proof {
            let u = v@.skip(i as int);
            assert(u[0] == v@[i as int]);
            assert(u.drop_first() =~= v@.skip(i + 1 as int));
        }
        let ghost out0 = out@;
        let ghost sp0 = last_sp;
        if is_ws(c) {
            if !last_sp {
                out.push(' ');
                last_sp = true;
            }
        } else {
            out.push(c);
            last_sp = false;
        }
        proof {
            assert(out@ + collapse_rec(v@.skip(i + 1 as int), last_sp) =~= out0 + collapse_rec(
                v@.skip(i as int),
                sp0,
            ));
        }
        i += 1;
    }
    proof {
        assert(v@.skip(v@.len() as int) =~= Seq::<char>::empty());
        assert(out@ + Seq::<char>::empty() =~= out@);
    }
    out
}

/// `sub` occurs somewhere in `s`.
pub open spec fn contains_sub(s: Seq<char>, sub: Seq<char>) -> bool {
    exists|k: int|
        0 <= k && k + sub.len() <= s.len() && #[trigger] s.subrange(k, k + sub.len()) == sub
}

/// True when the characters of `lit` occur contiguously in `v`.
pub fn chars_contain_sub(v: &Vec<char>, lit: &str) -> (r: bool)
    ensures
        r == contains_sub(v@, lit@),
{
    let n = lit.unicode_len();
    if n > v.len() {
        proof {
            assert(!contains_sub(v@, lit@)) by {
                if contains_sub(v@, lit@) {
                    let k = choose|k: int|
                        0 <= k && k + lit@.len() <= v@.len() && #[trigger] v@.subrange(
                            k,
                            k + lit@.len(),
                        ) == lit@;
                }
            }
        }
        return false;
    }
    let vn = v.len();
    let mut k: usize = 0;
    while k <= vn - n
        invariant
            n == lit@.len(),
            n <= vn,
            vn == v@.len(),
            k <= vn - n + 1,
            forall|j: int| 0 <= j < k ==> #[trigger] v@.subrange(j, j + lit@.len()) != lit@,
        decreases vn - k,
    {
        let mut m: usize = 0;
        let mut ok = true;
        while m < n
            invariant
                m <= n,
                n == lit@.len(),
                vn == v@.len(),
                k + n <= vn,
                ok == (v@.subrange(k as int, k + m as int) =~= lit@.take(m as int)),
            decreases n - m,
        {
            proof {
                assert(v@.subrange(k as int, k + m + 1 as int) =~= v@.subrange(
                    k as int,
                    k + m as int,
                ).push(v@[k + m]));
                assert(lit@.take(m + 1 as int) =~= lit@.take(m as int).push(lit@[m as int]));
                if v@[k + m] != lit@[m as int] {
                    assert(v@.subrange(k as int, k + m + 1 as int)[m as int] == v@[k + m]);
                    assert(lit@.take(m + 1 as int)[m as int] == lit@[m as int]);
                }
            }
            if v[k + m] != lit.get_char(m) {
                ok = false;
            }
            m += 1;
        }
        if ok {
            proof {
                assert(lit@.take(n as int) =~= lit@);
                assert(v@.subrange(k as int, k + n as int) == lit@);
            }
            return true;
        }
        proof {
            assert(lit@.take(n as int) =~= lit@);
        }
        k += 1;
    }
    proof {
        assert(!contains_sub(v@, lit@)) by {
            if contains_sub(v@, lit@) {
                let j = choose|j: int|
                    0 <= j && j + lit@.len() <= v@.len() && #[trigger] v@.subrange(
                        j,
                        j + lit@.len(),
                    ) == lit@;
                assert(j < k);
            }
        }
    }
    false
}

/// The decimal digit character for a value below ten.
pub open spec fn digit_char(d: int) -> char {
    ((d + 48) as u8) as char
}

/// Decimal representation of a number, most significant digit first.
pub open spec fn dec_chars(n: nat) -> Seq<char>
    decreases n,
{
    if n < 10 {
        seq![digit_char(n as int)]
    } else {
        dec_chars(n / 10) + seq![digit_char((n % 10) as int)]
    }
}

/// Renders a number in decimal.
pub fn usize_to_chars(n: usize) -> (r: Vec<char>)
    ensures
        r@ == dec_chars(n as nat),
    decreases n,
{
    if n < 10 {
        let c: char = ((n as u8) + 48) as char;
        let mut r: Vec<char> = Vec::new();
        r.push(c);
        proof {
            assert(r@ =~= dec_chars(n as nat));
        }
        r
    } else {
        let mut r = usize_to_chars(n / 10);
        let c: char = (((n % 10) as u8) + 48) as char;
        r.push(c);
        proof {
            assert(r@ =~= dec_chars(n as nat));
        }
        r
    }
}

} // verus!
