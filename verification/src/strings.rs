//! Verified string utilities: lexicographic comparison by code point,
//! substring search, decimal integer parsing, and hexadecimal dumps.

use vstd::prelude::*;
use vstd::string::*;

verus! {

/// Lexicographic "less or equal" on character sequences, by code point.
/// This matches the order of the corresponding UTF-8 byte sequences.
pub open spec fn lex_le(a: Seq<char>, b: Seq<char>) -> bool
    decreases a.len(),
{
    if a.len() == 0 {
        true
    } else if b.len() == 0 {
        false
    } else if (a[0] as u32) < (b[0] as u32) {
        true
    } else if (b[0] as u32) < (a[0] as u32) {
        false
    } else {
        lex_le(a.drop_first(), b.drop_first())
    }
}

pub open spec fn lex_lt(a: Seq<char>, b: Seq<char>) -> bool {
    lex_le(a, b) && a != b
}

pub proof fn lemma_lex_le_total(a: Seq<char>, b: Seq<char>)
    ensures
        lex_le(a, b) || lex_le(b, a),
    decreases a.len(),
{
    if a.len() == 0 {
        assert(lex_le(a, b));
    } else if b.len() == 0 {
        assert(lex_le(b, a));
    } else if (a[0] as u32) < (b[0] as u32) {
        assert(lex_le(a, b));
    } else if (b[0] as u32) < (a[0] as u32) {
        assert(lex_le(b, a));
    } else {
        lemma_lex_le_total(a.drop_first(), b.drop_first());
        assert(lex_le(a, b) == lex_le(a.drop_first(), b.drop_first()));
        assert(lex_le(b, a) == lex_le(b.drop_first(), a.drop_first()));
    }
}

proof fn lemma_char_eq_from_u32(x: char, y: char)
    requires
        x as u32 == y as u32,
    ensures
        x == y,
{
}

pub proof fn lemma_lex_le_antisymmetric(a: Seq<char>, b: Seq<char>)
    requires
        lex_le(a, b),
        lex_le(b, a),
    ensures
        a == b,
    decreases a.len(),
{
    if a.len() == 0 {
        assert(b.len() == 0);
        assert(a =~= b);
    } else {
        assert(b.len() != 0);
        assert(!((a[0] as u32) < (b[0] as u32)));
        assert(!((b[0] as u32) < (a[0] as u32)));
        assert(a[0] as u32 == b[0] as u32);
        lemma_char_eq_from_u32(a[0], b[0]);
        assert(a[0] == b[0]);
        lemma_lex_le_antisymmetric(a.drop_first(), b.drop_first());
        assert(a =~= seq![a[0]] + a.drop_first());
        assert(b =~= seq![b[0]] + b.drop_first());
    }
}
/// Compares two strings in the lexicographic code-point order.
pub fn str_le(a: &str, b: &str) -> (r: bool)
    ensures
        r == lex_le(a@, b@),
{
    let la: usize = a.unicode_len();
    let lb: usize = b.unicode_len();
    let mut i: usize = 0;
    proof {
        assert(a@.skip(0) =~= a@);
        assert(b@.skip(0) =~= b@);
    }
    loop
        invariant
            i <= la,
            i <= lb,
            la == a@.len(),
            lb == b@.len(),
            lex_le(a@, b@) == lex_le(a@.skip(i as int), b@.skip(i as int)),
        decreases la - i,
    {
        if i >= la {
            return true;
        }
        if i >= lb {
            return false;
        }
        let ca: u32 = a.get_char(i) as u32;
        let cb: u32 = b.get_char(i) as u32;
        proof {
            assert(a@.skip(i as int)[0] == a@[i as int]);
            assert(b@.skip(i as int)[0] == b@[i as int]);
        }
        if ca < cb {
            return true;
        }
        if cb < ca {
            return false;
        }
        proof {
            assert(a@.skip(i as int).drop_first() =~= a@.skip(i as int + 1));
            assert(b@.skip(i as int).drop_first() =~= b@.skip(i as int + 1));
        }
        i = i + 1;
    }
}

/// Equality of string contents, stated over the views.
pub fn str_eq(a: &str, b: &str) -> (r: bool)
    ensures
        r == (a@ == b@),
{
    let la: usize = a.unicode_len();
    let lb: usize = b.unicode_len();
    if la != lb {
        return false;
    }
    let mut i: usize = 0;
    while i < la
        invariant
            i <= la,
            la == a@.len(),
            la == b@.len(),
            forall|k: int| 0 <= k < i ==> a@[k] == b@[k],
        decreases la - i,
    {
        if a.get_char(i) != b.get_char(i) {
            return false;
        }
        i = i + 1;
    }
    proof {
        assert(a@ =~= b@);
    }
    true
}

/// The needle occurs in the haystack starting at character position `i`.
pub open spec fn contains_at(hay: Seq<char>, needle: Seq<char>, i: int) -> bool {
    0 <= i && i + needle.len() <= hay.len() && hay.subrange(i, i + needle.len()) == needle
}

/// The needle occurs somewhere in the haystack (case-sensitive).
pub open spec fn seq_contains(hay: Seq<char>, needle: Seq<char>) -> bool {
    exists|i: int| contains_at(hay, needle, i)
}

/// Case-sensitive substring search by characters.
pub fn str_contains(hay: &str, needle: &str) -> (r: bool)
    ensures
        r == seq_contains(hay@, needle@),
{
    let lh: usize = hay.unicode_len();
    let ln: usize = needle.unicode_len();
    if ln > lh {
        return false;
    }
    if ln == 0 {
        proof {
            assert(hay@.subrange(0, 0) =~= needle@);
            assert(contains_at(hay@, needle@, 0));
        }
        return true;
    }
    let mut i: usize = 0;
    while i <= lh - ln
        invariant
            0 < ln <= lh,
            lh == hay@.len(),
            ln == needle@.len(),
            i <= lh - ln + 1,
            forall|k: int| 0 <= k < i ==> !contains_at(hay@, needle@, k),
        decreases lh - ln + 1 - i,
    {
        let mut j: usize = 0;
        let mut mismatch: bool = false;
        while j < ln
            invariant
                !mismatch ==> forall|k: int| 0 <= k < j ==> hay@[i + k] == needle@[k],
                mismatch ==> !contains_at(hay@, needle@, i as int),
                j <= ln,
                i + ln <= lh,
                lh == hay@.len(),
                ln == needle@.len(),
            decreases ln - j,
        {
            if mismatch {
                j = ln;
            } else {
                if hay.get_char(i + j) != needle.get_char(j) {
                    proof {
                        let sub = hay@.subrange(i as int, i as int + needle@.len() as int);
                        assert(sub[j as int] == hay@[i + j]);
                        assert(sub != needle@);
                    }
                    mismatch = true;
                }
                j = j + 1;
            }
        }
        if !mismatch {
            proof {
                assert(hay@.subrange(i as int, i as int + needle@.len() as int) =~= needle@);
                assert(contains_at(hay@, needle@, i as int));
            }
            return true;
        }
        i = i + 1;
    }
    proof {
        assert forall|k: int| #[trigger] contains_at(hay@, needle@, k) implies false by {
            assert(0 <= k && k + ln <= lh);
            assert(k < i);
        }
    }
    false
}

pub open spec fn is_digit(c: char) -> bool {
    48 <= c as u32 <= 57
}

pub open spec fn digit_val(c: char) -> int {
    c as u32 - 48
}

pub open spec fn all_digits(s: Seq<char>) -> bool {
    forall|i: int| 0 <= i < s.len() ==> is_digit(#[trigger] s[i])
}

/// Value of a digit string, most significant digit first.
pub open spec fn digits_val(s: Seq<char>) -> int
    decreases s.len(),
{
    if s.len() == 0 {
        0
    } else {
        digits_val(s.drop_last()) * 10 + digit_val(s.last())
    }
}

pub proof fn lemma_digits_val_nonneg(s: Seq<char>)
    requires
        all_digits(s),
    ensures
        digits_val(s) >= 0,
    decreases s.len(),
{
    if s.len() > 0 {
        assert(all_digits(s.drop_last()));
        lemma_digits_val_nonneg(s.drop_last());
    }
}

/// Extending an all-digit string never shrinks its value.
pub proof fn lemma_digits_val_prefix(s: Seq<char>, k: int)
    requires
        all_digits(s),
        0 <= k <= s.len(),
    ensures
        digits_val(s.subrange(0, k)) <= digits_val(s),
    decreases s.len() - k,
{
    if k == s.len() {
        assert(s.subrange(0, k) =~= s);
    } else {
        let p = s.subrange(0, k + 1);
        assert(all_digits(p));
        assert(p.drop_last() =~= s.subrange(0, k));
        lemma_digits_val_nonneg(s.subrange(0, k));
        assert(digits_val(s.subrange(0, k)) <= digits_val(p));
        lemma_digits_val_prefix(s, k + 1);
    }
}

/// A decimal unsigned parse: at least one digit, nothing else, and the
/// value fits in a u64; anything else is rejected.
pub open spec fn spec_parse_u64(s: Seq<char>) -> Option<u64> {
    if s.len() > 0 && all_digits(s) && digits_val(s) <= u64::MAX {
        Some(digits_val(s) as u64)
    } else {
        None
    }
}

/// Parses the digits of `s` from character position `start` to the end.
fn parse_digits_u64(s: &str, start: usize) -> (r: Option<u64>)
    requires
        start <= s@.len(),
    ensures
        r == spec_parse_u64(s@.skip(start as int)),
{
    let n: usize = s.unicode_len();
    let ghost tail = s@.skip(start as int);
    if start == n {
        return None;
    }
    let mut acc: u64 = 0;
    let mut i: usize = start;
    while i < n
        invariant
            start <= i <= n,
            n == s@.len(),
            start < n,
            tail == s@.skip(start as int),
            all_digits(tail.subrange(0, i - start)),
            acc == digits_val(tail.subrange(0, i - start)),
        decreases n - i,
    {
        let c: u32 = s.get_char(i) as u32;
        proof {
            assert(tail[i - start] == s@[i as int]);
        }
        if c < 48 || c > 57 {
            assert(!is_digit(tail[i - start]));
            return None;
        }
        let d: u64 = (c - 48) as u64;
        let ghost p = tail.subrange(0, i - start + 1);
        proof {
            assert(p.drop_last() =~= tail.subrange(0, i - start));
            assert(p.last() == tail[i - start]);
        }
        let step = match acc.checked_mul(10) {
            Some(x) => x.checked_add(d),
            None => None,
        };
        match step {
            Some(y) => {
                acc = y;
            },
            None => {
                proof {
                    if all_digits(tail) {
                        lemma_digits_val_prefix(tail, i - start + 1);
                        assert(digits_val(p) > u64::MAX);
                        assert(digits_val(tail) > u64::MAX);
                    }
                }
                return None;
            },
        }
        i = i + 1;
    }
    proof {
        assert(tail.subrange(0, n - start) =~= tail);
    }
    Some(acc)
}

/// Parses a whole string as an unsigned decimal number.
pub fn parse_u64(s: &str) -> (r: Option<u64>)
    ensures
        r == spec_parse_u64(s@),
{
    proof {
        assert(s@.skip(0) =~= s@);
    }
    parse_digits_u64(s, 0)
}

pub proof fn lemma_parse_u64_val(s: Seq<char>, v: u64)
    requires
        spec_parse_u64(s) == Some(v),
    ensures
        s.len() > 0,
        all_digits(s),
        digits_val(s) == v as int,
{
    lemma_digits_val_nonneg(s);
}

/// A decimal signed parse: an optional leading minus sign, then digits,
/// with the value required to fit in an i64.
pub open spec fn spec_parse_i64(s: Seq<char>) -> Option<i64> {
    if s.len() > 0 && s[0] == '-' {
        let d = s.drop_first();
        if d.len() > 0 && all_digits(d) && digits_val(d) <= 0x8000_0000_0000_0000 {
            Some((-digits_val(d)) as i64)
        } else {
            None
        }
    } else if s.len() > 0 && all_digits(s) && digits_val(s) <= i64::MAX {
        Some(digits_val(s) as i64)
    } else {
        None
    }
}

/// Parses a whole string as a signed decimal number.
pub fn parse_i64(s: &str) -> (r: Option<i64>)
    ensures
        r == spec_parse_i64(s@),
{
    let n: usize = s.unicode_len();
    if n == 0 {
        return None;
    }
    if s.get_char(0) == '-' {
        let m = parse_digits_u64(s, 1);
        let ghost d = s@.drop_first();
        proof {
            assert(d =~= s@.skip(1));
        }
        match m {
            Some(v) => {
                proof {
                    lemma_parse_u64_val(d, v);
                }
                if v < 0x8000_0000_0000_0000u64 {
                    Some(-(v as i64))
                } else if v == 0x8000_0000_0000_0000u64 {
                    Some(i64::MIN)
                } else {
                    proof {
                        assert(digits_val(d) > 0x8000_0000_0000_0000);
                    }
                    None
                }
            },
            None => None,
        }
    } else {
        let m = parse_digits_u64(s, 0);
        proof {
            assert(s@.skip(0) =~= s@);
        }
        match m {
            Some(v) => {
                proof {
                    lemma_parse_u64_val(s@, v);
                }
                if v <= 0x7fff_ffff_ffff_ffffu64 {
                    Some(v as i64)
                } else {
                    None
                }
            },
            None => None,
        }
    }
}

/// Cell comparison for the sort pipeline: when both sides parse as
/// (decimal integer) numbers they compare numerically, otherwise
/// lexicographically on the raw text.
pub open spec fn cell_le(a: Seq<char>, b: Seq<char>) -> bool {
    match (spec_parse_i64(a), spec_parse_i64(b)) {
        (Some(x), Some(y)) => x <= y,
        _ => lex_le(a, b),
    }
}

pub proof fn lemma_cell_le_total(a: Seq<char>, b: Seq<char>)
    ensures
        cell_le(a, b) || cell_le(b, a),
{
    lemma_lex_le_total(a, b);
}

pub fn cell_le_exec(a: &str, b: &str) -> (r: bool)
    ensures
        r == cell_le(a@, b@),
{
    let na = parse_i64(a);
    let nb = parse_i64(b);
    match (na, nb) {
        (Some(x), Some(y)) => x <= y,
        _ => str_le(a, b),
    }
}

pub open spec fn hex_digit(n: int) -> char {
    if n == 0 { '0' }
    else if n == 1 { '1' }
    else if n == 2 { '2' }
    else if n == 3 { '3' }
    else if n == 4 { '4' }
    else if n == 5 { '5' }
    else if n == 6 { '6' }
    else if n == 7 { '7' }
    else if n == 8 { '8' }
    else if n == 9 { '9' }
    else if n == 10 { 'a' }
    else if n == 11 { 'b' }
    else if n == 12 { 'c' }
    else if n == 13 { 'd' }
    else if n == 14 { 'e' }
    else { 'f' }
}

/// Two lowercase hex characters for one byte, high nibble first.
pub open spec fn hex_byte(b: u8) -> Seq<char> {
    seq![hex_digit(b as int / 16), hex_digit(b as int % 16)]
}

/// Hex dump of a byte sequence: two digits per byte, bytes joined by a
/// single space.
pub open spec fn hex_dump(bytes: Seq<u8>) -> Seq<char>
    decreases bytes.len(),
{
    if bytes.len() == 0 {
        Seq::empty()
    } else if bytes.len() == 1 {
        hex_byte(bytes[0])
    } else {
        hex_dump(bytes.drop_last()) + seq![' '] + hex_byte(bytes.last())
    }
}

fn hex_digit_str(n: u8) -> (r: &'static str)
    requires
        n < 16,
    ensures
        r@ == seq![hex_digit(n as int)],
{
    proof {
        reveal_strlit("0");
        reveal_strlit("1");
        reveal_strlit("2");
        reveal_strlit("3");
        reveal_strlit("4");
        reveal_strlit("5");
        reveal_strlit("6");
        reveal_strlit("7");
        reveal_strlit("8");
        reveal_strlit("9");
        reveal_strlit("a");
        reveal_strlit("b");
        reveal_strlit("c");
        reveal_strlit("d");
        reveal_strlit("e");
        reveal_strlit("f");
    }
    let r: &'static str = if n == 0 { "0" }
    else if n == 1 { "1" }
    else if n == 2 { "2" }
    else if n == 3 { "3" }
    else if n == 4 { "4" }
    else if n == 5 { "5" }
    else if n == 6 { "6" }
    else if n == 7 { "7" }
    else if n == 8 { "8" }
    else if n == 9 { "9" }
    else if n == 10 { "a" }
    else if n == 11 { "b" }
    else if n == 12 { "c" }
    else if n == 13 { "d" }
    else if n == 14 { "e" }
    else { "f" };
    proof {
        assert(r@ =~= seq![hex_digit(n as int)]);
    }
    r
}

/// Renders raw bytes as space-separated lowercase hex pairs.
pub fn hex_string(bytes: &Vec<u8>) -> (r: String)
    ensures
        r@ == hex_dump(bytes@),
{
    let mut out = String::new();
    let mut i: usize = 0;
    while i < bytes.len()
        invariant
            i <= bytes@.len(),
            out@ == hex_dump(bytes@.subrange(0, i as int)),
        decreases bytes@.len() - i,
    {
        if i > 0 {
            out.append(" ");
            proof {
                reveal_strlit(" ");
                assert((" ")@ =~= seq![' ']);
            }
        }
        let b = bytes[i];
        out.append(hex_digit_str(b / 16));
        out.append(hex_digit_str(b % 16));
        proof {
            let p = bytes@.subrange(0, i as int + 1);
            assert(p.drop_last() =~= bytes@.subrange(0, i as int));
            assert(p.last() == bytes@[i as int]);
            assert(out@ =~= hex_dump(p));
        }
        i = i + 1;
    }
    proof {
        assert(bytes@.subrange(0, bytes@.len() as int) =~= bytes@);
    }
    out
}

} // verus!
