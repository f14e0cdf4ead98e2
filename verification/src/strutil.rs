//! Character-sequence utilities shared by the parsing and formatting code:
//! splitting a string at a separator character and reading an unsigned
//! decimal numeral.

use vstd::prelude::*;

verus! {

/// Index of the first occurrence of `sep` in `s`, or `-1` when `sep` does
/// not occur in `s`.
pub open spec fn find_char(s: Seq<char>, sep: char) -> int
    decreases s.len(),
{
    if s.len() == 0 {
        -1
    } else if s[0] == sep {
        0
    } else if find_char(s.drop_first(), sep) < 0 {
        -1
    } else {
        find_char(s.drop_first(), sep) + 1
    }
}

/// `find_char` returns either `-1` (and then `sep` does not occur) or the
/// position of the first occurrence of `sep`.
pub proof fn lemma_find_char(s: Seq<char>, sep: char)
    ensures
        find_char(s, sep) >= 0 ==> find_char(s, sep) < s.len() && s[find_char(s, sep)] == sep
            && (forall|j: int| 0 <= j < find_char(s, sep) ==> s[j] != sep),
        find_char(s, sep) < 0 ==> forall|j: int| 0 <= j < s.len() ==> s[j] != sep,
    decreases s.len(),
{
    if s.len() > 0 && s[0] != sep {
        let t = s.drop_first();
        lemma_find_char(t, sep);
        let ft = find_char(t, sep);
        if ft >= 0 {
            assert(s[ft + 1] == t[ft]);
            assert forall|j: int| 0 <= j < find_char(s, sep) implies s[j] != sep by {
                if j > 0 {
                    assert(s[j] == t[j - 1]);
                }
            }
        } else {
            assert forall|j: int| 0 <= j < s.len() implies s[j] != sep by {
                if j > 0 {
                    assert(s[j] == t[j - 1]);
                }
            }
        }
    }
}

/// If `sep` first occurs at position `k`, then `find_char` returns `k`.
pub proof fn lemma_find_char_at(s: Seq<char>, sep: char, k: int)
    requires
        0 <= k < s.len(),
        s[k] == sep,
        forall|j: int| 0 <= j < k ==> s[j] != sep,
    ensures
        find_char(s, sep) == k,
    decreases s.len(),
{
    if k > 0 {
        let t = s.drop_first();
        assert(forall|j: int| 0 <= j < t.len() ==> t[j] == s[j + 1]);
        lemma_find_char_at(t, sep, k - 1);
    }
}

/// If `sep` does not occur in `s`, then `find_char` returns `-1`.
pub proof fn lemma_find_char_none(s: Seq<char>, sep: char)
    requires
        forall|j: int| 0 <= j < s.len() ==> s[j] != sep,
    ensures
        find_char(s, sep) == -1,
    decreases s.len(),
{
    if s.len() > 0 {
        let t = s.drop_first();
        assert(forall|j: int| 0 <= j < t.len() ==> t[j] == s[j + 1]);
        lemma_find_char_none(t, sep);
    }
}

/// The pieces of `s` between occurrences of `sep`. Always returns at least
/// one piece; `n` separators yield `n + 1` pieces, and a piece between two
/// adjacent separators is empty.
pub open spec fn split_at_seps(s: Seq<char>, sep: char) -> Seq<Seq<char>>
    decreases s.len(),
{
    let i = find_char(s, sep);
    if 0 <= i < s.len() {
        seq![s.subrange(0, i)] + split_at_seps(s.subrange(i + 1, s.len() as int), sep)
    } else {
        seq![s]
    }
}

/// Unfolds `split_at_seps` at the first occurrence of `sep`.
pub proof fn lemma_split_step(s: Seq<char>, sep: char, k: int)
    requires
        0 <= k < s.len(),
        s[k] == sep,
        forall|j: int| 0 <= j < k ==> s[j] != sep,
    ensures
        split_at_seps(s, sep) == seq![s.subrange(0, k)] + split_at_seps(
            s.subrange(k + 1, s.len() as int),
            sep,
        ),
{
    lemma_find_char_at(s, sep, k);
}

/// A string without the separator splits into itself alone.
pub proof fn lemma_split_whole(s: Seq<char>, sep: char)
    requires
        forall|j: int| 0 <= j < s.len() ==> s[j] != sep,
    ensures
        split_at_seps(s, sep) == seq![s],
{
    lemma_find_char_none(s, sep);
}

/// The pieces produced by `split_at_seps` never contain the separator.
pub proof fn lemma_split_pieces_no_sep(s: Seq<char>, sep: char)
    ensures
        forall|k: int|
            0 <= k < split_at_seps(s, sep).len() ==> find_char(
                #[trigger] split_at_seps(s, sep)[k],
                sep,
            ) == -1,
    decreases s.len(),
{
    let i = find_char(s, sep);
    lemma_find_char(s, sep);
    if 0 <= i < s.len() {
        let first = s.subrange(0, i);
        let rest = s.subrange(i + 1, s.len() as int);
        lemma_split_pieces_no_sep(rest, sep);
        assert(forall|j: int| 0 <= j < first.len() ==> first[j] == s[j]);
        lemma_find_char_none(first, sep);
        assert forall|k: int| 0 <= k < split_at_seps(s, sep).len() implies find_char(
            split_at_seps(s, sep)[k],
            sep,
        ) == -1 by {
            if k == 0 {
                assert(split_at_seps(s, sep)[0] == first);
            } else {
                assert(split_at_seps(s, sep)[k] == split_at_seps(rest, sep)[k - 1]);
            }
        }
    }
}

/// Whether two strings have equal contents.
pub fn str_eq(a: &str, b: &str) -> (r: bool)
    ensures
        r == (a@ == b@),
{
    let n = a.unicode_len();
    let m = b.unicode_len();
    if n != m {
        return false;
    }
    let mut i: usize = 0;
    while i < n
        invariant
            n == a@.len(),
            n == b@.len(),
            i <= n,
            forall|j: int| 0 <= j < i ==> a@[j] == b@[j],
        decreases n - i,
    {
        if a.get_char(i) != b.get_char(i) {
            return false;
        }
        i += 1;
    }
    proof {
        assert(a@ =~= b@);
    }
    true
}

/// The views of a sequence of strings.
pub open spec fn views_of(ss: Seq<String>) -> Seq<Seq<char>> {
    ss.map_values(|t: String| t@)
}

/// Splits `s` at every occurrence of `sep`.
pub fn split_str(s: &str, sep: char) -> (r: Vec<String>)
    ensures
        views_of(r@) == split_at_seps(s@, sep),
{
    let n = s.unicode_len();
    let mut r: Vec<String> = Vec::new();
    let mut start: usize = 0;
    let mut i: usize = 0;
    proof {
        assert(s@.subrange(0, n as int) =~= s@);
        assert(views_of(r@) + split_at_seps(s@, sep) =~= split_at_seps(s@, sep));
    }
    while i < n
        invariant
            start <= i <= n,
            n == s@.len(),
            forall|j: int| start <= j < i ==> s@[j] != sep,
            split_at_seps(s@, sep) == views_of(r@) + split_at_seps(
                s@.subrange(start as int, n as int),
                sep,
            ),
        decreases n - i,
    {
        let c = s.get_char(i);
        if c == sep {
            let piece = s.substring_char(start, i).to_owned();
            let ghost r0 = r@;
            r.push(piece);
            proof {
                let t = s@.subrange(start as int, n as int);
                assert(t[i - start] == sep);
                assert(forall|j: int| 0 <= j < i - start ==> t[j] == s@[start + j]);
                lemma_split_step(t, sep, i - start);
                assert(t.subrange(0, i - start) =~= s@.subrange(start as int, i as int));
                assert(t.subrange(i - start + 1, t.len() as int) =~= s@.subrange(
                    i as int + 1,
                    n as int,
                ));
                assert(views_of(r@) =~= views_of(r0).push(piece@));
                assert(views_of(r0).push(piece@) + split_at_seps(
                    s@.subrange(i as int + 1, n as int),
                    sep,
                ) =~= views_of(r0) + (seq![piece@] + split_at_seps(
                    s@.subrange(i as int + 1, n as int),
                    sep,
                )));
            }
            start = i + 1;
        }
        i += 1;
    }
    let piece = s.substring_char(start, n).to_owned();
    let ghost r0 = r@;
    r.push(piece);
    proof {
        let t = s@.subrange(start as int, n as int);
        assert(forall|j: int| 0 <= j < t.len() ==> t[j] == s@[start + j]);
        lemma_split_whole(t, sep);
        assert(views_of(r@) =~= views_of(r0).push(piece@));
        assert(views_of(r0).push(piece@) =~= views_of(r0) + seq![t]);
    }
    r
}

/// Whether `c` is a decimal digit.
pub open spec fn is_dec_digit(c: char) -> bool {
    48 <= c as int <= 57
}

/// The numeric value of the decimal digit `c`.
pub open spec fn dec_digit_val(c: char) -> int {
    c as int - 48
}

/// Whether `s` is a non-empty string of decimal digits.
pub open spec fn is_dec_digits(s: Seq<char>) -> bool {
    s.len() > 0 && forall|j: int| 0 <= j < s.len() ==> is_dec_digit(#[trigger] s[j])
}

/// The value of the digit string `s`, read most significant digit first.
pub open spec fn dec_val(s: Seq<char>) -> int
    decreases s.len(),
{
    if s.len() == 0 {
        0
    } else {
        dec_val(s.drop_last()) * 10 + dec_digit_val(s.last())
    }
}

/// The value of a digit string is non-negative.
pub proof fn lemma_dec_val_nonneg(s: Seq<char>)
    requires
        forall|j: int| 0 <= j < s.len() ==> is_dec_digit(#[trigger] s[j]),
    ensures
        dec_val(s) >= 0,
    decreases s.len(),
{
    if s.len() > 0 {
        lemma_dec_val_nonneg(s.drop_last());
    }
}

/// Extending a digit string to the right never shrinks its value.
pub proof fn lemma_dec_val_prefix(s: Seq<char>, k: int)
    requires
        forall|j: int| 0 <= j < s.len() ==> is_dec_digit(#[trigger] s[j]),
        0 <= k <= s.len(),
    ensures
        dec_val(s) >= dec_val(s.subrange(0, k)),
    decreases s.len() - k,
{
    if k < s.len() {
        lemma_dec_val_prefix(s, k + 1);
        let p = s.subrange(0, k + 1);
        assert(p.drop_last() =~= s.subrange(0, k));
        lemma_dec_val_nonneg(s.subrange(0, k));
    } else {
        assert(s.subrange(0, k) =~= s);
    }
}

/// The digits of a numeral after an optional leading `+` sign.
pub open spec fn u32_body(s: Seq<char>) -> Seq<char> {
    if s.len() > 0 && s[0] == '+' {
        s.drop_first()
    } else {
        s
    }
}

/// What parsing a count field yields: an optional leading `+`, then one or
/// more decimal digits whose value fits in `u32`; anything else is rejected.
pub open spec fn spec_parse_u32(s: Seq<char>) -> Option<u32> {
    let body = u32_body(s);
    if is_dec_digits(body) && dec_val(body) <= u32::MAX {
        Some(dec_val(body) as u32)
    } else {
        None
    }
}

/// Reads an unsigned decimal numeral (optionally signed with `+`),
/// rejecting strings with other characters and values beyond `u32`.
pub fn parse_u32(s: &str) -> (r: Option<u32>)
    ensures
        r == spec_parse_u32(s@),
{
    let n = s.unicode_len();
    let mut i: usize = 0;
    if n > 0 && s.get_char(0) == '+' {
        i = 1;
    }
    let ghost body = u32_body(s@);
    let ghost off = i as int;
    assert(body.len() == n - off);
    assert(forall|j: int| 0 <= j < body.len() ==> body[j] == s@[j + off]);
    if i == n {
        return None;
    }
    let mut acc: u64 = 0;
    while i < n
        invariant
            off <= i <= n,
            n == s@.len(),
            body == u32_body(s@),
            off == (if s@.len() > 0 && s@[0] == '+' { 1int } else { 0int }),
            body.len() == n - off,
            forall|j: int| 0 <= j < body.len() ==> body[j] == s@[j + off],
            forall|j: int| 0 <= j < i - off ==> is_dec_digit(#[trigger] body[j]),
            acc == dec_val(body.subrange(0, i - off)),
            acc <= u32::MAX,
        decreases n - i,
    {
        let c = s.get_char(i);
        let cu = c as u32;
        if !(48 <= cu && cu <= 57) {
            proof {
                assert(body[i - off] == c);
                assert(!is_dec_digits(body));
            }
            return None;
        }
        let d = cu - 48;
        let ghost pre = body.subrange(0, i - off);
        proof {
            assert(body.subrange(0, i + 1 - off).drop_last() =~= pre);
            assert(body.subrange(0, i + 1 - off).last() == body[i - off]);
            assert(body[i - off] == c);
        }
        let next: u64 = acc * 10 + (d as u64);
        if next > u32::MAX as u64 {
            proof {
                if is_dec_digits(body) {
                    lemma_dec_val_prefix(body, i + 1 - off);
                }
            }
            return None;
        }
        acc = next;
        i += 1;
    }
    proof {
        assert(body.subrange(0, n - off) =~= body);
    }
    Some(acc as u32)
}

/// Whether `sep` occurs anywhere in `s`.
pub fn contains_char(s: &str, sep: char) -> (r: bool)
    ensures
        r == (find_char(s@, sep) >= 0),
{
    let n = s.unicode_len();
    let mut i: usize = 0;
    while i < n
        invariant
            i <= n,
            n == s@.len(),
            forall|j: int| 0 <= j < i ==> s@[j] != sep,
        decreases n - i,
    {
        if s.get_char(i) == sep {
            proof {
                lemma_find_char_at(s@, sep, i as int);
            }
            return true;
        }
        i += 1;
    }
    proof {
        lemma_find_char_none(s@, sep);
    }
    false
}

/// The character for the decimal digit `d`.
pub open spec fn dec_digit_char(d: int) -> char {
    if d == 0 {
        '0'
    } else if d == 1 {
        '1'
    } else if d == 2 {
        '2'
    } else if d == 3 {
        '3'
    } else if d == 4 {
        '4'
    } else if d == 5 {
        '5'
    } else if d == 6 {
        '6'
    } else if d == 7 {
        '7'
    } else if d == 8 {
        '8'
    } else {
        '9'
    }
}

/// The shortest decimal numeral for the non-negative number `n`.
pub open spec fn dec_of(n: int) -> Seq<char>
    recommends
        n >= 0,
    decreases n,
{
    if n < 10 {
        seq![dec_digit_char(n)]
    } else {
        dec_of(n / 10).push(dec_digit_char(n % 10))
    }
}

/// Appends the decimal numeral of `n` to `out`.
pub fn push_dec(out: &mut String, n: u64)
    ensures
        final(out)@ == old(out)@ + dec_of(n as int),
    decreases n,
{
    let ghost o0 = out@;
    if n >= 10 {
        push_dec(out, n / 10);
    }
    let d = (n % 10) as usize;
    let digits = "0123456789";
    proof {
        reveal_strlit("0123456789");
    }
    let piece = digits.substring_char(d, d + 1);
    out.append(piece);
    proof {
        assert(digits@.subrange(d as int, d as int + 1) =~= seq![digits@[d as int]]);
        assert(digits@[d as int] == dec_digit_char(n as int % 10));
        if n < 10 {
            assert(out@ =~= o0 + dec_of(n as int));
        } else {
            assert((o0 + dec_of(n as int / 10)).push(dec_digit_char(n as int % 10)) =~= o0
                + dec_of(n as int));
        }
    }
}

/// The character for the hexadecimal digit `d`, in lower case.
pub open spec fn hex_digit_char(d: int) -> char {
    if d < 10 {
        dec_digit_char(d)
    } else if d == 10 {
        'a'
    } else if d == 11 {
        'b'
    } else if d == 12 {
        'c'
    } else if d == 13 {
        'd'
    } else if d == 14 {
        'e'
    } else {
        'f'
    }
}

/// The shortest lower-case hexadecimal numeral for the non-negative `n`.
pub open spec fn hex_of(n: int) -> Seq<char>
    recommends
        n >= 0,
    decreases n,
{
    if n < 16 {
        seq![hex_digit_char(n)]
    } else {
        hex_of(n / 16).push(hex_digit_char(n % 16))
    }
}

/// Appends the lower-case hexadecimal numeral of `n` to `out`.
pub fn push_hex(out: &mut String, n: u64)
    ensures
        final(out)@ == old(out)@ + hex_of(n as int),
    decreases n,
{
    let ghost o0 = out@;
    if n >= 16 {
        push_hex(out, n / 16);
    }
    let d = (n % 16) as usize;
    let digits = "0123456789abcdef";
    proof {
        reveal_strlit("0123456789abcdef");
    }
    let piece = digits.substring_char(d, d + 1);
    out.append(piece);
    proof {
        assert(digits@.subrange(d as int, d as int + 1) =~= seq![digits@[d as int]]);
        assert(digits@[d as int] == hex_digit_char(n as int % 16));
        if n < 16 {
            assert(out@ =~= o0 + hex_of(n as int));
        } else {
            assert((o0 + hex_of(n as int / 16)).push(hex_digit_char(n as int % 16)) =~= o0
                + hex_of(n as int));
        }
    }
}

} // verus!
