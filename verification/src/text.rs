//! Character-level helpers shared by the parser and the checkers: the
//! Unicode classifications that std computes, trimming, UTF-8 widths, and
//! conversions between `str`, `String` and character vectors.

use vstd::prelude::*;

use crate::texts_view;

verus! {

/// Whether `c` has the Unicode `White_Space` property, which is what
/// `char::is_whitespace` and `str::trim` go by: tab, line feed, vertical tab,
/// form feed, carriage return, space, next line, no-break space, ogham space
/// mark, the spaces U+2000 to U+200A, line and paragraph separators, narrow
/// no-break space, medium mathematical space and ideographic space.
pub open spec fn unicode_whitespace(c: char) -> bool {
    let v = c as u32;
    ||| 0x09 <= v <= 0x0D
    ||| v == 0x20
    ||| v == 0x85
    ||| v == 0xA0
    ||| v == 0x1680
    ||| 0x2000 <= v <= 0x200A
    ||| v == 0x2028
    ||| v == 0x2029
    ||| v == 0x202F
    ||| v == 0x205F
    ||| v == 0x3000
}

/// Whether std classifies a character beyond ASCII as alphanumeric (Unicode
/// `Alphabetic` or `Numeric`), as `char::is_alphanumeric` reports it.
pub uninterp spec fn alphanumeric_beyond_ascii(c: char) -> bool;

/// Whether `c` is alphanumeric as `char::is_alphanumeric` answers: among ASCII
/// characters the letters and digits, beyond ASCII as Unicode classifies it.
pub open spec fn unicode_alphanumeric(c: char) -> bool {
    if (c as u32) < 0x80 {
        is_ascii_alphanumeric(c)
    } else {
        alphanumeric_beyond_ascii(c)
    }
}

/// An ASCII letter or digit.
pub open spec fn is_ascii_alphanumeric(c: char) -> bool {
    ('a' <= c && c <= 'z') || ('A' <= c && c <= 'Z') || ('0' <= c && c <= '9')
}

/// The Unicode lower-case mapping of a text, as `str::to_lowercase` computes it.
pub uninterp spec fn unicode_lowercase(s: Seq<char>) -> Seq<char>;

/// Whether `c` is whitespace, as `char::is_whitespace` answers.
pub fn is_whitespace(c: char) -> (r: bool)
    ensures
        r == unicode_whitespace(c),
{
    let v = c as u32;
    (0x09 <= v && v <= 0x0D) || v == 0x20 || v == 0x85 || v == 0xA0 || v == 0x1680 || (0x2000
        <= v && v <= 0x200A) || v == 0x2028 || v == 0x2029 || v == 0x202F || v == 0x205F || v
        == 0x3000
}

/// Calls `char::is_alphanumeric`; the contract claims that among ASCII
/// characters exactly the letters and digits are alphanumeric, and that
/// beyond ASCII the answer is the named Unicode classification of `c`.
#[verifier::external_body]
pub(crate) fn is_alphanumeric(c: char) -> (r: bool)
    ensures
        (c as u32) < 0x80 ==> r == is_ascii_alphanumeric(c),
        (c as u32) >= 0x80 ==> r == alphanumeric_beyond_ascii(c),
{
    c.is_alphanumeric()
}

/// `b` is `a` in lower case by the ASCII rules: `A` to `Z` become `a` to
/// `z`, every other character stays as it is.
pub open spec fn ascii_lowered(a: char, b: char) -> bool {
    if 'A' <= a && a <= 'Z' {
        b as u32 == a as u32 + 32
    } else {
        b == a
    }
}

/// Calls `str::to_lowercase`; the contract claims that the result is the
/// named lower-case mapping of the characters of `s`, and that a text of
/// ASCII characters alone is lowered character by character by the ASCII
/// rules (Unicode maps `A` to `Z` to `a` to `z` and no other ASCII
/// character to another).
#[verifier::external_body]
pub(crate) fn to_lowercase(s: &str) -> (r: String)
    ensures
        r@ == unicode_lowercase(s@),
        (forall|k: int| 0 <= k < s@.len() ==> (#[trigger] s@[k] as u32) < 0x80) ==> (r@.len()
            == s@.len() && forall|k: int| 0 <= k < s@.len() ==> ascii_lowered(s@[k], #[trigger] r@[k])),
{
    s.to_lowercase()
}

/// Calls `String::push`, which appends one character.
#[verifier::external_body]
pub(crate) fn push_char(s: &mut String, c: char)
    ensures
        final(s)@ == old(s)@.push(c),
{
    s.push(c)
}

/// The characters of `s`, in order.
pub fn str_chars(s: &str) -> (v: Vec<char>)
    ensures
        v@ == s@,
{
    broadcast use vstd::string::axiom_spec_iter;

    let mut v: Vec<char> = Vec::new();
    for c in it: s.chars()
        invariant
            it.seq() == s@,
            v@ == it.seq().take(it.index()),
    {
        v.push(c);
    }
    v
}

/// A `String` holding the characters `s[from..to]`.
pub fn string_of(s: &Vec<char>, from: usize, to: usize) -> (r: String)
    requires
        from <= to <= s@.len(),
    ensures
        r@ == s@.subrange(from as int, to as int),
{
    let mut r = String::new();
    let mut i = from;
    while i < to
        invariant
            from <= i <= to <= s@.len(),
            r@ == s@.subrange(from as int, i as int),
        decreases to - i,
    {
        push_char(&mut r, s[i]);
        i = i + 1;
        assert(r@ =~= s@.subrange(from as int, i as int));
    }
    r
}

/// The first position at or after `i`, and before `end`, that does not hold
/// whitespace; `end` if there is none.
pub open spec fn skip_whitespace(s: Seq<char>, i: int, end: int) -> int
    decreases end - i,
{
    if i < end && unicode_whitespace(s[i]) {
        skip_whitespace(s, i + 1, end)
    } else {
        i
    }
}

/// The position just after the last non-whitespace character of
/// `s[start..j]`; `start` if there is none.
pub open spec fn back_whitespace(s: Seq<char>, start: int, j: int) -> int
    decreases j - start,
{
    if start < j && unicode_whitespace(s[j - 1]) {
        back_whitespace(s, start, j - 1)
    } else {
        j
    }
}

/// `s[from..to]` with leading and trailing whitespace removed, as `str::trim`
/// gives it.
pub open spec fn trimmed(s: Seq<char>, from: int, to: int) -> Seq<char> {
    let a = skip_whitespace(s, from, to);
    s.subrange(a, back_whitespace(s, a, to))
}

proof fn lemma_skip_whitespace_facts(s: Seq<char>, i: int, end: int)
    requires
        0 <= i <= end <= s.len(),
    ensures
        i <= skip_whitespace(s, i, end) <= end,
        forall|k: int| i <= k < skip_whitespace(s, i, end) ==> unicode_whitespace(#[trigger] s[k]),
        skip_whitespace(s, i, end) < end ==> !unicode_whitespace(s[skip_whitespace(s, i, end)]),
    decreases end - i,
{
    if i < end && unicode_whitespace(s[i]) {
        lemma_skip_whitespace_facts(s, i + 1, end);
    }
}

proof fn lemma_back_whitespace_facts(s: Seq<char>, start: int, j: int)
    requires
        0 <= start <= j <= s.len(),
    ensures
        start <= back_whitespace(s, start, j) <= j,
        forall|k: int| back_whitespace(s, start, j) <= k < j ==> unicode_whitespace(#[trigger] s[k]),
        start < back_whitespace(s, start, j) ==> !unicode_whitespace(
            s[back_whitespace(s, start, j) - 1],
        ),
    decreases j - start,
{
    if start < j && unicode_whitespace(s[j - 1]) {
        lemma_back_whitespace_facts(s, start, j - 1);
    }
}

/// Trimming removes exactly the whitespace at both ends: what it keeps is a
/// contiguous part of the text that neither starts nor ends with whitespace,
/// and everything it drops is whitespace.
pub proof fn trim_drops_only_outer_whitespace(s: Seq<char>, from: int, to: int)
    requires
        0 <= from <= to <= s.len(),
    ensures
        ({
            let a = skip_whitespace(s, from, to);
            let b = back_whitespace(s, a, to);
            &&& from <= a <= b <= to
            &&& trimmed(s, from, to) == s.subrange(a, b)
            &&& forall|k: int| from <= k < a ==> unicode_whitespace(#[trigger] s[k])
            &&& forall|k: int| b <= k < to ==> unicode_whitespace(#[trigger] s[k])
            &&& a < b ==> !unicode_whitespace(s[a]) && !unicode_whitespace(s[b - 1])
        }),
{
    lemma_skip_whitespace_facts(s, from, to);
    let a = skip_whitespace(s, from, to);
    lemma_back_whitespace_facts(s, a, to);
    let b = back_whitespace(s, a, to);
    if a < b {
        assert(a < to);
    }
}

proof fn lemma_skip_whitespace_shift(s: Seq<char>, from: int, to: int, i: int)
    requires
        0 <= from <= i <= to <= s.len(),
    ensures
        skip_whitespace(s, i, to) == from + skip_whitespace(s.subrange(from, to), i - from, to - from),
    decreases to - i,
{
    if i < to && unicode_whitespace(s[i]) {
        lemma_skip_whitespace_shift(s, from, to, i + 1);
    }
}

proof fn lemma_back_whitespace_shift(s: Seq<char>, from: int, to: int, a: int, j: int)
    requires
        0 <= from <= a <= j <= to <= s.len(),
    ensures
        back_whitespace(s, a, j) == from + back_whitespace(s.subrange(from, to), a - from, j - from),
    decreases j - a,
{
    if a < j && unicode_whitespace(s[j - 1]) {
        lemma_back_whitespace_shift(s, from, to, a, j - 1);
    }
}

/// Trimming a part of a text is trimming that part on its own.
pub proof fn trimmed_part(s: Seq<char>, from: int, to: int)
    requires
        0 <= from <= to <= s.len(),
    ensures
        trimmed(s, from, to) == trimmed(s.subrange(from, to), 0, to - from),
{
    let t = s.subrange(from, to);
    lemma_skip_whitespace_shift(s, from, to, from);
    lemma_skip_whitespace_facts(s, from, to);
    let a = skip_whitespace(s, from, to);
    lemma_back_whitespace_shift(s, from, to, a, to);
    lemma_back_whitespace_facts(s, a, to);
    let b = back_whitespace(s, a, to);
    assert(t.subrange(a - from, b - from) =~= s.subrange(a, b));
}

/// Whitespace in front of a part does not change its trimmed text.
pub proof fn trimmed_after_whitespace(s: Seq<char>, from: int, k: int, to: int)
    requires
        0 <= from <= k <= to <= s.len(),
        forall|m: int| from <= m < k ==> unicode_whitespace(#[trigger] s[m]),
    ensures
        trimmed(s, from, to) == trimmed(s, k, to),
    decreases k - from,
{
    if from < k {
        trimmed_after_whitespace(s, from + 1, k, to);
    }
}

/// `s[from..to]` with surrounding whitespace removed, as a `String`.
pub fn trimmed_string(s: &Vec<char>, from: usize, to: usize) -> (r: String)
    requires
        from <= to <= s@.len(),
    ensures
        r@ == trimmed(s@, from as int, to as int),
{
    let mut a = from;
    while a < to && is_whitespace(s[a])
        invariant
            from <= a <= to <= s@.len(),
            skip_whitespace(s@, from as int, to as int) == skip_whitespace(s@, a as int, to as int),
        decreases to - a,
    {
        a = a + 1;
    }
    let mut b = to;
    while a < b && is_whitespace(s[b - 1])
        invariant
            from <= a <= b <= to <= s@.len(),
            back_whitespace(s@, a as int, to as int) == back_whitespace(s@, a as int, b as int),
        decreases b,
    {
        b = b - 1;
    }
    string_of(s, a, b)
}

/// The number of bytes that the UTF-8 encoding of `c` takes.
pub open spec fn utf8_width(c: char) -> nat {
    if (c as u32) < 0x80 {
        1
    } else if (c as u32) < 0x800 {
        2
    } else if (c as u32) < 0x10000 {
        3
    } else {
        4
    }
}

/// The number of bytes that the UTF-8 encoding of `t` takes, which is what
/// `str::len` reports.
pub open spec fn utf8_len(t: Seq<char>) -> nat
    decreases t.len(),
{
    if t.len() == 0 {
        0
    } else {
        utf8_len(t.drop_last()) + utf8_width(t.last())
    }
}

/// `utf8_len(s[from..to])` taken modulo 2^32, as a cast of the length to
/// `u32` gives it.
pub fn utf8_len_u32(s: &Vec<char>, from: usize, to: usize) -> (r: u32)
    requires
        from <= to <= s@.len(),
    ensures
        r == utf8_len(s@.subrange(from as int, to as int)) % 0x1_0000_0000,
{
    let mut total: u128 = 0;
    let mut i = from;
    while i < to
        invariant
            from <= i <= to <= s@.len(),
            total == utf8_len(s@.subrange(from as int, i as int)),
            total <= 4 * (i - from),
        decreases to - i,
    {
        let c = s[i];
        let w: u128 = if (c as u32) < 0x80 {
            1
        } else if (c as u32) < 0x800 {
            2
        } else if (c as u32) < 0x10000 {
            3
        } else {
            4
        };
        assert(s@.subrange(from as int, i + 1).drop_last() =~= s@.subrange(from as int, i as int));
        total = total + w;
        i = i + 1;
    }
    (total % 0x1_0000_0000) as u32
}

/// The texts of `parts` one after the other, with `sep` between each two.
pub open spec fn join(parts: Seq<Seq<char>>, sep: Seq<char>) -> Seq<char>
    decreases parts.len(),
{
    if parts.len() == 0 {
        Seq::empty()
    } else if parts.len() == 1 {
        parts[0]
    } else {
        parts[0] + sep + join(parts.drop_first(), sep)
    }
}

/// Joining one more text at the end adds the separator and the text.
pub proof fn join_push(parts: Seq<Seq<char>>, x: Seq<char>, sep: Seq<char>)
    ensures
        join(parts.push(x), sep) == if parts.len() == 0 {
            x
        } else {
            join(parts, sep) + sep + x
        },
    decreases parts.len(),
{
    if parts.len() == 0 {
        assert(parts.push(x).len() == 1);
        assert(parts.push(x)[0] == x);
    } else if parts.len() == 1 {
        assert(parts.push(x).drop_first() =~= seq![x]);
        assert(join(seq![x], sep) == x);
    } else {
        join_push(parts.drop_first(), x, sep);
        assert(parts.push(x).drop_first() =~= parts.drop_first().push(x));
        let j = join(parts.drop_first(), sep);
        assert(parts[0] + sep + (j + sep + x) =~= (parts[0] + sep + j) + sep + x);
    }
}

/// The texts of `parts` joined with `sep`, as `[String]::join` gives them.
pub fn join_strings(parts: &Vec<String>, sep: &str) -> (r: String)
    ensures
        r@ == join(texts_view(parts@), sep@),
{
    let mut r = String::new();
    let mut k: usize = 0;
    while k < parts.len()
        invariant
            k <= parts@.len(),
            r@ == join(texts_view(parts@.take(k as int)), sep@),
        decreases parts@.len() - k,
    {
        proof {
            join_push(texts_view(parts@.take(k as int)), parts@[k as int]@, sep@);
            assert(texts_view(parts@.take(k + 1)) =~= texts_view(parts@.take(k as int)).push(
                parts@[k as int]@,
            ));
        }
        if k > 0 {
            r.append(sep);
        }
        r.append(parts[k].as_str());
        k = k + 1;
    }
    assert(parts@.take(k as int) =~= parts@);
    r
}

/// Whether `w` occurs in `t` as a contiguous run of characters.
pub open spec fn occurs_in(w: Seq<char>, t: Seq<char>) -> bool {
    exists|k: int| 0 <= k && k + w.len() <= t.len() && #[trigger] t.subrange(k, k + w.len()) == w
}

/// Whether `s[from..to]` starts with `w`.
pub open spec fn starts_with_at(s: Seq<char>, from: int, to: int, w: Seq<char>) -> bool {
    from + w.len() <= to && s.subrange(from, from + w.len()) == w
}

/// Whether `s[from..to]` holds the characters of `w` from position `from` on.
pub fn has_prefix_at(s: &Vec<char>, from: usize, to: usize, w: &[char]) -> (r: bool)
    requires
        from <= to <= s@.len(),
    ensures
        r == starts_with_at(s@, from as int, to as int, w@),
{
    if w.len() > to - from {
        return false;
    }
    let mut k: usize = 0;
    while k < w.len()
        invariant
            from + w@.len() <= to <= s@.len(),
            k <= w@.len(),
            s@.subrange(from as int, from + k) == w@.subrange(0, k as int),
        decreases w@.len() - k,
    {
        if s[from + k] != w[k] {
            assert(s@.subrange(from as int, from + w@.len())[k as int] != w@[k as int]);
            return false;
        }
        k = k + 1;
        assert(s@.subrange(from as int, from + k) =~= w@.subrange(0, k as int));
    }
    assert(w@.subrange(0, k as int) =~= w@);
    true
}

/// Whether `w` occurs in `s[from..to]`.
pub fn occurs_between(s: &Vec<char>, from: usize, to: usize, w: &[char]) -> (r: bool)
    requires
        from <= to <= s@.len(),
    ensures
        r == occurs_in(w@, s@.subrange(from as int, to as int)),
{
    let ghost t = s@.subrange(from as int, to as int);
    if w.len() == 0 {
        assert(t.subrange(0int, 0int + w@.len()) =~= w@);
        return true;
    }
    let mut k = from;
    while k < to
        invariant
            from <= k <= to <= s@.len(),
            t == s@.subrange(from as int, to as int),
            forall|j: int|
                0 <= j < k - from && j + w@.len() <= t.len() ==> #[trigger] t.subrange(j, j + w@.len()) != w@,
        decreases to - k,
    {
        if has_prefix_at(s, k, to, w) {
            assert(t.subrange(k - from, k - from + w@.len()) =~= s@.subrange(k as int, k + w@.len()));
            return true;
        }
        proof {
            if k - from + w@.len() <= t.len() {
                assert(t.subrange(k - from, k - from + w@.len()) =~= s@.subrange(k as int, k + w@.len()));
            }
        }
        k = k + 1;
    }
    false
}

/// The decimal digit for `d`, which is below ten.
pub open spec fn digit(d: nat) -> char {
    if d == 0 {
        '0'
    } else if d == 1 {
        '1'
    } else if d == 2 {
        '2'
    } else if d == 3 {
        '3'
    } else if d == 4 {
        '4'
    } else if d == 5 {
        '5'
    } else if d == 6 {
        '6'
    } else if d == 7 {
        '7'
    } else if d == 8 {
        '8'
    } else {
        '9'
    }
}

/// `n` written in decimal, without leading zeros, as `usize::to_string`
/// writes it.
pub open spec fn decimal(n: nat) -> Seq<char>
    decreases n,
{
    if n < 10 {
        seq![digit(n)]
    } else {
        decimal(n / 10).push(digit(n % 10))
    }
}

fn digit_char(d: usize) -> (c: char)
    requires
        d < 10,
    ensures
        c == digit(d as nat),
{
    if d == 0 {
        '0'
    } else if d == 1 {
        '1'
    } else if d == 2 {
        '2'
    } else if d == 3 {
        '3'
    } else if d == 4 {
        '4'
    } else if d == 5 {
        '5'
    } else if d == 6 {
        '6'
    } else if d == 7 {
        '7'
    } else if d == 8 {
        '8'
    } else {
        '9'
    }
}

/// Appends `n` in decimal to `s`.
pub fn push_decimal(s: &mut String, n: usize)
    ensures
        final(s)@ == old(s)@ + decimal(n as nat),
    decreases n,
{
    if n < 10 {
        push_char(s, digit_char(n));
        assert(old(s)@.push(digit(n as nat)) =~= old(s)@ + decimal(n as nat));
    } else {
        push_decimal(s, n / 10);
        push_char(s, digit_char(n % 10));
        assert(old(s)@ + decimal((n / 10) as nat) + seq![digit((n % 10) as nat)] =~= old(s)@
            + decimal(n as nat));
    }
}

} // verus!
