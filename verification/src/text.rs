use vstd::prelude::*;
use vstd::string::*;

verus! {

// ---------------------------------------------------------------------------
// Character classes
// ---------------------------------------------------------------------------

/// The Unicode `White_Space` property: the characters that `char::is_whitespace`
/// accepts, and so the characters that `str::trim` removes.
pub open spec fn is_whitespace(c: char) -> bool {
    let n = c as u32;
    ||| 0x9 <= n <= 0xd
    ||| n == 0x20
    ||| n == 0x85
    ||| n == 0xa0
    ||| n == 0x1680
    ||| 0x2000 <= n <= 0x200a
    ||| n == 0x2028
    ||| n == 0x2029
    ||| n == 0x202f
    ||| n == 0x205f
    ||| n == 0x3000
}

/// `'0'..='9'`, the characters that `char::is_ascii_digit` accepts.
pub open spec fn is_ascii_digit(c: char) -> bool {
    48 <= c as u32 <= 57
}

/// A character with its ASCII capital letter, if it is one, made small.
///
/// Comparing a lowercased text with a word of small ASCII letters and digits
/// gives the same answer whether the text is lowercased by this map or by
/// Unicode's full lowercase mapping: the only characters outside ASCII whose
/// lowercase form holds an ASCII letter are U+212A (to `k`) and U+0130 (to `i`
/// followed by U+0307, which is not ASCII), so none of them can complete such
/// a word.
pub open spec fn lower(c: char) -> char {
    if 65 <= c as u32 <= 90 {
        ((c as u32) + 32) as char
    } else {
        c
    }
}

/// The text with each ASCII capital letter made small.
pub open spec fn lowercase(s: Seq<char>) -> Seq<char> {
    s.map_values(|c: char| lower(c))
}

/// Whether `s` begins with the character `c`.
pub open spec fn starts_with(s: Seq<char>, c: char) -> bool {
    s.len() > 0 && s[0] == c
}

// ---------------------------------------------------------------------------
// Trimming, searching, filtering
// ---------------------------------------------------------------------------

/// `s` without its leading whitespace.
pub open spec fn trim_start(s: Seq<char>) -> Seq<char>
    decreases s.len(),
{
    if s.len() > 0 && is_whitespace(s[0]) {
        trim_start(s.drop_first())
    } else {
        s
    }
}

/// `s` without its trailing whitespace.
pub open spec fn trim_end(s: Seq<char>) -> Seq<char>
    decreases s.len(),
{
    if s.len() > 0 && is_whitespace(s.last()) {
        trim_end(s.drop_last())
    } else {
        s
    }
}

/// `s` without leading and trailing whitespace, as `str::trim` gives it.
pub open spec fn trim(s: Seq<char>) -> Seq<char> {
    trim_end(trim_start(s))
}

/// The index of the first `c` in `s`, or the length of `s` where there is none.
pub open spec fn position(s: Seq<char>, c: char) -> nat
    decreases s.len(),
{
    if s.len() == 0 {
        0
    } else if s[0] == c {
        0
    } else {
        1 + position(s.drop_first(), c)
    }
}

/// `s` with every `c` taken out.
pub open spec fn without(s: Seq<char>, c: char) -> Seq<char>
    decreases s.len(),
{
    if s.len() == 0 {
        s
    } else if s.last() == c {
        without(s.drop_last(), c)
    } else {
        without(s.drop_last(), c).push(s.last())
    }
}

/// The ASCII digits of `s`, in order.
pub open spec fn ascii_digits(s: Seq<char>) -> Seq<char>
    decreases s.len(),
{
    if s.len() == 0 {
        s
    } else if is_ascii_digit(s.last()) {
        ascii_digits(s.drop_last()).push(s.last())
    } else {
        ascii_digits(s.drop_last())
    }
}

// ---------------------------------------------------------------------------
// Numbers
// ---------------------------------------------------------------------------

/// The value of `c` as a digit, as `char::to_digit` reads it (`0`-`9`, then
/// `a`-`z` or `A`-`Z` for 10 to 35); 36 for any other character.
pub open spec fn digit_value(c: char) -> nat {
    let n = c as u32;
    if 48 <= n <= 57 {
        (n - 48) as nat
    } else if 97 <= n <= 122 {
        (n - 87) as nat
    } else if 65 <= n <= 90 {
        (n - 55) as nat
    } else {
        36
    }
}

/// Whether every character of `s` is a digit in `radix`.
pub open spec fn all_digits(s: Seq<char>, radix: nat) -> bool {
    forall|i: int| 0 <= i < s.len() ==> digit_value(#[trigger] s[i]) < radix
}

/// The number that the digits `s` write in `radix`, most significant first.
pub open spec fn value_in_radix(s: Seq<char>, radix: nat) -> nat
    decreases s.len(),
{
    if s.len() == 0 {
        0
    } else {
        value_in_radix(s.drop_last(), radix) * radix + digit_value(s.last())
    }
}

/// How `from_str_radix` reads an unsigned integer type whose largest value is
/// `max`: an optional `+`, then at least one digit in `radix`, and a value no
/// larger than `max`.
pub open spec fn parse_unsigned(s: Seq<char>, radix: nat, max: nat) -> Option<nat> {
    let digits = if starts_with(s, '+') {
        s.drop_first()
    } else {
        s
    };
    if digits.len() > 0 && all_digits(digits, radix) && value_in_radix(digits, radix) <= max {
        Some(value_in_radix(digits, radix))
    } else {
        None
    }
}

/// The character of the decimal digit `d`.
pub open spec fn digit_char(d: nat) -> char {
    (d + 48) as char
}

/// `n` written in decimal without leading zeros, as `to_string` writes it.
pub open spec fn decimal(n: nat) -> Seq<char>
    decreases n,
{
    if n < 10 {
        seq![digit_char(n)]
    } else {
        decimal(n / 10).push(digit_char(n % 10))
    }
}

// ---------------------------------------------------------------------------
// Lemmas
// ---------------------------------------------------------------------------

/// The first `c` is at `i` when none comes before `i` and `i` is the end or a `c`.
pub proof fn lemma_position_at(s: Seq<char>, c: char, i: int)
    requires
        0 <= i <= s.len(),
        forall|j: int| 0 <= j < i ==> s[j] != c,
        i == s.len() || s[i] == c,
    ensures
        position(s, c) == i,
    decreases i,
{
    if i > 0 {
        lemma_position_at(s.drop_first(), c, i - 1);
    }
}

/// The leading whitespace of `s` ends at `a`.
pub proof fn lemma_trim_start_at(s: Seq<char>, a: int)
    requires
        0 <= a <= s.len(),
        forall|j: int| 0 <= j < a ==> is_whitespace(s[j]),
        a == s.len() || !is_whitespace(s[a]),
    ensures
        trim_start(s) == s.subrange(a, s.len() as int),
    decreases a,
{
    if a > 0 {
        lemma_trim_start_at(s.drop_first(), a - 1);
        assert(s.drop_first().subrange(a - 1, s.len() - 1) =~= s.subrange(a, s.len() as int));
    } else {
        assert(s.subrange(0, s.len() as int) =~= s);
    }
}

/// The trailing whitespace of `s` starts at `b`.
pub proof fn lemma_trim_end_at(s: Seq<char>, b: int)
    requires
        0 <= b <= s.len(),
        forall|j: int| b <= j < s.len() ==> is_whitespace(s[j]),
        b == 0 || !is_whitespace(s[b - 1]),
    ensures
        trim_end(s) == s.subrange(0, b),
    decreases s.len() - b,
{
    if b < s.len() {
        lemma_trim_end_at(s.drop_last(), b);
        assert(s.drop_last().subrange(0, b) =~= s.subrange(0, b));
    } else {
        assert(s.subrange(0, b) =~= s);
    }
}

/// Where the leading whitespace of `s` ends, and what trimming it leaves.
pub proof fn lemma_leading_whitespace(s: Seq<char>) -> (i: int)
    ensures
        0 <= i <= s.len(),
        forall|k: int| 0 <= k < i ==> is_whitespace(#[trigger] s[k]),
        i < s.len() ==> !is_whitespace(s[i]),
        trim_start(s) == s.subrange(i, s.len() as int),
    decreases s.len(),
{
    if s.len() == 0 || !is_whitespace(s[0]) {
        lemma_trim_start_at(s, 0);
        0
    } else {
        let j = lemma_leading_whitespace(s.drop_first());
        assert forall|k: int| 0 <= k < j + 1 implies is_whitespace(#[trigger] s[k]) by {
            if k > 0 {
                assert(s[k] == s.drop_first()[k - 1]);
            }
        }
        lemma_trim_start_at(s, j + 1);
        j + 1
    }
}

/// Where the trailing whitespace of `s` starts, and what trimming it leaves.
pub proof fn lemma_trailing_whitespace(s: Seq<char>) -> (j: int)
    ensures
        0 <= j <= s.len(),
        forall|k: int| j <= k < s.len() ==> is_whitespace(#[trigger] s[k]),
        j > 0 ==> !is_whitespace(s[j - 1]),
        trim_end(s) == s.subrange(0, j),
    decreases s.len(),
{
    if s.len() == 0 || !is_whitespace(s.last()) {
        lemma_trim_end_at(s, s.len() as int);
        s.len() as int
    } else {
        let j = lemma_trailing_whitespace(s.drop_last());
        assert forall|k: int| j <= k < s.len() implies is_whitespace(#[trigger] s[k]) by {
            if k < s.len() - 1 {
                assert(s[k] == s.drop_last()[k]);
            }
        }
        lemma_trim_end_at(s, j);
        j
    }
}

/// A prefix of a numeral never writes a larger value than the whole.
pub proof fn lemma_value_prefix(s: Seq<char>, radix: nat, k: int)
    requires
        0 <= k <= s.len(),
        radix >= 1,
    ensures
        value_in_radix(s.take(k), radix) <= value_in_radix(s, radix),
    decreases s.len(),
{
    if k < s.len() {
        lemma_value_prefix(s.drop_last(), radix, k);
        assert(s.drop_last().take(k) =~= s.take(k));
        let v = value_in_radix(s.drop_last(), radix);
        assert(v * radix >= v) by (nonlinear_arith)
            requires
                radix >= 1,
        ;
    } else {
        assert(s.take(k) =~= s);
    }
}

// ---------------------------------------------------------------------------
// Executable helpers
// ---------------------------------------------------------------------------

/// The characters of `s`, in order.
pub fn chars_of(s: &str) -> (v: Vec<char>)
    ensures
        v@ == s@,
{
    let n = s.unicode_len();
    let mut v: Vec<char> = Vec::new();
    let mut i: usize = 0;
    while i < n
        invariant
            n == s@.len(),
            i <= n,
            v@ == s@.take(i as int),
        decreases n - i,
    {
        v.push(s.get_char(i));
        i += 1;
    }
    assert(s@.take(n as int) =~= s@);
    v
}

/// Whether `c` is whitespace.
pub fn is_whitespace_char(c: char) -> (b: bool)
    ensures
        b == is_whitespace(c),
{
    let n = c as u32;
    (0x9 <= n && n <= 0xd) || n == 0x20 || n == 0x85 || n == 0xa0 || n == 0x1680 || (0x2000 <= n
        && n <= 0x200a) || n == 0x2028 || n == 0x2029 || n == 0x202f || n == 0x205f || n == 0x3000
}

/// Whether `c` is an ASCII digit.
pub fn is_ascii_digit_char(c: char) -> (b: bool)
    ensures
        b == is_ascii_digit(c),
{
    let n = c as u32;
    48 <= n && n <= 57
}

/// `c` with an ASCII capital letter made small.
pub fn lower_char(c: char) -> (l: char)
    ensures
        l == lower(c),
{
    let n = c as u32;
    if 65 <= n && n <= 90 {
        let b = (n + 32) as u8;
        b as char
    } else {
        c
    }
}

/// The bounds of `v[from..to]` without leading and trailing whitespace.
pub fn trim_bounds(v: &Vec<char>, from: usize, to: usize) -> (r: (usize, usize))
    requires
        from <= to <= v.len(),
    ensures
        from <= r.0 <= r.1 <= to,
        v@.subrange(r.0 as int, r.1 as int) == trim(v@.subrange(from as int, to as int)),
{
    let ghost s = v@.subrange(from as int, to as int);
    let mut a = from;
    while a < to && is_whitespace_char(v[a])
        invariant
            from <= a <= to <= v.len(),
            forall|j: int| from <= j < a ==> is_whitespace(v@[j]),
        decreases to - a,
    {
        a += 1;
    }
    proof {
        lemma_trim_start_at(s, a - from);
    }
    let mut b = to;
    while b > a && is_whitespace_char(v[b - 1])
        invariant
            from <= a <= b <= to <= v.len(),
            forall|j: int| b <= j < to ==> is_whitespace(v@[j]),
        decreases b - a,
    {
        b -= 1;
    }
    proof {
        let t = s.subrange(a - from, s.len() as int);
        assert(t =~= v@.subrange(a as int, to as int));
        lemma_trim_end_at(t, b - a);
        assert(t.subrange(0, b - a) =~= v@.subrange(a as int, b as int));
    }
    (a, b)
}

/// The index of the first `c` in `v[from..to]`, or `to` where there is none.
pub fn position_in(v: &Vec<char>, from: usize, to: usize, c: char) -> (p: usize)
    requires
        from <= to <= v.len(),
    ensures
        from <= p <= to,
        p - from == position(v@.subrange(from as int, to as int), c),
        forall|j: int| from <= j < p ==> v@[j] != c,
        p < to ==> v@[p as int] == c,
{
    let mut i = from;
    while i < to && v[i] != c
        invariant
            from <= i <= to <= v.len(),
            forall|j: int| from <= j < i ==> v@[j] != c,
        decreases to - i,
    {
        i += 1;
    }
    proof {
        lemma_position_at(v@.subrange(from as int, to as int), c, i - from);
    }
    i
}

/// Whether `v[from..to]` holds the character `c`.
pub fn contains_char(v: &Vec<char>, from: usize, to: usize, c: char) -> (b: bool)
    requires
        from <= to <= v.len(),
    ensures
        b == v@.subrange(from as int, to as int).contains(c),
{
    let p = position_in(v, from, to, c);
    proof {
        let s = v@.subrange(from as int, to as int);
        if p < to {
            assert(s[p - from] == c);
        } else {
            assert forall|j: int| 0 <= j < s.len() implies s[j] != c by {
                assert(s[j] == v@[from + j]);
            }
        }
    }
    p < to
}

/// Whether `v[from..to]`, with ASCII capitals made small, is `w`.
pub fn lowercase_is(v: &Vec<char>, from: usize, to: usize, w: &str) -> (b: bool)
    requires
        from <= to <= v.len(),
    ensures
        b == (lowercase(v@.subrange(from as int, to as int)) == w@),
{
    let ghost s = v@.subrange(from as int, to as int);
    let n = w.unicode_len();
    if to - from != n {
        assert(lowercase(s).len() != w@.len());
        return false;
    }
    let mut i: usize = 0;
    while i < n
        invariant
            n == w@.len(),
            to - from == n,
            from <= to <= v.len(),
            s == v@.subrange(from as int, to as int),
            i <= n,
            forall|j: int| 0 <= j < i ==> lower(s[j]) == w@[j],
        decreases n - i,
    {
        if lower_char(v[from + i]) != w.get_char(i) {
            assert(lowercase(s)[i as int] != w@[i as int]);
            return false;
        }
        i += 1;
    }
    assert(lowercase(s) =~= w@);
    true
}

/// Whether `s`, with ASCII capitals made small, is `w`.
pub fn lowercase_equals(s: &str, w: &str) -> (b: bool)
    ensures
        b == (lowercase(s@) == w@),
{
    let v = chars_of(s);
    assert(v@.subrange(0, v.len() as int) =~= v@);
    lowercase_is(&v, 0, v.len(), w)
}

/// Whether `s`, with ASCII capitals made small, begins with `c`.
pub fn starts_with_lowercase(s: &str, c: char) -> (b: bool)
    ensures
        b == starts_with(lowercase(s@), c),
{
    let v = chars_of(s);
    v.len() > 0 && lower_char(v[0]) == c
}

/// Whether `s` begins with `c`.
pub fn begins_with(s: &str, c: char) -> (b: bool)
    ensures
        b == starts_with(s@, c),
{
    let v = chars_of(s);
    v.len() > 0 && v[0] == c
}

/// The text of `s` from character `from` on, with every `c` taken out.
pub fn string_without(s: &str, from: usize, c: char) -> (r: String)
    requires
        from <= s@.len(),
    ensures
        r@ == without(s@.subrange(from as int, s@.len() as int), c),
{
    let n = s.unicode_len();
    let mut r = String::new();
    let mut i = from;
    while i < n
        invariant
            n == s@.len(),
            from <= i <= n,
            r@ == without(s@.subrange(from as int, i as int), c),
        decreases n - i,
    {
        let ch = s.get_char(i);
        let ghost before = s@.subrange(from as int, i as int);
        let ghost after = s@.subrange(from as int, i + 1);
        assert(after.drop_last() =~= before);
        if ch != c {
            let piece = s.substring_char(i, i + 1);
            assert(piece@ =~= seq![ch]);
            r.append(piece);
        }
        i += 1;
    }
    r
}

/// The ASCII digits of `v`, in order.
pub fn ascii_digits_of(v: &Vec<char>) -> (d: Vec<char>)
    ensures
        d@ == ascii_digits(v@),
{
    let mut d: Vec<char> = Vec::new();
    let mut i: usize = 0;
    while i < v.len()
        invariant
            i <= v.len(),
            d@ == ascii_digits(v@.take(i as int)),
        decreases v.len() - i,
    {
        assert(v@.take(i + 1).drop_last() =~= v@.take(i as int));
        if is_ascii_digit_char(v[i]) {
            d.push(v[i]);
        }
        i += 1;
    }
    assert(v@.take(v.len() as int) =~= v@);
    d
}

/// `digits` read in `radix`, where no value above `max` is accepted.
fn parse_digits(v: &Vec<char>, from: usize, to: usize, radix: u32, max: u64) -> (r: Option<u64>)
    requires
        from <= to <= v.len(),
        2 <= radix <= 16,
    ensures
        ({
            let d = v@.subrange(from as int, to as int);
            r == if d.len() > 0 && all_digits(d, radix as nat) && value_in_radix(d, radix as nat)
                <= max {
                Some(value_in_radix(d, radix as nat) as u64)
            } else {
                None
            }
        }),
{
    let ghost d = v@.subrange(from as int, to as int);
    if from == to {
        return None;
    }
    let mut acc: u64 = 0;
    let mut i = from;
    while i < to
        invariant
            from <= i <= to <= v.len(),
            2 <= radix <= 16,
            d == v@.subrange(from as int, to as int),
            all_digits(d.take(i - from), radix as nat),
            acc == value_in_radix(d.take(i - from), radix as nat),
            acc <= max,
        decreases to - i,
    {
        let dv = char_digit(v[i]);
        let ghost k = i - from;
        assert(d.take(k + 1).drop_last() =~= d.take(k));
        assert(d.take(k + 1).last() == v@[i as int]);
        if dv >= radix {
            assert(!all_digits(d, radix as nat)) by {
                assert(d[k] == v@[i as int]);
            }
            return None;
        }
        assert((acc as u128) * (radix as u128) <= 0xffff_ffff_ffff_ffffu128 * 16) by (nonlinear_arith)
            requires
                acc <= 0xffff_ffff_ffff_ffffu64,
                radix <= 16,
        ;
        let next: u128 = (acc as u128) * (radix as u128) + (dv as u128);
        if next > max as u128 {
            proof {
                lemma_value_prefix(d, radix as nat, k + 1);
            }
            return None;
        }
        acc = next as u64;
        i += 1;
    }
    assert(d.take(to - from) =~= d);
    Some(acc)
}

/// The digit value of `c`, as [`digit_value`] gives it.
fn char_digit(c: char) -> (d: u32)
    ensures
        d == digit_value(c),
{
    let n = c as u32;
    if 48 <= n && n <= 57 {
        n - 48
    } else if 97 <= n && n <= 122 {
        n - 87
    } else if 65 <= n && n <= 90 {
        n - 55
    } else {
        36
    }
}

/// `v[from..to]` read as an unsigned number in `radix` whose largest value is
/// `max`, as `from_str_radix` reads it.
pub fn parse_unsigned_in(v: &Vec<char>, from: usize, to: usize, radix: u32, max: u64) -> (r:
    Option<u64>)
    requires
        from <= to <= v.len(),
        2 <= radix <= 16,
    ensures
        r == match parse_unsigned(v@.subrange(from as int, to as int), radix as nat, max as nat) {
            Some(n) => Some(n as u64),
            None => None,
        },
{
    let ghost s = v@.subrange(from as int, to as int);
    if from < to && v[from] == '+' {
        assert(s.drop_first() =~= v@.subrange(from + 1, to as int));
        parse_digits(v, from + 1, to, radix, max)
    } else {
        parse_digits(v, from, to, radix, max)
    }
}

/// `n` written in decimal.
pub fn decimal_string(n: usize) -> (r: String)
    ensures
        r@ == decimal(n as nat),
    decreases n,
{
    let digits = "0123456789";
    proof {
        reveal_strlit("0123456789");
    }
    let d = n % 10;
    let last = digits.substring_char(d, d + 1);
    assert(last@ =~= seq![digit_char(d as nat)]);
    if n < 10 {
        String::from_str(last)
    } else {
        let mut r = decimal_string(n / 10);
        r.append(last);
        r
    }
}

} // verus!
