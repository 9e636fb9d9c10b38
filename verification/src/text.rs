//! Character-level helpers: whitespace trimming, decimal numbers, UTF-8 text.

use vstd::prelude::*;
use vstd::utf8::*;

verus! {

/// The Unicode `White_Space` property.
pub open spec fn is_white_space(c: char) -> bool {
    let u = c as u32;
    ||| 0x09 <= u <= 0x0d
    ||| u == 0x20
    ||| u == 0x85
    ||| u == 0xa0
    ||| u == 0x1680
    ||| 0x2000 <= u <= 0x200a
    ||| u == 0x2028
    ||| u == 0x2029
    ||| u == 0x202f
    ||| u == 0x205f
    ||| u == 0x3000
}

/// Whether `c` has the Unicode `White_Space` property, as
/// `char::is_whitespace` tells.
pub fn char_is_whitespace(c: char) -> (r: bool)
    ensures
        r == is_white_space(c),
{
    let u = c as u32;
    (0x09 <= u && u <= 0x0d) || u == 0x20 || u == 0x85 || u == 0xa0 || u == 0x1680 || (0x2000
        <= u && u <= 0x200a) || u == 0x2028 || u == 0x2029 || u == 0x202f || u == 0x205f || u
        == 0x3000
}

/// `s` with leading white space removed.
pub open spec fn trim_start(s: Seq<char>) -> Seq<char>
    decreases s.len(),
{
    if s.len() > 0 && is_white_space(s[0]) {
        trim_start(s.drop_first())
    } else {
        s
    }
}

/// `s` with trailing white space removed.
pub open spec fn trim_end(s: Seq<char>) -> Seq<char>
    decreases s.len(),
{
    if s.len() > 0 && is_white_space(s.last()) {
        trim_end(s.drop_last())
    } else {
        s
    }
}

/// `s` with white space removed at both ends, as `str::trim` does.
pub open spec fn trim(s: Seq<char>) -> Seq<char> {
    trim_end(trim_start(s))
}

/// Whether `s` holds a character that is not white space.
pub open spec fn has_non_white_space(s: Seq<char>) -> bool {
    exists|i: int| 0 <= i < s.len() && !is_white_space(#[trigger] s[i])
}

proof fn lemma_trim_start_skip(s: Seq<char>, i: int)
    requires
        0 <= i <= s.len(),
        forall|k: int| 0 <= k < i ==> is_white_space(#[trigger] s[k]),
    ensures
        trim_start(s) == trim_start(s.skip(i)),
    decreases i,
{
    if i > 0 {
        assert(s.skip(1) == s.drop_first());
        lemma_trim_start_skip(s.drop_first(), i - 1);
        assert(s.drop_first().skip(i - 1) =~= s.skip(i));
    } else {
        assert(s.skip(0) =~= s);
    }
}

proof fn lemma_trim_end_take(s: Seq<char>, j: int)
    requires
        0 <= j <= s.len(),
        forall|k: int| j <= k < s.len() ==> is_white_space(#[trigger] s[k]),
    ensures
        trim_end(s) == trim_end(s.take(j)),
    decreases s.len() - j,
{
    if j < s.len() {
        assert(s.take(s.len() - 1) =~= s.drop_last());
        lemma_trim_end_take(s.drop_last(), j);
        assert(s.drop_last().take(j) =~= s.take(j));
    } else {
        assert(s.take(j) =~= s);
    }
}

/// The bounds `(start, end)` of `trim(s@.subrange(from, to))` inside `s`.
pub fn trim_range(s: &[char], from: usize, to: usize) -> (r: (usize, usize))
    requires
        from <= to <= s@.len(),
    ensures
        from <= r.0 <= r.1 <= to,
        s@.subrange(r.0 as int, r.1 as int) == trim(s@.subrange(from as int, to as int)),
{
    let ghost whole = s@.subrange(from as int, to as int);
    let mut i = from;
    while i < to && char_is_whitespace(s[i])
        invariant
            from <= i <= to <= s@.len(),
            whole == s@.subrange(from as int, to as int),
            forall|k: int| from <= k < i ==> is_white_space(#[trigger] s@[k]),
        decreases to - i,
    {
        i = i + 1;
    }
    proof {
        assert forall|k: int| 0 <= k < i - from implies is_white_space(#[trigger] whole[k]) by {
            assert(whole[k] == s@[from + k]);
        }
        lemma_trim_start_skip(whole, i - from);
        assert(whole.skip(i - from) =~= s@.subrange(i as int, to as int));
        let rest = s@.subrange(i as int, to as int);
        assert(!(rest.len() > 0 && is_white_space(rest[0])));
        assert(trim_start(rest) == rest);
    }
    let mut j = to;
    while j > i && char_is_whitespace(s[j - 1])
        invariant
            from <= i <= j <= to <= s@.len(),
            forall|k: int| j <= k < to ==> is_white_space(#[trigger] s@[k]),
        decreases j - i,
    {
        j = j - 1;
    }
    proof {
        let rest = s@.subrange(i as int, to as int);
        assert forall|k: int| j - i <= k < rest.len() implies is_white_space(#[trigger] rest[k]) by {
            assert(rest[k] == s@[i + k]);
        }
        lemma_trim_end_take(rest, j - i);
        assert(rest.take(j - i) =~= s@.subrange(i as int, j as int));
        let kept = s@.subrange(i as int, j as int);
        assert(!(kept.len() > 0 && is_white_space(kept.last())));
        assert(trim_end(kept) == kept);
    }
    (i, j)
}

/// The value of a decimal digit character.
pub open spec fn digit_value(c: char) -> nat {
    ((c as u32) - ('0' as u32)) as nat
}

pub open spec fn is_digit(c: char) -> bool {
    '0' <= c <= '9'
}

/// The number that a sequence of decimal digits spells.
pub open spec fn digits_value(s: Seq<char>) -> nat
    decreases s.len(),
{
    if s.len() == 0 {
        0
    } else {
        digits_value(s.drop_last()) * 10 + digit_value(s.last())
    }
}

pub open spec fn all_digits(s: Seq<char>) -> bool {
    forall|i: int| 0 <= i < s.len() ==> is_digit(#[trigger] s[i])
}

/// What `str::parse` reads as an unsigned integer, before the range check of
/// the target type: an optional `+`, then one or more decimal digits.
pub open spec fn unsigned_value(s: Seq<char>) -> Option<nat> {
    let d = unsigned_digits(s);
    if d.len() > 0 && all_digits(d) {
        Some(digits_value(d))
    } else {
        None
    }
}

/// `s` without one leading `+`.
pub open spec fn unsigned_digits(s: Seq<char>) -> Seq<char> {
    if s.len() > 0 && s[0] == '+' {
        s.drop_first()
    } else {
        s
    }
}

/// `str::parse::<usize>` on `s`.
pub open spec fn parse_usize(s: Seq<char>) -> Option<usize> {
    match unsigned_value(s) {
        Some(v) => if v <= usize::MAX { Some(v as usize) } else { None },
        None => None,
    }
}

/// `str::parse::<u32>` on `s`.
pub open spec fn parse_u32(s: Seq<char>) -> Option<u32> {
    match unsigned_value(s) {
        Some(v) => if v <= u32::MAX { Some(v as u32) } else { None },
        None => None,
    }
}

/// `str::parse::<u64>` on `s`.
pub open spec fn parse_u64(s: Seq<char>) -> Option<u64> {
    match unsigned_value(s) {
        Some(v) => if v <= u64::MAX { Some(v as u64) } else { None },
        None => None,
    }
}

proof fn lemma_digits_value_push(s: Seq<char>, c: char)
    ensures
        digits_value(s.push(c)) == digits_value(s) * 10 + digit_value(c),
{
    assert(s.push(c).drop_last() =~= s);
}

proof fn lemma_digits_value_monotone(s: Seq<char>, i: int)
    requires
        0 <= i <= s.len(),
    ensures
        digits_value(s.take(i)) <= digits_value(s),
    decreases s.len() - i,
{
    if i < s.len() {
        lemma_digits_value_monotone(s, i + 1);
        assert(s.take(i + 1) =~= s.take(i).push(s[i]));
        lemma_digits_value_push(s.take(i), s[i]);
    } else {
        assert(s.take(i) =~= s);
    }
}

/// Reads `s@.subrange(from, to)`, which must be one or more decimal digits
/// and nothing else, as a number no larger than `max`; `None` otherwise.
pub fn parse_digits(s: &[char], from: usize, to: usize, max: u64) -> (r: Option<u64>)
    requires
        from <= to <= s@.len(),
    ensures
        r == (if to > from && all_digits(s@.subrange(from as int, to as int)) && digits_value(
            s@.subrange(from as int, to as int),
        ) <= max {
            Some(digits_value(s@.subrange(from as int, to as int)) as u64)
        } else {
            None::<u64>
        }),
{
    let ghost d = s@.subrange(from as int, to as int);
    if from == to {
        return None;
    }
    let mut value: u64 = 0;
    let mut i = from;
    while i < to
        invariant
            from <= i <= to <= s@.len(),
            d == s@.subrange(from as int, to as int),
            d.len() > 0,
            all_digits(d.take(i - from)),
            value == digits_value(d.take(i - from)),
            value <= max,
        decreases to - i,
    {
        let c = s[i];
        if !(c >= '0' && c <= '9') {
            assert(d[i - from] == c);
            assert(!is_digit(d[i - from]));
            assert(!all_digits(d));
            return None;
        }
        let dv = (c as u32 - '0' as u32) as u64;
        proof {
            assert(d.take(i + 1 - from) =~= d.take(i - from).push(c));
            lemma_digits_value_push(d.take(i - from), c);
        }
        if dv > max || value > (max - dv) / 10 {
            proof {
                assert(value * 10 + dv > max) by (nonlinear_arith)
                    requires
                        dv > max || value > (max - dv) / 10,
                ;
                if all_digits(d) {
                    lemma_digits_value_monotone(d, i + 1 - from);
                }
            }
            return None;
        }
        proof {
            assert(value * 10 + dv <= max) by (nonlinear_arith)
                requires
                    value <= (max - dv) / 10,
                    dv <= max,
            ;
        }
        value = value * 10 + dv;
        i = i + 1;
    }
    assert(d.take(to - from) =~= d);
    Some(value)
}

/// Reads `s@.subrange(from, to)` as an unsigned number no larger than `max`:
/// the number when it is one, `None` otherwise.
pub fn parse_unsigned(s: &[char], from: usize, to: usize, max: u64) -> (r: Option<u64>)
    requires
        from <= to <= s@.len(),
    ensures
        r == (match unsigned_value(s@.subrange(from as int, to as int)) {
            Some(v) => if v <= max { Some(v as u64) } else { None },
            None => None,
        }),
{
    let ghost text = s@.subrange(from as int, to as int);
    let mut start = from;
    if start < to && s[start] == '+' {
        start = start + 1;
    }
    assert(s@.subrange(start as int, to as int) =~= unsigned_digits(text));
    parse_digits(s, start, to, max)
}

/// What `str::parse` reads as a signed integer, before the range check of
/// the target type: an optional `+` or `-`, then one or more decimal digits.
pub open spec fn signed_value(s: Seq<char>) -> Option<int> {
    if s.len() > 0 && s[0] == '-' {
        let d = s.drop_first();
        if d.len() > 0 && all_digits(d) {
            Some(-(digits_value(d) as int))
        } else {
            None
        }
    } else {
        match unsigned_value(s) {
            Some(v) => Some(v as int),
            None => None,
        }
    }
}

/// `str::parse::<i64>` on `s`.
pub open spec fn parse_i64(s: Seq<char>) -> Option<i64> {
    match signed_value(s) {
        Some(v) => if i64::MIN <= v <= i64::MAX { Some(v as i64) } else { None },
        None => None,
    }
}

/// `str::parse::<i64>` on `text`.
pub fn parse_i64_text(text: &str) -> (r: Option<i64>)
    ensures
        r == parse_i64(text@),
{
    let chars = chars_of(text);
    let s = chars.as_slice();
    assert(s@.subrange(0, s@.len() as int) =~= s@);
    if s.len() > 0 && s[0] == '-' {
        assert(s@.subrange(1, s@.len() as int) =~= s@.drop_first());
        match parse_digits(s, 1, s.len(), 0x8000_0000_0000_0000u64) {
            Some(m) => {
                if m == 0x8000_0000_0000_0000u64 {
                    Some(i64::MIN)
                } else {
                    Some(-(m as i64))
                }
            },
            None => None,
        }
    } else {
        match parse_unsigned(s, 0, s.len(), 0x7fff_ffff_ffff_ffffu64) {
            Some(m) => Some(m as i64),
            None => None,
        }
    }
}

/// `str::parse::<u32>` on `text`.
pub fn parse_u32_text(text: &str) -> (r: Option<u32>)
    ensures
        r == parse_u32(text@),
{
    let chars = chars_of(text);
    let s = chars.as_slice();
    assert(s@.subrange(0, s@.len() as int) =~= s@);
    match parse_unsigned(s, 0, s.len(), u32::MAX as u64) {
        Some(m) => Some(m as u32),
        None => None,
    }
}

/// `str::parse::<u64>` on `text`.
pub fn parse_u64_text(text: &str) -> (r: Option<u64>)
    ensures
        r == parse_u64(text@),
{
    let chars = chars_of(text);
    let s = chars.as_slice();
    assert(s@.subrange(0, s@.len() as int) =~= s@);
    parse_unsigned(s, 0, s.len(), u64::MAX)
}

/// The character of a decimal digit `d < 10`.
pub open spec fn digit_char(d: nat) -> char {
    (d + 48) as char
}

/// The decimal spelling of `n`, without sign or leading zeros.
pub open spec fn decimal_text(n: nat) -> Seq<char>
    decreases n,
{
    if n < 10 {
        seq![digit_char(n)]
    } else {
        decimal_text(n / 10).push(digit_char(n % 10))
    }
}

/// `String::push`.
#[verifier::external_body]
pub(crate) fn string_push(s: &mut String, c: char)
    ensures
        final(s)@ == old(s)@.push(c),
{
    s.push(c);
}

/// Appends the decimal spelling of `n` to `out`.
pub fn push_decimal(out: &mut String, n: usize)
    ensures
        final(out)@ == old(out)@ + decimal_text(n as nat),
    decreases n,
{
    let ghost start = out@;
    if n >= 10 {
        push_decimal(out, n / 10);
    }
    let d = (n % 10) as u8;
    let c = (48u8 + d) as char;
    assert(c == digit_char((n % 10) as nat));
    string_push(out, c);
    proof {
        if n >= 10 {
            assert(out@ =~= start + decimal_text(n as nat));
        } else {
            assert(out@ =~= start + decimal_text(n as nat));
        }
    }
}

/// `char::to_ascii_lowercase`: `'A'..='Z'` become `'a'..='z'`, every other
/// character stays as it is.
pub open spec fn ascii_lower(c: char) -> char {
    if 'A' <= c <= 'Z' {
        ((c as u32) + 32) as char
    } else {
        c
    }
}

/// `c` lower-cased as ASCII, as `char::to_ascii_lowercase` does.
pub fn char_to_ascii_lowercase(c: char) -> (r: char)
    ensures
        r == ascii_lower(c),
{
    if c >= 'A' && c <= 'Z' {
        let b = (c as u32 + 32) as u8;
        let r = b as char;
        assert(r == ascii_lower(c));
        r
    } else {
        c
    }
}

/// `std::str::from_utf8`: documented to succeed exactly on valid UTF-8, and
/// then to hold the characters that the bytes encode.
#[verifier::external_body]
pub(crate) fn str_from_utf8(bytes: &[u8]) -> (r: Option<&str>)
    ensures
        r is Some <==> valid_utf8(bytes@),
        r matches Some(s) ==> s@ == decode_utf8(bytes@),
{
    std::str::from_utf8(bytes).ok()
}

/// The characters of `s`, in order.
pub fn chars_of(s: &str) -> (v: Vec<char>)
    ensures
        v@ == s@,
{
    let mut v: Vec<char> = Vec::new();
    for c in it: s.chars()
        invariant
            v@ == it.seq().take(it.index() as int),
    {
        v.push(c);
    }
    v
}

/// The first position at or after `from` where `s` holds `x`; `s.len()` when
/// there is none.
pub open spec fn index_of<T>(s: Seq<T>, x: T, from: int) -> int
    decreases s.len() - from,
{
    if from >= s.len() {
        s.len() as int
    } else if s[from] == x {
        from
    } else {
        index_of(s, x, from + 1)
    }
}

pub proof fn lemma_index_of<T>(s: Seq<T>, x: T, from: int)
    requires
        0 <= from <= s.len(),
    ensures
        from <= index_of(s, x, from) <= s.len(),
        index_of(s, x, from) < s.len() ==> s[index_of(s, x, from)] == x,
        forall|k: int| from <= k < index_of(s, x, from) ==> s[k] != x,
    decreases s.len() - from,
{
    if from < s.len() && s[from] != x {
        lemma_index_of(s, x, from + 1);
    }
}

/// `index_of(s@, c, from)` for characters.
pub fn find_char(s: &[char], c: char, from: usize) -> (r: usize)
    requires
        from <= s@.len(),
    ensures
        r == index_of(s@, c, from as int),
{
    let mut i = from;
    while i < s.len() && s[i] != c
        invariant
            from <= i <= s@.len(),
            index_of(s@, c, i as int) == index_of(s@, c, from as int),
        decreases s@.len() - i,
    {
        i = i + 1;
    }
    i
}

/// `index_of(s@, b, from)` for bytes.
pub fn find_byte(s: &[u8], b: u8, from: usize) -> (r: usize)
    requires
        from <= s@.len(),
    ensures
        r == index_of(s@, b, from as int),
{
    let mut i = from;
    while i < s.len() && s[i] != b
        invariant
            from <= i <= s@.len(),
            index_of(s@, b, i as int) == index_of(s@, b, from as int),
        decreases s@.len() - i,
    {
        i = i + 1;
    }
    i
}

/// Whether `s@.subrange(start, end)` begins with `prefix@`.
pub fn bytes_start_with(s: &[u8], start: usize, end: usize, prefix: &[u8]) -> (r: bool)
    requires
        start <= end <= s@.len(),
    ensures
        r == (prefix@.len() <= end - start && s@.subrange(
            start as int,
            start + prefix@.len(),
        ) == prefix@),
{
    if prefix.len() > end - start {
        return false;
    }
    let mut k: usize = 0;
    while k < prefix.len()
        invariant
            start <= end <= s@.len(),
            prefix@.len() <= end - start,
            0 <= k <= prefix@.len(),
            forall|j: int| 0 <= j < k ==> s@[start + j] == prefix@[j],
        decreases prefix@.len() - k,
    {
        if s[start + k] != prefix[k] {
            assert(s@.subrange(start as int, start + prefix@.len())[k as int] != prefix@[k as int]);
            return false;
        }
        k = k + 1;
    }
    assert(s@.subrange(start as int, start + prefix@.len()) =~= prefix@);
    true
}

/// Whether `s@.subrange(start, end)` is exactly `word@`.
pub fn bytes_equal(s: &[u8], start: usize, end: usize, word: &[u8]) -> (r: bool)
    requires
        start <= end <= s@.len(),
    ensures
        r == (s@.subrange(start as int, end as int) == word@),
{
    if end - start != word.len() {
        assert(s@.subrange(start as int, end as int).len() != word@.len());
        return false;
    }
    let r = bytes_start_with(s, start, end, word);
    assert(r == (s@.subrange(start as int, end as int) =~= word@));
    r
}

/// Whether `a` and `b` hold the same characters.
pub fn text_equals(a: &str, b: &str) -> (r: bool)
    ensures
        r == (a@ == b@),
{
    let x = chars_of(a);
    let y = chars_of(b);
    if x.len() != y.len() {
        return false;
    }
    let mut i: usize = 0;
    while i < x.len()
        invariant
            x@ == a@,
            y@ == b@,
            x@.len() == y@.len(),
            0 <= i <= x@.len(),
            forall|k: int| 0 <= k < i ==> x@[k] == y@[k],
        decreases x@.len() - i,
    {
        if x[i] != y[i] {
            return false;
        }
        i = i + 1;
    }
    assert(x@ =~= y@);
    true
}

/// Whether `needle` occurs in `hay` as a run of consecutive characters.
pub open spec fn contains_text(hay: Seq<char>, needle: Seq<char>) -> bool {
    exists|i: int|
        0 <= i && i + needle.len() <= hay.len() && #[trigger] hay.subrange(i, i + needle.len())
            == needle
}

/// Whether `h@` holds `n@` at position `i`.
fn chars_match_at(h: &[char], i: usize, n: &[char]) -> (r: bool)
    requires
        i + n@.len() <= h@.len(),
    ensures
        r == (h@.subrange(i as int, i + n@.len()) == n@),
{
    let hl = h.len();
    let mut j: usize = 0;
    while j < n.len()
        invariant
            hl == h@.len(),
            i + n@.len() <= h@.len(),
            0 <= j <= n@.len(),
            forall|k: int| 0 <= k < j ==> h@[i + k] == n@[k],
        decreases n@.len() - j,
    {
        if h[i + j] != n[j] {
            assert(h@.subrange(i as int, i + n@.len())[j as int] != n@[j as int]);
            return false;
        }
        j = j + 1;
    }
    assert(h@.subrange(i as int, i + n@.len()) =~= n@);
    true
}

/// Whether `needle` occurs in `hay` (see `contains_text`).
pub fn text_contains(hay: &str, needle: &str) -> (r: bool)
    ensures
        r == contains_text(hay@, needle@),
{
    let h = chars_of(hay);
    let n = chars_of(needle);
    if n.len() > h.len() {
        return false;
    }
    if n.len() == 0 {
        assert(hay@.subrange(0int, 0int + needle@.len()) =~= needle@);
        return true;
    }
    let hl = h.len();
    let mut i: usize = 0;
    while i <= h.len() - n.len()
        invariant
            hl == h@.len(),
            h@ == hay@,
            n@ == needle@,
            0 < n@.len() <= h@.len(),
            0 <= i <= h@.len() - n@.len() + 1,
            forall|k: int| 0 <= k < i ==> #[trigger] h@.subrange(k, k + n@.len()) != n@,
        decreases h@.len() - n@.len() + 1 - i,
    {
        if chars_match_at(h.as_slice(), i, n.as_slice()) {
            return true;
        }
        i = i + 1;
    }
    proof {
        assert forall|k: int|
            0 <= k && k + needle@.len() <= hay@.len() implies #[trigger] hay@.subrange(
            k,
            k + needle@.len(),
        ) != needle@ by {
            assert(h@.subrange(k, k + n@.len()) != n@);
        }
    }
    false
}

/// The items of `list` written one after the other with `sep` between
/// every two of them.
pub open spec fn seq_join(list: Seq<Seq<char>>, sep: Seq<char>) -> Seq<char>
    decreases list.len(),
{
    if list.len() == 0 {
        Seq::empty()
    } else if list.len() == 1 {
        list[0]
    } else {
        seq_join(list.drop_last(), sep) + sep + list.last()
    }
}

/// The texts of `list`.
pub open spec fn texts(list: Seq<String>) -> Seq<Seq<char>> {
    list.map_values(|s: String| s@)
}

/// The items of `list` joined by `sep` (see `seq_join`).
pub fn join_texts(list: &Vec<String>, sep: &str) -> (r: String)
    ensures
        r@ == seq_join(texts(list@), sep@),
{
    let mut out = String::new();
    let ghost all = texts(list@);
    let mut i: usize = 0;
    while i < list.len()
        invariant
            all == texts(list@),
            0 <= i <= list@.len(),
            out@ == seq_join(all.take(i as int), sep@),
        decreases list@.len() - i,
    {
        proof {
            assert(all.take(i + 1).drop_last() =~= all.take(i as int));
        }
        if i > 0 {
            out.append(sep);
        }
        out.append(list[i].as_str());
        proof {
            if i == 0 {
                assert(out@ =~= seq_join(all.take(1), sep@));
            }
        }
        i = i + 1;
    }
    assert(all.take(list@.len() as int) =~= all);
    out
}

/// `s` without its trailing `'/'` characters.
pub open spec fn trim_end_slashes(s: Seq<char>) -> Seq<char>
    decreases s.len(),
{
    if s.len() > 0 && s.last() == '/' {
        trim_end_slashes(s.drop_last())
    } else {
        s
    }
}

/// `base` without its trailing slashes, followed by `suffix`.
pub fn join_url(base: &str, suffix: &str) -> (r: String)
    ensures
        r@ == trim_end_slashes(base@) + suffix@,
{
    let chars = chars_of(base);
    let mut end = chars.len();
    assert(chars@.take(end as int) =~= chars@);
    while end > 0 && chars[end - 1] == '/'
        invariant
            chars@ == base@,
            end <= chars@.len(),
            trim_end_slashes(chars@.take(end as int)) == trim_end_slashes(base@),
        decreases end,
    {
        assert(chars@.take(end - 1) =~= chars@.take(end as int).drop_last());
        end = end - 1;
    }
    let mut out = String::new();
    let mut i: usize = 0;
    while i < end
        invariant
            chars@ == base@,
            end <= chars@.len(),
            0 <= i <= end,
            out@ == chars@.take(i as int),
        decreases end - i,
    {
        string_push(&mut out, chars[i]);
        assert(chars@.take(i + 1) =~= chars@.take(i as int).push(chars@[i as int]));
        i = i + 1;
    }
    assert(trim_end_slashes(chars@.take(end as int)) == chars@.take(end as int));
    out.append(suffix);
    out
}

/// What `{:?}` writes for a `str`: the text quoted and escaped.
pub uninterp spec fn str_debug(s: Seq<char>) -> Seq<char>;

/// `<str as Debug>::fmt` through `format!("{:?}", ..)`.
#[verifier::external_body]
pub(crate) fn debug_quoted(s: &str) -> (r: String)
    ensures
        r@ == str_debug(s@),
{
    format!("{:?}", s)
}

/// The decimal spelling of a number is one or more digits that read back
/// as the number.
pub(crate) proof fn lemma_decimal_text(n: nat)
    ensures
        decimal_text(n).len() > 0,
        all_digits(decimal_text(n)),
        digits_value(decimal_text(n)) == n,
        decimal_text(n)[0] != '+',
    decreases n,
{
    let c = digit_char(n % 10);
    assert(((n % 10) + 48) < 0xD800) by (nonlinear_arith);
    assert((c as u32) == (n % 10) + 48);
    assert(is_digit(c));
    assert(digit_value(c) == n % 10);
    if n < 10 {
        assert(n % 10 == n);
        assert(decimal_text(n) =~= seq![c]);
        assert(seq![c].drop_last() =~= Seq::<char>::empty());
        assert(digits_value(Seq::<char>::empty()) == 0);
        assert(digits_value(seq![c]) == digits_value(seq![c].drop_last()) * 10 + digit_value(
            seq![c].last(),
        ));
    } else {
        lemma_decimal_text(n / 10);
        let p = decimal_text(n / 10);
        assert(decimal_text(n) == p.push(c));
        lemma_digits_value_push(p, c);
        assert((n / 10) * 10 + n % 10 == n) by (nonlinear_arith);
        assert(digits_value(p.push(c)) == n);
        assert(p.push(c)[0] == p[0]);
    }
}

/// A number read back from its decimal spelling is the number: the
/// `usize` reading of `decimal_text(n)` is `n`.
pub proof fn law_decimal_read_back(n: usize)
    ensures
        parse_usize(decimal_text(n as nat)) == Some(n),
{
    lemma_decimal_text(n as nat);
    let d = decimal_text(n as nat);
    assert(unsigned_digits(d) == d);
}

/// Trimming a space before and a carriage return after a run of digits
/// leaves the digits.
pub(crate) proof fn lemma_trim_padded_digits(d: Seq<char>)
    requires
        d.len() > 0,
        all_digits(d),
    ensures
        trim(seq![' '] + d + seq!['\r']) == d,
{
    let x = seq![' '] + d + seq!['\r'];
    let y = d + seq!['\r'];
    assert(x[0] == ' ');
    assert(is_white_space(' '));
    assert(x.drop_first() =~= y);
    assert(trim_start(x) == trim_start(y));
    assert(is_digit(d[0]));
    assert(y[0] == d[0]);
    assert(!is_white_space(y[0]));
    assert(trim_start(y) == y);
    assert(y.last() == '\r');
    assert(is_white_space('\r'));
    assert(y.drop_last() =~= d);
    assert(trim_end(y) == trim_end(d));
    assert(is_digit(d.last()));
    assert(trim_end(d) == d);
}

/// The decimal spelling of every number is a run of one or more digits,
/// without sign, that spells the number.
pub proof fn law_decimal_spelling(n: nat)
    ensures
        decimal_text(n).len() > 0,
        forall|i: int| 0 <= i < decimal_text(n).len() ==> '0' <= #[trigger] decimal_text(n)[i] <= '9',
        digits_value(decimal_text(n)) == n,
{
    lemma_decimal_text(n);
}

/// Every `u32`, zero included, is read back from its decimal spelling.
pub proof fn law_u32_read_back(n: u32)
    ensures
        parse_u32(decimal_text(n as nat)) == Some(n),
{
    lemma_decimal_text(n as nat);
    assert(unsigned_digits(decimal_text(n as nat)) == decimal_text(n as nat));
}

/// Every `u64`, zero included, is read back from its decimal spelling.
pub proof fn law_u64_read_back(n: u64)
    ensures
        parse_u64(decimal_text(n as nat)) == Some(n),
{
    lemma_decimal_text(n as nat);
    assert(unsigned_digits(decimal_text(n as nat)) == decimal_text(n as nat));
}

/// Every `i64` from zero up is read back from its decimal spelling, and
/// every negative one from its spelling after a `-`.
pub proof fn law_i64_read_back(n: i64)
    ensures
        n >= 0 ==> parse_i64(decimal_text(n as nat)) == Some(n),
        n < 0 ==> parse_i64(seq!['-'] + decimal_text((-(n as int)) as nat)) == Some(n),
{
    if n >= 0 {
        lemma_decimal_text(n as nat);
        let d = decimal_text(n as nat);
        assert(d[0] != '-');
        assert(unsigned_digits(d) == d);
    } else {
        let m = (-(n as int)) as nat;
        lemma_decimal_text(m);
        let d = decimal_text(m);
        let s = seq!['-'] + d;
        assert(s[0] == '-');
        assert(s.drop_first() =~= d);
    }
}

/// A leading `+` is allowed before the digits of an unsigned number, and
/// reads the same as the digits alone.
pub proof fn law_plus_sign(d: Seq<char>)
    requires
        d.len() > 0,
        d[0] != '+',
    ensures
        unsigned_value(seq!['+'] + d) == unsigned_value(d),
{
    assert((seq!['+'] + d).drop_first() =~= d);
}

} // verus!
