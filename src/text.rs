use vstd::prelude::*;
use vstd::string::StringExecFns;

verus! {

/// ASCII whitespace.
pub open spec fn is_ws(b: u8) -> bool {
    b == 0x20u8 || b == 0x09u8 || b == 0x0au8 || b == 0x0bu8 || b == 0x0cu8 || b == 0x0du8
}

/// Whether three bytes encode one of the three-byte Unicode whitespace
/// characters: U+1680, U+2000 to U+200A, U+2028, U+2029, U+202F, U+205F
/// and U+3000.
pub open spec fn is_ws3(a: u8, b: u8, c: u8) -> bool {
    ||| (a == 0xe1u8 && b == 0x9au8 && c == 0x80u8)
    ||| (a == 0xe2u8 && b == 0x80u8 && ((0x80u8 <= c && c <= 0x8au8) || c == 0xa8u8 || c
        == 0xa9u8 || c == 0xafu8))
    ||| (a == 0xe2u8 && b == 0x81u8 && c == 0x9fu8)
    ||| (a == 0xe3u8 && b == 0x80u8 && c == 0x80u8)
}

/// Whether two bytes encode U+0085 or U+00A0.
pub open spec fn is_ws2(a: u8, b: u8) -> bool {
    a == 0xc2u8 && (b == 0x85u8 || b == 0xa0u8)
}

/// Length of the UTF-8 encoding of a whitespace character (Unicode
/// White_Space) at the start of `s`, or 0.
pub open spec fn ws_head(s: Seq<u8>) -> int {
    if s.len() >= 1 && is_ws(s[0]) {
        1
    } else if s.len() >= 2 && is_ws2(s[0], s[1]) {
        2
    } else if s.len() >= 3 && is_ws3(s[0], s[1], s[2]) {
        3
    } else {
        0
    }
}

/// Length of the UTF-8 encoding of a whitespace character at the end of
/// `s`, or 0.
pub open spec fn ws_tail(s: Seq<u8>) -> int {
    let n = s.len() as int;
    if n >= 1 && is_ws(s[n - 1]) {
        1
    } else if n >= 2 && is_ws2(s[n - 2], s[n - 1]) {
        2
    } else if n >= 3 && is_ws3(s[n - 3], s[n - 2], s[n - 1]) {
        3
    } else {
        0
    }
}

/// Number of leading whitespace bytes of `s`.
pub open spec fn leading_ws(s: Seq<u8>) -> nat
    decreases s.len(),
{
    if ws_head(s) > 0 {
        (ws_head(s) + leading_ws(s.skip(ws_head(s)))) as nat
    } else {
        0
    }
}

/// Number of trailing whitespace bytes of `s`.
pub open spec fn trailing_ws(s: Seq<u8>) -> nat
    decreases s.len(),
{
    if ws_tail(s) > 0 {
        (ws_tail(s) + trailing_ws(s.take(s.len() - ws_tail(s)))) as nat
    } else {
        0
    }
}

/// `s` without its leading whitespace.
pub open spec fn trim_start(s: Seq<u8>) -> Seq<u8> {
    s.skip(leading_ws(s) as int)
}

/// `s` without its trailing whitespace.
pub open spec fn trim_end(s: Seq<u8>) -> Seq<u8> {
    s.take(s.len() - trailing_ws(s))
}

/// `s` without leading and trailing whitespace.
pub open spec fn trim(s: Seq<u8>) -> Seq<u8> {
    trim_end(trim_start(s))
}

/// Leading whitespace fits in `s`, and holds none of the bytes `#`, `/`
/// and `-`.
pub proof fn lemma_leading_ws(s: Seq<u8>)
    ensures
        leading_ws(s) <= s.len(),
        forall|i: int|
            0 <= i < leading_ws(s) ==> #[trigger] s[i] != 0x23u8 && s[i] != 0x2fu8 && s[i]
                != 0x2du8,
    decreases s.len(),
{
    let h = ws_head(s);
    if h > 0 {
        lemma_leading_ws(s.skip(h));
        assert forall|i: int| 0 <= i < leading_ws(s) implies #[trigger] s[i] != 0x23u8 && s[i]
            != 0x2fu8 && s[i] != 0x2du8 by {
            if i >= h {
                assert(s[i] == s.skip(h)[i - h]);
            }
        }
    }
}

proof fn lemma_trailing_ws_len(s: Seq<u8>)
    ensures
        trailing_ws(s) <= s.len(),
    decreases s.len(),
{
    let t = ws_tail(s);
    if t > 0 {
        lemma_trailing_ws_len(s.take(s.len() - t));
    }
}

/// Length of the whitespace character at the start of `s[i..end]`.
fn ws_head_at(s: &[u8], i: usize, end: usize) -> (r: usize)
    requires
        i <= end <= s@.len(),
    ensures
        r as int == ws_head(s@.subrange(i as int, end as int)),
        r <= end - i,
{
    let n = end - i;
    let ghost sub = s@.subrange(i as int, end as int);
    if n >= 1 && is_ws_byte(s[i]) {
        assert(sub[0] == s@[i as int]);
        return 1;
    }
    if n >= 2 && s[i] == 0xc2u8 && (s[i + 1] == 0x85u8 || s[i + 1] == 0xa0u8) {
        assert(sub[0] == s@[i as int] && sub[1] == s@[i + 1]);
        return 2;
    }
    if n >= 3 {
        let (a, b, c) = (s[i], s[i + 1], s[i + 2]);
        assert(sub[0] == a && sub[1] == b && sub[2] == c);
        if (a == 0xe1u8 && b == 0x9au8 && c == 0x80u8) || (a == 0xe2u8 && b == 0x80u8 && ((0x80u8
            <= c && c <= 0x8au8) || c == 0xa8u8 || c == 0xa9u8 || c == 0xafu8)) || (a == 0xe2u8
            && b == 0x81u8 && c == 0x9fu8) || (a == 0xe3u8 && b == 0x80u8 && c == 0x80u8) {
            return 3;
        }
    }
    proof {
        if n >= 1 {
            assert(sub[0] == s@[i as int]);
        }
        if n >= 2 {
            assert(sub[1] == s@[i + 1]);
        }
    }
    0
}

/// Length of the whitespace character at the end of `s[start..i]`.
fn ws_tail_at(s: &[u8], start: usize, i: usize) -> (r: usize)
    requires
        start <= i <= s@.len(),
    ensures
        r as int == ws_tail(s@.subrange(start as int, i as int)),
        r <= i - start,
{
    let n = i - start;
    let ghost sub = s@.subrange(start as int, i as int);
    if n >= 1 && is_ws_byte(s[i - 1]) {
        assert(sub[n - 1] == s@[i - 1]);
        return 1;
    }
    if n >= 2 && s[i - 2] == 0xc2u8 && (s[i - 1] == 0x85u8 || s[i - 1] == 0xa0u8) {
        assert(sub[n - 2] == s@[i - 2] && sub[n - 1] == s@[i - 1]);
        return 2;
    }
    if n >= 3 {
        let (a, b, c) = (s[i - 3], s[i - 2], s[i - 1]);
        assert(sub[n - 3] == a && sub[n - 2] == b && sub[n - 1] == c);
        if (a == 0xe1u8 && b == 0x9au8 && c == 0x80u8) || (a == 0xe2u8 && b == 0x80u8 && ((0x80u8
            <= c && c <= 0x8au8) || c == 0xa8u8 || c == 0xa9u8 || c == 0xafu8)) || (a == 0xe2u8
            && b == 0x81u8 && c == 0x9fu8) || (a == 0xe3u8 && b == 0x80u8 && c == 0x80u8) {
            return 3;
        }
    }
    proof {
        if n >= 1 {
            assert(sub[n - 1] == s@[i - 1]);
        }
        if n >= 2 {
            assert(sub[n - 2] == s@[i - 2]);
        }
    }
    0
}

/// Index of the first non-whitespace byte of `s[start..end]`, or `end`.
pub fn skip_ws(s: &[u8], start: usize, end: usize) -> (r: usize)
    requires
        start <= end <= s@.len(),
    ensures
        r == start + leading_ws(s@.subrange(start as int, end as int)),
        start <= r <= end,
{
    let mut i: usize = start;
    loop
        invariant
            start <= i <= end <= s@.len(),
            start + leading_ws(s@.subrange(start as int, end as int)) == i + leading_ws(
                s@.subrange(i as int, end as int),
            ),
        ensures
            start <= i <= end <= s@.len(),
            start + leading_ws(s@.subrange(start as int, end as int)) == i + leading_ws(
                s@.subrange(i as int, end as int),
            ),
            ws_head(s@.subrange(i as int, end as int)) == 0,
        decreases end - i,
    {
        let l = ws_head_at(s, i, end);
        if l == 0 {
            break ;
        }
        assert(s@.subrange(i as int, end as int).skip(l as int) =~= s@.subrange(
            i + l,
            end as int,
        ));
        i = i + l;
    }
    proof {
        lemma_leading_ws(s@.subrange(start as int, end as int));
    }
    i
}

/// Index just past the last non-whitespace byte of `s[start..end]`, or `start`.
pub fn skip_ws_back(s: &[u8], start: usize, end: usize) -> (r: usize)
    requires
        start <= end <= s@.len(),
    ensures
        r == end - trailing_ws(s@.subrange(start as int, end as int)),
        start <= r <= end,
{
    let mut i: usize = end;
    loop
        invariant
            start <= i <= end <= s@.len(),
            end - trailing_ws(s@.subrange(start as int, end as int)) == i - trailing_ws(
                s@.subrange(start as int, i as int),
            ),
        ensures
            start <= i <= end <= s@.len(),
            end - trailing_ws(s@.subrange(start as int, end as int)) == i - trailing_ws(
                s@.subrange(start as int, i as int),
            ),
            ws_tail(s@.subrange(start as int, i as int)) == 0,
        decreases i - start,
    {
        let l = ws_tail_at(s, start, i);
        if l == 0 {
            break ;
        }
        assert(s@.subrange(start as int, i as int).take(i - start - l) =~= s@.subrange(
            start as int,
            i - l,
        ));
        i = i - l;
    }
    proof {
        lemma_trailing_ws_len(s@.subrange(start as int, end as int));
    }
    i
}

pub fn is_ws_byte(b: u8) -> (r: bool)
    ensures
        r == is_ws(b),
{
    b == 0x20u8 || b == 0x09u8 || b == 0x0au8 || b == 0x0bu8 || b == 0x0cu8 || b == 0x0du8
}

/// What `String::from_utf8_lossy` makes of a byte sequence.
pub uninterp spec fn lossy_text(b: Seq<u8>) -> Seq<char>;

/// Relies on `String::from_utf8_lossy`: the text is a function of the bytes
/// alone, and valid UTF-8 is decoded unchanged.
#[verifier::external_body]
pub(crate) fn text_of(b: &[u8]) -> (r: String)
    ensures
        r@ == lossy_text(b@),
        vstd::utf8::valid_utf8(b@) ==> r@ == vstd::utf8::decode_utf8(b@),
{
    String::from_utf8_lossy(b).into_owned()
}


/// Index just past the end of the line that starts at `p`: past its `\n`,
/// or the end of `h` for a last line without one.
pub open spec fn line_end(h: Seq<u8>, p: int) -> int
    decreases h.len() - p,
{
    if p < 0 || p >= h.len() {
        h.len() as int
    } else if h[p] == 0x0au8 {
        p + 1
    } else {
        line_end(h, p + 1)
    }
}

pub proof fn lemma_line_end_found(h: Seq<u8>, p: int, j: int)
    requires
        0 <= p <= j < h.len(),
        h[j] == 0x0au8,
        forall|k: int| p <= k < j ==> h[k] != 0x0au8,
    ensures
        line_end(h, p) == j + 1,
    decreases j - p,
{
    if p < j {
        lemma_line_end_found(h, p + 1, j);
    }
}

pub proof fn lemma_line_end_none(h: Seq<u8>, p: int)
    requires
        0 <= p <= h.len(),
        forall|k: int| p <= k < h.len() ==> h[k] != 0x0au8,
    ensures
        line_end(h, p) == h.len(),
    decreases h.len() - p,
{
    if p < h.len() {
        lemma_line_end_none(h, p + 1);
    }
}

pub proof fn lemma_line_end_bounds(h: Seq<u8>, p: int)
    requires
        0 <= p < h.len(),
    ensures
        p < line_end(h, p) <= h.len(),
        forall|k: int| p <= k < line_end(h, p) - 1 ==> h[k] != 0x0au8,
        line_end(h, p) < h.len() ==> h[line_end(h, p) - 1] == 0x0au8,
    decreases h.len() - p,
{
    if h[p] != 0x0au8 {
        if p + 1 < h.len() {
            lemma_line_end_bounds(h, p + 1);
        } else {
            assert(line_end(h, p + 1) == h.len());
        }
    }
}

/// Relies on `memchr::memchr`: the index of the first occurrence of `needle`.
#[verifier::external_body]
pub(crate) fn find_byte(needle: u8, hay: &[u8]) -> (r: Option<usize>)
    ensures
        r matches Some(i) ==> i < hay@.len() && hay@[i as int] == needle && forall|k: int|
            0 <= k < i ==> hay@[k] != needle,
        r is None ==> forall|k: int| 0 <= k < hay@.len() ==> hay@[k] != needle,
{
    memchr::memchr(needle, hay)
}

/// Relies on `memchr::memchr3`: the index of the first byte equal to any of
/// the three needles.
#[verifier::external_body]
pub(crate) fn find_any3(n1: u8, n2: u8, n3: u8, hay: &[u8]) -> (r: Option<usize>)
    ensures
        r matches Some(i) ==> i < hay@.len() && (hay@[i as int] == n1 || hay@[i as int] == n2
            || hay@[i as int] == n3) && forall|k: int|
            0 <= k < i ==> hay@[k] != n1 && hay@[k] != n2 && hay@[k] != n3,
        r is None ==> forall|k: int|
            0 <= k < hay@.len() ==> hay@[k] != n1 && hay@[k] != n2 && hay@[k] != n3,
{
    memchr::memchr3(n1, n2, n3, hay)
}

/// End of the line that starts at `p`, newline included.
pub fn next_line_end(h: &[u8], p: usize) -> (r: usize)
    requires
        p < h@.len(),
    ensures
        r as int == line_end(h@, p as int),
        p < r <= h@.len(),
{
    let rest = &h[p..h.len()];
    match find_byte(0x0au8, rest) {
        Some(rel) => {
            proof {
                assert forall|k: int| p <= k < p + rel implies h@[k] != 0x0au8 by {
                    assert(h@[k] == rest@[k - p]);
                }
                assert(h@[p + rel] == rest@[rel as int]);
                lemma_line_end_found(h@, p as int, p + rel);
            }
            p + rel + 1
        },
        None => {
            proof {
                assert forall|k: int| p <= k < h@.len() implies h@[k] != 0x0au8 by {
                    assert(h@[k] == rest@[k - p]);
                }
                lemma_line_end_none(h@, p as int);
            }
            h.len()
        },
    }
}

/// Whether `lit` stands in `s` at `p`.
pub open spec fn has_at(s: Seq<u8>, p: int, lit: Seq<u8>) -> bool {
    0 <= p && p + lit.len() <= s.len() && s.subrange(p, p + lit.len()) == lit
}

pub fn bytes_at(s: &[u8], p: usize, lit: &[u8]) -> (r: bool)
    ensures
        r == has_at(s@, p as int, lit@),
{
    if p > s.len() || lit.len() > s.len() - p {
        return false;
    }
    let n = s.len();
    let mut i: usize = 0;
    while i < lit.len()
        invariant
            n == s@.len(),
            p + lit@.len() <= s@.len(),
            i <= lit@.len(),
            forall|k: int| 0 <= k < i ==> s@[p + k] == lit@[k],
        decreases lit@.len() - i,
    {
        if s[p + i] != lit[i] {
            assert(s@.subrange(p as int, p + lit@.len())[i as int] != lit@[i as int]);
            return false;
        }
        i = i + 1;
    }
    assert(s@.subrange(p as int, p + lit@.len()) =~= lit@);
    true
}

pub open spec fn is_digit(b: u8) -> bool {
    0x30u8 <= b && b <= 0x39u8
}

/// Number of leading decimal digits of `s`.
pub open spec fn leading_digits(s: Seq<u8>) -> nat
    decreases s.len(),
{
    if s.len() > 0 && is_digit(s[0]) {
        1 + leading_digits(s.drop_first())
    } else {
        0
    }
}

pub proof fn lemma_leading_digits(s: Seq<u8>)
    ensures
        leading_digits(s) <= s.len(),
        forall|i: int| 0 <= i < leading_digits(s) ==> is_digit(#[trigger] s[i]),
        leading_digits(s) < s.len() ==> !is_digit(s[leading_digits(s) as int]),
    decreases s.len(),
{
    if s.len() > 0 && is_digit(s[0]) {
        lemma_leading_digits(s.drop_first());
        assert forall|i: int| 0 <= i < leading_digits(s) implies is_digit(#[trigger] s[i]) by {
            if i > 0 {
                assert(s[i] == s.drop_first()[i - 1]);
            }
        }
    }
}

pub proof fn lemma_leading_digits_unique(s: Seq<u8>, n: int)
    requires
        0 <= n <= s.len(),
        forall|i: int| 0 <= i < n ==> is_digit(#[trigger] s[i]),
        n == s.len() || !is_digit(s[n]),
    ensures
        leading_digits(s) == n,
    decreases s.len(),
{
    if n > 0 {
        assert forall|i: int| 0 <= i < n - 1 implies is_digit(#[trigger] s.drop_first()[i]) by {
            assert(s.drop_first()[i] == s[i + 1]);
        }
        if n < s.len() {
            assert(s.drop_first()[n - 1] == s[n]);
        }
        lemma_leading_digits_unique(s.drop_first(), n - 1);
    }
}

/// Index of the first non-digit byte of `s` at or after `start`.
pub fn skip_digits(s: &[u8], start: usize) -> (r: usize)
    requires
        start <= s@.len(),
    ensures
        r == start + leading_digits(s@.skip(start as int)),
        start <= r <= s@.len(),
{
    let mut i: usize = start;
    while i < s.len() && 0x30u8 <= s[i] && s[i] <= 0x39u8
        invariant
            start <= i <= s@.len(),
            forall|k: int| start <= k < i ==> is_digit(#[trigger] s@[k]),
        decreases s@.len() - i,
    {
        i = i + 1;
    }
    proof {
        let sub = s@.skip(start as int);
        assert forall|k: int| 0 <= k < i - start implies is_digit(#[trigger] sub[k]) by {
            assert(sub[k] == s@[start + k]);
        }
        if i < s@.len() {
            assert(sub[i - start] == s@[i as int]);
        }
        lemma_leading_digits_unique(sub, i - start);
    }
    i
}

/// The number that a run of decimal digits spells.
pub open spec fn digits_value(s: Seq<u8>) -> nat
    decreases s.len(),
{
    if s.len() == 0 {
        0
    } else {
        digits_value(s.drop_last()) * 10 + (s.last() - 0x30u8) as nat
    }
}

/// The value of the digits `s[start..end]`, when it fits in a `u64`.
pub fn parse_digits(s: &[u8], start: usize, end: usize) -> (r: Option<u64>)
    requires
        start <= end <= s@.len(),
        forall|k: int| start <= k < end ==> is_digit(#[trigger] s@[k]),
    ensures
        r matches Some(v) ==> v as nat == digits_value(s@.subrange(start as int, end as int)),
        r is None ==> digits_value(s@.subrange(start as int, end as int)) > u64::MAX,
{
    let mut acc: u64 = 0;
    let mut i: usize = start;
    while i < end
        invariant
            start <= i <= end <= s@.len(),
            forall|k: int| start <= k < end ==> is_digit(#[trigger] s@[k]),
            acc as nat == digits_value(s@.subrange(start as int, i as int)),
        decreases end - i,
    {
        let d = (s[i] - 0x30u8) as u64;
        proof {
            assert(s@.subrange(start as int, i + 1).drop_last() =~= s@.subrange(start as int, i as int));
            assert(is_digit(s@[i as int]));
        }
        match acc.checked_mul(10) {
            None => {
                proof {
                    lemma_digits_grow(s@, start as int, i + 1, end as int);
                }
                return None;
            },
            Some(m) => match m.checked_add(d) {
                None => {
                    proof {
                        lemma_digits_grow(s@, start as int, i + 1, end as int);
                    }
                    return None;
                },
                Some(v) => {
                    acc = v;
                },
            },
        }
        i = i + 1;
    }
    Some(acc)
}

/// Appending digits never makes the value smaller.
pub proof fn lemma_digits_grow(s: Seq<u8>, a: int, b: int, c: int)
    requires
        0 <= a <= b <= c <= s.len(),
    ensures
        digits_value(s.subrange(a, b)) <= digits_value(s.subrange(a, c)),
    decreases c - b,
{
    if b < c {
        lemma_digits_grow(s, a, b, c - 1);
        assert(s.subrange(a, c).drop_last() =~= s.subrange(a, c - 1));
    }
}

/// Copies the bytes of `from..to` to `dest`, as `memmove` does (the two
/// ranges may overlap); nothing else changes.
pub fn move_within(buf: &mut [u8], from: usize, to: usize, dest: usize)
    requires
        from <= to <= old(buf)@.len(),
        dest + (to - from) <= old(buf)@.len(),
    ensures
        final(buf)@ == old(buf)@.take(dest as int) + old(buf)@.subrange(from as int, to as int)
            + old(buf)@.skip(dest + (to - from)),
{
    let ghost orig = buf@;
    let len = to - from;
    let n = buf.len();
    if dest <= from {
        let mut k: usize = 0;
        while k < len
            invariant
                len == to - from,
                from <= to <= n,
                dest <= from,
                dest + len <= n,
                n == buf@.len() == orig.len(),
                k <= len,
                forall|i: int| 0 <= i < n && (i < dest || i >= dest + k) ==> buf@[i] == orig[i],
                forall|i: int| dest <= i < dest + k ==> buf@[i] == orig[from + i - dest],
            decreases len - k,
        {
            let x = buf[from + k];
            buf[dest + k] = x;
            k = k + 1;
        }
    } else {
        let mut k: usize = len;
        while k > 0
            invariant
                len == to - from,
                from <= to <= n,
                dest > from,
                dest + len <= n,
                n == buf@.len() == orig.len(),
                k <= len,
                forall|i: int| 0 <= i < n && (i < dest + k || i >= dest + len) ==> buf@[i]
                    == orig[i],
                forall|i: int| dest + k <= i < dest + len ==> buf@[i] == orig[from + i - dest],
            decreases k,
        {
            let x = buf[from + k - 1];
            buf[dest + k - 1] = x;
            k = k - 1;
        }
    }
    assert(buf@ =~= orig.take(dest as int) + orig.subrange(from as int, to as int) + orig.skip(
        dest + len,
    ));
}

/// The decimal digits of `n`.
pub open spec fn decimal(n: nat) -> Seq<u8>
    decreases n,
{
    if n < 10 {
        seq![(0x30 + n) as u8]
    } else {
        decimal(n / 10) + seq![(0x30 + n % 10) as u8]
    }
}

/// The decimal digits of `n`, as text.
pub open spec fn decimal_text(n: nat) -> Seq<char> {
    decimal(n).map_values(|b: u8| b as char)
}

/// Appends the decimal digits of `n` to `v`.
pub fn push_decimal(v: &mut Vec<u8>, n: u64)
    ensures
        final(v)@ == old(v)@ + decimal(n as nat),
    decreases n,
{
    if n >= 10 {
        push_decimal(v, n / 10);
    }
    v.push((0x30u64 + n % 10) as u8);
    proof {
        if n >= 10 {
            assert(decimal(n as nat) == decimal((n / 10) as nat) + seq![(0x30 + n % 10) as u8]);
        }
    }
    assert(final(v)@ =~= old(v)@ + decimal(n as nat));
}

/// Relies on `std::str::from_utf8`: it succeeds exactly on valid UTF-8.
#[verifier::external_body]
pub(crate) fn is_utf8(b: &[u8]) -> (r: bool)
    ensures
        r == vstd::utf8::valid_utf8(b@),
{
    std::str::from_utf8(b).is_ok()
}

/// The decimal character of a digit.
fn digit_str(d: u64) -> (r: &'static str)
    requires
        d < 10,
    ensures
        r@ == seq![(0x30 + d) as u8 as char],
{
    proof {
        reveal_strlit("0");
        reveal_strlit("1");
        reveal_strlit("2");
        reveal_strlit("3");
        reveal_strlit("4");
        reveal_strlit("5");
        reveal_strlit("6");
        reveal_strlit("7");
        reveal_strlit("8");
        reveal_strlit("9");
    }
    if d == 0 {
        "0"
    } else if d == 1 {
        "1"
    } else if d == 2 {
        "2"
    } else if d == 3 {
        "3"
    } else if d == 4 {
        "4"
    } else if d == 5 {
        "5"
    } else if d == 6 {
        "6"
    } else if d == 7 {
        "7"
    } else if d == 8 {
        "8"
    } else {
        "9"
    }
}

/// `s` followed by the decimal digits of `n`.
fn append_decimal(s: String, n: u64) -> (r: String)
    ensures
        r@ == s@ + decimal_text(n as nat),
    decreases n,
{
    let s = if n >= 10 {
        append_decimal(s, n / 10)
    } else {
        s
    };
    let r = s.concat(digit_str(n % 10));
    proof {
        if n >= 10 {
            assert(decimal(n as nat) == decimal((n / 10) as nat) + seq![(0x30 + n % 10) as u8]);
            assert(decimal_text(n as nat) =~= decimal_text((n / 10) as nat) + seq![
                (0x30 + n % 10) as u8 as char,
            ]);
        } else {
            assert(decimal_text(n as nat) =~= seq![(0x30 + n % 10) as u8 as char]);
        }
    }
    r
}

/// The decimal digits of `n`, as text.
pub(crate) fn number_text(n: u64) -> (r: String)
    ensures
        r@ == decimal_text(n as nat),
{
    let r = append_decimal(String::new(), n);
    assert(r@ =~= decimal_text(n as nat));
    r
}

} // verus!
