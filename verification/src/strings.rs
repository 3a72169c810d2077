//! Text helpers: whitespace, letter case, decimal numbers, padding, joining,
//! and the order in which strings are listed.
use vstd::prelude::*;
use vstd::utf8::{decode_utf8, encode_utf8, valid_utf8};
use crate::order::{
    law_lexicographic_order, lex_antisymmetric, lex_le, lex_total, lex_transitive, strict_total, Key,
    Ranked,
};

verus! {

/// `String::push` appends the given character to the end of the string.
pub assume_specification[ String::push ](s: &mut String, c: char)
    ensures
        final(s)@ == old(s)@.push(c),
;

/// The text that `bytes` encode in UTF-8, if they are valid UTF-8.
pub open spec fn text_of(bytes: Seq<u8>) -> Option<Seq<char>> {
    if valid_utf8(bytes) {
        Some(decode_utf8(bytes))
    } else {
        None
    }
}

/// `std::str::from_utf8` succeeds exactly on valid UTF-8, and the text it
/// hands back is the one that the bytes encode.
#[verifier::external_body]
pub(crate) fn decode(bytes: &[u8]) -> (text: Option<String>)
    ensures
        match text {
            Some(t) => text_of(bytes@) == Some(t@),
            None => text_of(bytes@) is None,
        },
{
    std::str::from_utf8(bytes).ok().map(|s| s.to_owned())
}

/// What `String::from_utf8_lossy` makes of a byte string.
pub uninterp spec fn lossy_text(bytes: Seq<u8>) -> Seq<char>;

/// `String::from_utf8_lossy` turns any byte string into text, always the same
/// for the same bytes, and valid UTF-8 into the text it encodes.
#[verifier::external_body]
pub(crate) fn lossy(bytes: &[u8]) -> (text: String)
    ensures
        text@ == lossy_text(bytes@),
        valid_utf8(bytes@) ==> text@ == decode_utf8(bytes@),
{
    String::from_utf8_lossy(bytes).into_owned()
}

/// The length of a text in bytes.
pub open spec fn byte_len(s: Seq<char>) -> nat {
    encode_utf8(s).len()
}

/// The characters of `s`.
pub fn to_chars(s: &str) -> (v: Vec<char>)
    ensures
        v@ == s@,
{
    let mut v: Vec<char> = Vec::new();
    for c in it: s.chars()
        invariant
            it.seq() == s@,
            v@ == s@.take(it.index() as int),
    {
        v.push(c);
        assert(v@ == s@.take(it.index() as int + 1));
    }
    assert(s@.take(s@.len() as int) == s@);
    v
}

/// The characters of `v` from `lo` up to `hi`, as a string.
pub fn from_chars(v: &Vec<char>, lo: usize, hi: usize) -> (s: String)
    requires
        lo <= hi <= v@.len(),
    ensures
        s@ == v@.subrange(lo as int, hi as int),
{
    let mut s: String = String::new();
    for i in lo..hi
        invariant
            hi <= v@.len(),
            s@ == v@.subrange(lo as int, i as int),
    {
        s.push(v[i]);
        assert(s@ == v@.subrange(lo as int, i as int + 1));
    }
    s
}

/// Whether `a` and `b` hold the same text.
pub fn same(a: &str, b: &str) -> (r: bool)
    ensures
        r == (a@ == b@),
{
    a.to_owned() == b.to_owned()
}

/// Whether the character `c` occurs in `s`.
pub fn contains(s: &str, c: char) -> (r: bool)
    ensures
        r == s@.contains(c),
{
    let v: Vec<char> = to_chars(s);
    for i in 0..v.len()
        invariant
            v@ == s@,
            forall|j: int| 0 <= j < i ==> s@[j] != c,
    {
        if v[i] == c {
            assert(s@[i as int] == c);
            return true;
        }
    }
    false
}

// ---- whitespace ----

/// The characters that Unicode counts as white space.
pub open spec fn is_space(c: char) -> bool {
    ||| '\u{9}' <= c <= '\u{d}'
    ||| c == '\u{20}'
    ||| c == '\u{85}'
    ||| c == '\u{a0}'
    ||| c == '\u{1680}'
    ||| '\u{2000}' <= c <= '\u{200a}'
    ||| c == '\u{2028}'
    ||| c == '\u{2029}'
    ||| c == '\u{202f}'
    ||| c == '\u{205f}'
    ||| c == '\u{3000}'
}

/// Whether `c` is white space.
pub fn space(c: char) -> (r: bool)
    ensures
        r == is_space(c),
{
    ('\u{9}' <= c && c <= '\u{d}') || c == '\u{20}' || c == '\u{85}' || c == '\u{a0}' || c
        == '\u{1680}' || ('\u{2000}' <= c && c <= '\u{200a}') || c == '\u{2028}' || c == '\u{2029}'
        || c == '\u{202f}' || c == '\u{205f}' || c == '\u{3000}'
}

/// `s` without its leading white space.
pub open spec fn trim_start(s: Seq<char>) -> Seq<char>
    decreases s.len(),
{
    if s.len() > 0 && is_space(s[0]) {
        trim_start(s.drop_first())
    } else {
        s
    }
}

/// `s` without its trailing white space.
pub open spec fn trim_end(s: Seq<char>) -> Seq<char>
    decreases s.len(),
{
    if s.len() > 0 && is_space(s.last()) {
        trim_end(s.drop_last())
    } else {
        s
    }
}

/// `s` without the white space at either end.
pub open spec fn trim(s: Seq<char>) -> Seq<char> {
    trim_end(trim_start(s))
}

/// `s` without the white space at either end.
pub fn trimmed(s: &str) -> (r: String)
    ensures
        r@ == trim(s@),
{
    let v: Vec<char> = to_chars(s);
    let mut lo: usize = 0;
    assert(s@.skip(0) == s@);
    while lo < v.len() && space(v[lo])
        invariant
            v@ == s@,
            lo <= v@.len(),
            trim_start(s@) == trim_start(s@.skip(lo as int)),
        decreases v.len() - lo,
    {
        assert(s@.skip(lo as int).drop_first() == s@.skip(lo as int + 1));
        lo = lo + 1;
    }
    let mut hi: usize = v.len();
    assert(s@.subrange(lo as int, hi as int) == s@.skip(lo as int));
    while lo < hi && space(v[hi - 1])
        invariant
            v@ == s@,
            lo <= hi <= v@.len(),
            trim(s@) == trim_end(s@.subrange(lo as int, hi as int)),
        decreases hi,
    {
        assert(s@.subrange(lo as int, hi as int).drop_last() == s@.subrange(
            lo as int,
            hi as int - 1,
        ));
        hi = hi - 1;
    }
    from_chars(&v, lo, hi)
}

/// `s` with every run of white space between words made one space, and none
/// left at either end.
pub open spec fn squeeze(s: Seq<char>) -> Seq<char>
    decreases s.len(),
{
    if s.len() == 0 {
        s
    } else {
        let done = squeeze(s.drop_last());
        let c = s.last();
        if is_space(c) {
            done
        } else if done.len() > 0 && is_space(s[s.len() - 2]) {
            done.push(' ').push(c)
        } else {
            done.push(c)
        }
    }
}

/// `s` with every run of white space between words made one space, and none
/// left at either end.
pub fn squeezed(s: &str) -> (r: String)
    ensures
        r@ == squeeze(s@),
{
    let v: Vec<char> = to_chars(s);
    let mut r: String = String::new();
    let mut any = false;
    for i in 0..v.len()
        invariant
            v@ == s@,
            r@ == squeeze(s@.take(i as int)),
            any == (r@.len() > 0),
    {
        let c = v[i];
        assert(s@.take(i as int + 1).drop_last() == s@.take(i as int));
        if !space(c) {
            if any && space(v[i - 1]) {
                r.push(' ');
            }
            r.push(c);
            any = true;
        }
    }
    assert(s@.take(s@.len() as int) == s@);
    r
}

/// What `squeeze` leaves neither begins nor ends with white space, and holds
/// none but single spaces.
pub proof fn lemma_squeeze_tidy(s: Seq<char>)
    ensures
        squeeze(s).len() > 0 ==> !is_space(squeeze(s)[0]) && !is_space(squeeze(s).last()),
        forall|i: int|
            0 <= i < squeeze(s).len() && is_space(#[trigger] squeeze(s)[i]) ==> squeeze(s)[i] == ' '
                && !is_space(squeeze(s)[i + 1]),
    decreases s.len(),
{
    if s.len() > 0 {
        lemma_squeeze_tidy(s.drop_last());
        let done = squeeze(s.drop_last());
        assert forall|i: int| 0 <= i < squeeze(s).len() && is_space(#[trigger] squeeze(s)[i]) implies
            squeeze(s)[i] == ' ' && !is_space(squeeze(s)[i + 1]) by {
            if i < done.len() {
                assert(squeeze(s)[i] == done[i]);
                assert(done[i] == ' ' && !is_space(done[i + 1]));
                assert(i != done.len() - 1);
            }
        }
    }
}

// ---- letter case ----

/// `c` in lower case if it is an ASCII letter, and `c` itself otherwise.
pub open spec fn lower_char(c: char) -> char {
    if 'A' <= c <= 'Z' {
        (c as u32 + 32) as char
    } else {
        c
    }
}

/// `s` with its ASCII letters in lower case.
pub open spec fn lower(s: Seq<char>) -> Seq<char> {
    s.map_values(|c: char| lower_char(c))
}

/// `c` in lower case if it is an ASCII letter, and `c` itself otherwise.
fn lowered_char(c: char) -> (r: char)
    ensures
        r == lower_char(c),
{
    if 'A' <= c && c <= 'Z' {
        (c as u8 + 32) as char
    } else {
        c
    }
}

/// `s` with its ASCII letters in lower case.
pub fn lowered(s: &str) -> (r: String)
    ensures
        r@ == lower(s@),
{
    let v: Vec<char> = to_chars(s);
    let mut r: String = String::new();
    for i in 0..v.len()
        invariant
            v@ == s@,
            r@ == lower(s@.take(i as int)),
    {
        r.push(lowered_char(v[i]));
        assert(r@ == lower(s@.take(i as int + 1)));
    }
    assert(s@.take(s@.len() as int) == s@);
    r
}

/// Lowering twice is lowering once.
pub proof fn lemma_lower_twice(s: Seq<char>)
    ensures
        lower(lower(s)) == lower(s),
{
}

// ---- numbers ----

/// The decimal digit for `d`.
pub open spec fn digit(d: int) -> char {
    ('0' as u32 + d) as char
}

/// `n` in decimal, without leading zeros.
pub open spec fn dec(n: nat) -> Seq<char>
    decreases n,
{
    if n < 10 {
        seq![digit(n as int)]
    } else {
        dec(n / 10).push(digit((n % 10) as int))
    }
}

/// `n` in decimal, without leading zeros.
pub fn decimal(n: u64) -> (s: String)
    ensures
        s@ == dec(n as nat),
    decreases n,
{
    let mut s: String = if n < 10 {
        String::new()
    } else {
        decimal(n / 10)
    };
    let d: u8 = (n % 10) as u8;
    s.push((48u8 + d) as char);
    assert(s@ =~= dec(n as nat));
    s
}

/// A number in decimal is made of digits, and reading them gives it back.
pub proof fn lemma_dec_digits(n: nat)
    ensures
        dec(n).len() > 0,
        all_digits(dec(n)),
        number(dec(n)) == n,
    decreases n,
{
    if n >= 10 {
        lemma_dec_digits(n / 10);
        assert(dec(n).drop_last() == dec(n / 10));
    } else {
        reveal_with_fuel(number, 2);
        assert(dec(n).drop_last() =~= Seq::<char>::empty());
    }
}

/// A number has at most four digits exactly when it is below ten thousand.
pub proof fn lemma_dec_len(n: nat)
    ensures
        dec(n).len() <= 4 <==> n < 10000,
{
    reveal_with_fuel(dec, 5);
    if n >= 10000 {
        lemma_dec_digits(n / 10000);
    }
}

/// `s` behind as many `fill` as it takes to make `width` characters.
pub open spec fn pad_left(s: Seq<char>, width: nat, fill: char) -> Seq<char> {
    if s.len() < width {
        Seq::new((width - s.len()) as nat, |i: int| fill) + s
    } else {
        s
    }
}

/// `s` followed by as many spaces as it takes to make `width` characters.
pub open spec fn pad_right(s: Seq<char>, width: nat) -> Seq<char> {
    if s.len() < width {
        s + Seq::new((width - s.len()) as nat, |i: int| ' ')
    } else {
        s
    }
}

/// `s` behind as many `fill` as it takes to make `width` characters.
pub fn padded_left(s: &str, width: usize, fill: char) -> (r: String)
    ensures
        r@ == pad_left(s@, width as nat, fill),
{
    let n: usize = s.unicode_len();
    let mut r: String = String::new();
    let mut i: usize = n;
    while i < width
        invariant
            n == s@.len(),
            n <= i,
            n < width ==> i <= width,
            n >= width ==> i == n,
            r@ == Seq::new((i - n) as nat, |j: int| fill),
        decreases width - i,
    {
        r.push(fill);
        i = i + 1;
        assert(r@ == Seq::new((i - n) as nat, |j: int| fill));
    }
    r.append(s);
    assert(r@ =~= pad_left(s@, width as nat, fill));
    r
}

/// `s` followed by as many spaces as it takes to make `width` characters.
pub fn padded_right(s: &str, width: usize) -> (r: String)
    ensures
        r@ == pad_right(s@, width as nat),
{
    let mut r: String = s.to_owned();
    let n: usize = s.unicode_len();
    let mut i: usize = n;
    while i < width
        invariant
            n == s@.len(),
            n <= i,
            n < width ==> i <= width,
            n >= width ==> i == n,
            r@ == s@ + Seq::new((i - n) as nat, |j: int| ' '),
        decreases width - i,
    {
        r.push(' ');
        i = i + 1;
        assert(r@ == s@ + Seq::new((i - n) as nat, |j: int| ' '));
    }
    assert(r@ =~= pad_right(s@, width as nat));
    r
}

/// Whether `c` is a decimal digit.
pub open spec fn is_digit(c: char) -> bool {
    '0' <= c <= '9'
}

/// Whether `s` holds nothing but decimal digits.
pub open spec fn all_digits(s: Seq<char>) -> bool {
    forall|i: int| 0 <= i < s.len() ==> is_digit(#[trigger] s[i])
}

/// The number that the digits of `s` stand for.
pub open spec fn number(s: Seq<char>) -> nat
    decreases s.len(),
{
    if s.len() == 0 {
        0
    } else {
        10 * number(s.drop_last()) + (s.last() as u32 - '0' as u32) as nat
    }
}

/// `s` without one leading plus sign.
pub open spec fn unsigned(s: Seq<char>) -> Seq<char> {
    if s.len() > 0 && s[0] == '+' {
        s.drop_first()
    } else {
        s
    }
}

/// The whole number that `s` spells: digits, at least one of them, perhaps
/// behind a plus sign. Nothing else is a number, nor is one above `max`.
pub open spec fn parse_number(s: Seq<char>, max: nat) -> Option<nat> {
    let d = unsigned(s);
    if d.len() > 0 && all_digits(d) && number(d) <= max {
        Some(number(d))
    } else {
        None
    }
}

proof fn lemma_number_grows(s: Seq<char>, k: int)
    requires
        0 <= k <= s.len(),
        all_digits(s),
    ensures
        number(s.take(k)) <= number(s),
    decreases s.len(),
{
    if k < s.len() {
        lemma_number_grows(s.drop_last(), k);
        assert(s.drop_last().take(k) == s.take(k));
    } else {
        assert(s.take(k) == s);
    }
}

/// The whole number, at most `max`, that `s` spells.
pub fn parsed_number(s: &str, max: u64) -> (r: Option<u64>)
    ensures
        match r {
            Some(n) => parse_number(s@, max as nat) == Some(n as nat),
            None => parse_number(s@, max as nat) is None,
        },
{
    let v: Vec<char> = to_chars(s);
    let start: usize = if v.len() > 0 && v[0] == '+' {
        1
    } else {
        0
    };
    let ghost d = unsigned(s@);
    assert(d == s@.skip(start as int));
    if start == v.len() {
        return None;
    }
    let mut n: u64 = 0;
    for i in start..v.len()
        invariant
            v@ == s@,
            start <= v@.len(),
            d == s@.skip(start as int),
            d == unsigned(s@),
            d.len() > 0,
            n == number(d.take(i - start)),
            n <= max,
            forall|j: int| 0 <= j < i - start ==> is_digit(#[trigger] d[j]),
    {
        let c = v[i];
        assert(c == d[i - start]);
        if !('0' <= c && c <= '9') {
            return None;
        }
        let x: u64 = c as u64 - '0' as u64;
        let ghost k: int = i - start;
        assert(d.take(k + 1).drop_last() == d.take(k));
        assert(number(d.take(k + 1)) == 10 * n + x);
        if x > max || n > (max - x) / 10 {
            assert(10 * n + x > max);
            proof {
                if all_digits(d) {
                    lemma_number_grows(d, k + 1);
                }
            }
            return None;
        }
        n = n * 10 + x;
    }
    assert(d.take(d.len() as int) == d);
    Some(n)
}

// ---- joining ----

/// The parts one after the other, with `sep` between each two.
pub open spec fn join(parts: Seq<Seq<char>>, sep: Seq<char>) -> Seq<char>
    decreases parts.len(),
{
    if parts.len() == 0 {
        Seq::empty()
    } else if parts.len() == 1 {
        parts[0]
    } else {
        join(parts.drop_last(), sep) + sep + parts.last()
    }
}

/// The views of a list of strings.
pub open spec fn texts(v: Seq<String>) -> Seq<Seq<char>> {
    Seq::new(v.len(), |i: int| v[i]@)
}

/// The parts one after the other, with `sep` between each two.
pub fn joined(parts: &Vec<String>, sep: &str) -> (r: String)
    ensures
        r@ == join(texts(parts@), sep@),
{
    let mut r: String = String::new();
    for i in 0..parts.len()
        invariant
            r@ == join(texts(parts@).take(i as int), sep@),
    {
        assert(texts(parts@).take(i as int + 1).drop_last() == texts(parts@).take(i as int));
        if i > 0 {
            r.append(sep);
        }
        r.append(parts[i].as_str());
        assert(r@ =~= join(texts(parts@).take(i as int + 1), sep@));
    }
    assert(texts(parts@).take(parts@.len() as int) == texts(parts@));
    r
}

// ---- order ----

/// Characters are ordered by their scalar values.
pub open spec fn char_lt() -> spec_fn(char, char) -> bool {
    |a: char, b: char| a < b
}

/// Strings are listed character by character, as by their UTF-8 bytes.
pub open spec fn text_le(a: Seq<char>, b: Seq<char>) -> bool {
    lex_le(a, b, char_lt())
}

pub proof fn lemma_char_order()
    ensures
        strict_total(char_lt()),
{
}

impl Ranked for String {
    open spec fn le(a: Seq<char>, b: Seq<char>) -> bool {
        text_le(a, b)
    }

    proof fn le_total(a: Seq<char>, b: Seq<char>) {
        lemma_char_order();
        lex_total(a, b, char_lt());
    }

    proof fn le_transitive(a: Seq<char>, b: Seq<char>, c: Seq<char>) {
        lemma_char_order();
        lex_transitive(a, b, c, char_lt());
    }

    fn leq(&self, other: &Self) -> bool {
        let a: Vec<char> = to_chars(self.as_str());
        let b: Vec<char> = to_chars(other.as_str());
        let mut i: usize = 0;
        assert(a@.skip(0) == a@ && b@.skip(0) == b@);
        while i < a.len()
            invariant
                i <= a@.len(),
                i <= b@.len(),
                text_le(self@, other@) == text_le(a@.skip(i as int), b@.skip(i as int)),
            decreases a.len() - i,
        {
            if i >= b.len() {
                return false;
            }
            let ghost sa = a@.skip(i as int);
            let ghost sb = b@.skip(i as int);
            assert(sa[0] == a@[i as int] && sb[0] == b@[i as int]);
            if a[i] < b[i] {
                assert(char_lt()(sa[0], sb[0]));
                return true;
            }
            if b[i] < a[i] {
                assert(!char_lt()(sa[0], sb[0]));
                return false;
            }
            assert(sa.drop_first() == a@.skip(i as int + 1));
            assert(sb.drop_first() == b@.skip(i as int + 1));
            assert(!char_lt()(sa[0], sb[0]));
            i = i + 1;
        }
        true
    }
}

impl Key for String {
    proof fn le_antisymmetric(a: Seq<char>, b: Seq<char>) {
        lemma_char_order();
        lex_antisymmetric(a, b, char_lt());
    }
}

// ---- laws of text ----

/// Whether `part` stands somewhere in `text`.
pub open spec fn holds(text: Seq<char>, part: Seq<char>) -> bool {
    exists|i: int|
        0 <= i <= text.len() - part.len() && #[trigger] text.subrange(i, i + part.len()) == part
}

/// What stands between two other parts stands in the whole.
pub proof fn lemma_holds(before: Seq<char>, part: Seq<char>, after: Seq<char>)
    ensures
        holds(before + part + after, part),
{
    let text = before + part + after;
    let i = before.len() as int;
    assert(text.subrange(i, i + part.len()) =~= part);
}

/// Spaces, tabs and line ends are white space; visible ASCII characters are
/// not.
pub proof fn law_white_space(c: char)
    ensures
        c == ' ' || c == '\t' || c == '\n' || c == '\r' ==> is_space(c),
        '!' <= c <= '~' ==> !is_space(c),
{
}

proof fn lemma_trim_start(s: Seq<char>) -> (i: int)
    ensures
        0 <= i <= s.len(),
        trim_start(s) == s.skip(i),
        forall|k: int| 0 <= k < i ==> is_space(#[trigger] s[k]),
        i < s.len() ==> !is_space(s[i]),
    decreases s.len(),
{
    if s.len() > 0 && is_space(s[0]) {
        let rest = s.drop_first();
        let i = lemma_trim_start(rest);
        assert(rest.skip(i) =~= s.skip(i + 1));
        assert forall|k: int| 0 <= k < i + 1 implies is_space(#[trigger] s[k]) by {
            if k > 0 {
                assert(rest[k - 1] == s[k]);
            }
        }
        i + 1
    } else {
        assert(s.skip(0) =~= s);
        0
    }
}

proof fn lemma_trim_end(s: Seq<char>) -> (j: int)
    ensures
        0 <= j <= s.len(),
        trim_end(s) == s.take(j),
        forall|k: int| j <= k < s.len() ==> is_space(#[trigger] s[k]),
        j > 0 ==> !is_space(s[j - 1]),
    decreases s.len(),
{
    if s.len() > 0 && is_space(s.last()) {
        let front = s.drop_last();
        let j = lemma_trim_end(front);
        assert(front.take(j) =~= s.take(j));
        assert forall|k: int| j <= k < s.len() implies is_space(#[trigger] s[k]) by {
            if k < front.len() {
                assert(front[k] == s[k]);
            }
        }
        j
    } else {
        assert(s.take(s.len() as int) =~= s);
        s.len() as int
    }
}

/// Trimming takes white space off both ends, all of it, and nothing else.
pub proof fn law_trim(s: Seq<char>)
    ensures
        exists|i: int, j: int|
            0 <= i <= j <= s.len() && #[trigger] s.subrange(i, j) == trim(s) && (forall|k: int|
                0 <= k < i || j <= k < s.len() ==> is_space(#[trigger] s[k])),
        trim(s).len() > 0 ==> !is_space(trim(s)[0]) && !is_space(trim(s).last()),
{
    let i = lemma_trim_start(s);
    let t = s.skip(i);
    let j = lemma_trim_end(t);
    assert(t.take(j) =~= s.subrange(i, i + j));
    assert forall|k: int| 0 <= k < i || i + j <= k < s.len() implies is_space(#[trigger] s[k]) by {
        if k >= i {
            assert(t[k - i] == s[k]);
        }
    }
    assert(s.subrange(i, i + j) == trim(s));
}

/// Squeezing keeps every word as it is, drops the white space around a text,
/// and puts one space between each two words.
pub proof fn law_squeeze(text: Seq<char>, gap: char, word: Seq<char>)
    requires
        is_space(gap),
        word.len() > 0,
        forall|i: int| 0 <= i < word.len() ==> !is_space(#[trigger] word[i]),
    ensures
        squeeze(Seq::empty()) == Seq::<char>::empty(),
        squeeze(text.push(gap)) == squeeze(text),
        squeeze(word) == word,
        squeeze(text.push(gap) + word) == if squeeze(text).len() == 0 {
            word
        } else {
            squeeze(text).push(' ') + word
        },
    decreases word.len(),
{
    let s = text.push(gap) + word;
    let c = word.drop_last();
    assert(text.push(gap).drop_last() =~= text);
    assert(word[word.len() - 1] == word.last());
    assert(s.last() == word.last());
    assert(s.drop_last() =~= text.push(gap) + c);
    assert(word =~= c.push(word.last()));
    if c.len() == 0 {
        assert(text.push(gap) + c =~= text.push(gap));
        assert(s[s.len() - 2] == gap);
        assert(squeeze(c) == c);
        assert(squeeze(text.push(gap)) == squeeze(text));
        assert(squeeze(word) =~= c.push(word.last()));
        if squeeze(text).len() == 0 {
            assert(squeeze(text) =~= c);
            assert(squeeze(s) == squeeze(text).push(word.last()));
            assert(squeeze(s) =~= word);
        } else {
            assert(squeeze(s) =~= squeeze(text).push(' ') + word);
        }
    } else {
        assert forall|i: int| 0 <= i < c.len() implies !is_space(#[trigger] c[i]) by {
            assert(word[i] == c[i]);
        }
        law_squeeze(text, gap, c);
        assert(s[s.len() - 2] == c.last());
        assert(word[word.len() - 2] == c.last());
        assert(!is_space(c[c.len() - 1]));
        assert(squeeze(word) =~= word);
        if squeeze(text).len() == 0 {
            assert(squeeze(s) =~= word);
        } else {
            assert(squeeze(s) =~= squeeze(text).push(' ') + word);
        }
    }
}

/// Lower case changes the letters A to Z into a to z, each in its place, and
/// nothing else.
pub proof fn law_lower(s: Seq<char>, i: int)
    requires
        0 <= i < s.len(),
    ensures
        lower(s).len() == s.len(),
        'A' <= s[i] <= 'Z' ==> 'a' <= lower(s)[i] <= 'z' && lower(s)[i] as u32 - 'a' as u32 == s[i] as u32
            - 'A' as u32,
        !('A' <= s[i] <= 'Z') ==> lower(s)[i] == s[i],
{
}

/// A number is written with the decimal digits and no leading zero, one digit
/// of it at a time, and no two numbers are written alike.
pub proof fn law_decimal(n: nat, d: nat, m: nat)
    requires
        d < 10,
    ensures
        dec(d) == seq![('0' as u32 + d) as char],
        n > 0 ==> dec(10 * n + d) == dec(n).push(('0' as u32 + d) as char),
        forall|i: int| 0 <= i < dec(n).len() ==> '0' <= #[trigger] dec(n)[i] <= '9',
        dec(n).len() > 0,
        n > 0 ==> dec(n)[0] != '0',
        dec(n) == dec(m) ==> n == m,
{
    lemma_dec_digits(n);
    lemma_dec_digits(m);
    lemma_dec_head(n);
    assert forall|i: int| 0 <= i < dec(n).len() implies '0' <= #[trigger] dec(n)[i] <= '9' by {
        assert(is_digit(dec(n)[i]));
    }
    let k = 10 * n + d;
    assert(k / 10 == n && k % 10 == d);
}

proof fn lemma_dec_head(n: nat)
    ensures
        dec(n).len() > 0,
        n > 0 ==> dec(n)[0] != '0',
    decreases n,
{
    if n >= 10 {
        lemma_dec_head(n / 10);
    }
}

/// Reading a number that was written gives it back, with or without a plus
/// sign, unless it is above the limit.
pub proof fn law_numbers_are_read_back(n: nat, max: nat)
    ensures
        parse_number(dec(n), max) == if n <= max {
            Some(n)
        } else {
            None
        },
        parse_number(seq!['+'] + dec(n), max) == if n <= max {
            Some(n)
        } else {
            None
        },
{
    lemma_dec_digits(n);
    assert(is_digit(dec(n)[0]));
    assert((seq!['+'] + dec(n)).drop_first() =~= dec(n));
}

/// A text with anything but digits in it, behind at most one plus sign, is no
/// number, and neither is one without digits.
pub proof fn law_only_digits_are_numbers(s: Seq<char>, max: nat)
    requires
        parse_number(s, max) is Some,
    ensures
        parse_number(s, max)->0 <= max,
        exists|i: int| 0 <= i < s.len() && '0' <= #[trigger] s[i] <= '9',
        forall|i: int| 0 < i < s.len() ==> '0' <= #[trigger] s[i] <= '9',
        '0' <= s[0] <= '9' || s[0] == '+',
{
    let d = unsigned(s);
    let k = s.len() - d.len();
    assert(is_digit(d[0]));
    assert(s[k] == d[0]);
    assert forall|i: int| 0 < i < s.len() implies '0' <= #[trigger] s[i] <= '9' by {
        assert(d[i - k] == s[i]);
    }
}

/// One more digit makes a number ten times as large, and adds itself.
pub proof fn law_digits_count_by_place(s: Seq<char>, c: char)
    requires
        '0' <= c <= '9',
    ensures
        number(Seq::empty()) == 0,
        number(s.push(c)) == 10 * number(s) + (c as u32 - '0' as u32),
{
    assert(s.push(c).drop_last() =~= s);
}

/// Padding only ever adds: on the left it puts fill characters in front, on
/// the right spaces behind, as many as are missing.
pub proof fn law_padding(s: Seq<char>, width: nat, fill: char)
    ensures
        pad_left(s, width, fill).len() == if s.len() < width {
            width
        } else {
            s.len()
        },
        pad_right(s, width).len() == pad_left(s, width, fill).len(),
        s.is_suffix_of(pad_left(s, width, fill)),
        s.is_prefix_of(pad_right(s, width)),
        forall|i: int|
            0 <= i < pad_left(s, width, fill).len() - s.len() ==> #[trigger] pad_left(
                s,
                width,
                fill,
            )[i] == fill,
        forall|i: int|
            s.len() <= i < pad_right(s, width).len() ==> #[trigger] pad_right(s, width)[i] == ' ',
{
    let l = pad_left(s, width, fill);
    let r = pad_right(s, width);
    assert(l.skip(l.len() - s.len()) =~= s);
    assert(r.take(s.len() as int) =~= s);
}

/// Two lists joined one after the other are joined by one more separator; a
/// single part stands for itself, and nothing for nothing.
pub proof fn law_join(a: Seq<Seq<char>>, b: Seq<Seq<char>>, sep: Seq<char>, part: Seq<char>)
    ensures
        join(Seq::empty(), sep) == Seq::<char>::empty(),
        join(seq![part], sep) == part,
        a.len() > 0 && b.len() > 0 ==> join(a + b, sep) == join(a, sep) + sep + join(b, sep),
    decreases b.len(),
{
    if a.len() > 0 && b.len() > 0 {
        let ab = a + b;
        assert(ab.last() == b.last());
        assert(ab.drop_last() =~= a + b.drop_last());
        if b.len() == 1 {
            assert(a + b.drop_last() =~= a);
            assert(join(ab, sep) =~= join(a, sep) + sep + join(b, sep));
        } else {
            law_join(a, b.drop_last(), sep, part);
            assert(join(ab, sep) =~= join(a, sep) + sep + join(b, sep));
        }
    }
}

/// Texts are listed by the first character in which they differ, the smaller
/// one first; a text comes before all that go on from it.
pub proof fn law_text_order(a: Seq<char>, b: Seq<char>)
    ensures
        text_le(a, b) <==> a.is_prefix_of(b) || exists|k: int|
            0 <= k < a.len() && k < b.len() && a.take(k) == b.take(k) && #[trigger] a[k] < b[k],
{
    law_lexicographic_order(a, b, char_lt());
    if exists|k: int| crate::order::differs_at(a, b, char_lt(), k) {
        let k = choose|k: int| crate::order::differs_at(a, b, char_lt(), k);
        assert(a[k] < b[k]);
    }
    if exists|k: int|
        0 <= k < a.len() && k < b.len() && a.take(k) == b.take(k) && #[trigger] a[k] < b[k] {
        let k = choose|k: int|
            0 <= k < a.len() && k < b.len() && a.take(k) == b.take(k) && #[trigger] a[k] < b[k];
        assert(crate::order::differs_at(a, b, char_lt(), k));
    }
}

/// A text of digits is the number that they stand for, leading zeros or not and
/// with a plus sign or without, unless it is above the limit; a text without
/// digits is none.
pub proof fn law_digits_are_numbers(s: Seq<char>, max: nat)
    requires
        forall|i: int| 0 <= i < s.len() ==> '0' <= #[trigger] s[i] <= '9',
    ensures
        s.len() > 0 && number(s) <= max ==> parse_number(s, max) == Some(number(s)),
        s.len() == 0 || number(s) > max ==> parse_number(s, max) is None,
        parse_number(seq!['+'] + s, max) == parse_number(s, max),
{
    assert(unsigned(s) == s);
    assert((seq!['+'] + s).drop_first() =~= s);
    assert forall|i: int| 0 <= i < s.len() implies is_digit(#[trigger] s[i]) by {}
}

}
