//! Text as a sequence of characters: the helpers the rest of the library
//! reads and writes it with.
use vstd::prelude::*;

verus! {

/// `String::push`: the character goes at the end.
pub assume_specification[ String::push ](s: &mut String, c: char)
    ensures
        final(s)@ == old(s)@.push(c),
;

/// `String::push_str`: the text goes at the end.
pub assume_specification[ String::push_str ](s: &mut String, t: &str)
    ensures
        final(s)@ == old(s)@ + t@,
;

/// The characters of `s`, in order.
pub fn chars_of(s: &str) -> (out: Vec<char>)
    ensures
        out@ == s@,
{
    let mut out: Vec<char> = Vec::new();
    for c in it: s.chars()
        invariant
            out@ == s@.take(it.index()),
            it.seq() == s@,
    {
        out.push(c);
        assert(s@.take(it.index() + 1) =~= s@.take(it.index()).push(c));
    }
    assert(s@.take(s@.len() as int) =~= s@);
    out
}

/// The characters `from..to` of `v` as a string.
pub fn string_of(v: &Vec<char>, from: usize, to: usize) -> (out: String)
    requires
        from <= to <= v@.len(),
    ensures
        out@ == v@.subrange(from as int, to as int),
{
    let mut out = String::new();
    let mut i: usize = from;
    while i < to
        invariant
            from <= i <= to <= v@.len(),
            out@ == v@.subrange(from as int, i as int),
        decreases to - i,
    {
        out.push(v[i]);
        assert(v@.subrange(from as int, i + 1) =~= v@.subrange(from as int, i as int).push(v@[i as int]));
        i = i + 1;
    }
    out
}

/// The decimal digit for `d`.
pub open spec fn digit_char(d: nat) -> char {
    if d == 0 {
        '0'
    } else if d == 1 {
        '1'
    } else if d == 2 {
        '2'
    } else if d == 3 {
        '3'
    } else if d == 4 {
        '4'
    } else if d == 5 {
        '5'
    } else if d == 6 {
        '6'
    } else if d == 7 {
        '7'
    } else if d == 8 {
        '8'
    } else {
        '9'
    }
}

/// `n` in decimal, without leading zeros.
pub open spec fn decimal(n: nat) -> Seq<char>
    decreases n,
{
    if n < 10 {
        seq![digit_char(n)]
    } else {
        decimal(n / 10).push(digit_char(n % 10))
    }
}

pub fn digit_of(d: u64) -> (c: char)
    requires
        d < 10,
    ensures
        c == digit_char(d as nat),
{
    match d {
        0 => '0',
        1 => '1',
        2 => '2',
        3 => '3',
        4 => '4',
        5 => '5',
        6 => '6',
        7 => '7',
        8 => '8',
        _ => '9',
    }
}

/// Appends `n` in decimal.
pub fn push_decimal(out: &mut String, n: u64)
    ensures
        final(out)@ == old(out)@ + decimal(n as nat),
    decreases n,
{
    if n < 10 {
        out.push(digit_of(n));
        assert(old(out)@.push(digit_char(n as nat)) =~= old(out)@ + decimal(n as nat));
    } else {
        push_decimal(out, n / 10);
        out.push(digit_of(n % 10));
        assert(out@ =~= old(out)@ + decimal(n as nat));
    }
}

fn push_wide(out: &mut String, n: u128)
    ensures
        final(out)@ == old(out)@ + decimal(n as nat),
    decreases n,
{
    if n < 10 {
        out.push(digit_of(n as u64));
        assert(old(out)@.push(digit_char(n as nat)) =~= old(out)@ + decimal(n as nat));
    } else {
        push_wide(out, n / 10);
        out.push(digit_of((n % 10) as u64));
        assert(out@ =~= old(out)@ + decimal(n as nat));
    }
}

/// Appends a sum in decimal.
pub fn push_sum(out: &mut String, a: u64, b: u64)
    ensures
        final(out)@ == old(out)@ + decimal((a + b) as nat),
{
    push_wide(out, a as u128 + b as u128);
}

/// The characters with the Unicode `White_Space` property.
pub open spec fn is_white(c: char) -> bool {
    ||| '\u{9}' <= c <= '\u{d}'
    ||| c == ' '
    ||| c == '\u{85}'
    ||| c == '\u{a0}'
    ||| c == '\u{1680}'
    ||| '\u{2000}' <= c <= '\u{200a}'
    ||| c == '\u{2028}'
    ||| c == '\u{2029}'
    ||| c == '\u{202f}'
    ||| c == '\u{205f}'
    ||| c == '\u{3000}'
}

/// Whether `c` is white space.
pub fn is_whitespace(c: char) -> (b: bool)
    ensures
        b == is_white(c),
{
    ('\u{9}' <= c && c <= '\u{d}') || c == ' ' || c == '\u{85}' || c == '\u{a0}' || c == '\u{1680}' || (
    '\u{2000}' <= c && c <= '\u{200a}') || c == '\u{2028}' || c == '\u{2029}' || c == '\u{202f}' || c
        == '\u{205f}' || c == '\u{3000}'
}

/// Whether `s` begins with `head`.
pub fn begins_with(s: &Vec<char>, head: &Vec<char>) -> (b: bool)
    ensures
        b == head@.is_prefix_of(s@),
{
    if s.len() < head.len() {
        return false;
    }
    let mut i: usize = 0;
    while i < head.len()
        invariant
            i <= head@.len() <= s@.len(),
            forall|j: int| 0 <= j < i ==> head@[j] == s@[j],
        decreases head.len() - i,
    {
        if head[i] != s[i] {
            assert(s@.subrange(0, head@.len() as int)[i as int] != head@[i as int]);
            return false;
        }
        i = i + 1;
    }
    assert(head@ =~= s@.subrange(0, head@.len() as int));
    true
}

/// What a digit stands for.
pub open spec fn digit_value(c: char) -> nat {
    (c as u32 - '0' as u32) as nat
}

pub open spec fn is_digit(c: char) -> bool {
    '0' <= c <= '9'
}

/// The number that a row of decimal digits writes.
pub open spec fn numeral(s: Seq<char>) -> nat
    decreases s.len(),
{
    if s.len() == 0 {
        0
    } else {
        numeral(s.drop_last()) * 10 + digit_value(s.last())
    }
}

pub proof fn lemma_decimal(n: nat)
    ensures
        decimal(n).len() >= 1,
        forall|i: int| 0 <= i < decimal(n).len() ==> is_digit(#[trigger] decimal(n)[i]),
        numeral(decimal(n)) == n,
    decreases n,
{
    if n < 10 {
        reveal_with_fuel(numeral, 2);
        assert(decimal(n).drop_last() =~= Seq::<char>::empty());
    } else {
        lemma_decimal(n / 10);
        assert(decimal(n).drop_last() =~= decimal(n / 10));
        assert(digit_value(digit_char(n % 10)) == n % 10);
    }
}

/// Where the digits of `s` from `i` on end.
pub open spec fn digits_end(s: Seq<char>, i: int) -> int
    decreases s.len() - i,
{
    if 0 <= i < s.len() && is_digit(s[i]) {
        digits_end(s, i + 1)
    } else {
        i
    }
}

pub proof fn lemma_digits_end(s: Seq<char>, i: int, e: int)
    requires
        0 <= i <= e <= s.len(),
        forall|j: int| i <= j < e ==> is_digit(#[trigger] s[j]),
        e < s.len() ==> !is_digit(s[e]),
    ensures
        digits_end(s, i) == e,
    decreases e - i,
{
    if i < e {
        lemma_digits_end(s, i + 1, e);
    }
}

/// `s` without the white space in front.
pub open spec fn trim_start(s: Seq<char>) -> Seq<char>
    decreases s.len(),
{
    if s.len() > 0 && is_white(s[0]) {
        trim_start(s.skip(1))
    } else {
        s
    }
}

/// `s` without the white space behind.
pub open spec fn trim_end(s: Seq<char>) -> Seq<char>
    decreases s.len(),
{
    if s.len() > 0 && is_white(s.last()) {
        trim_end(s.drop_last())
    } else {
        s
    }
}

/// `s` without the white space around it.
pub open spec fn trim(s: Seq<char>) -> Seq<char> {
    trim_end(trim_start(s))
}

/// The first character of `s` that is not white space, or its length.
pub fn start_of(s: &Vec<char>) -> (i: usize)
    ensures
        i <= s@.len(),
        trim_start(s@) == s@.skip(i as int),
        i < s@.len() ==> !is_white(s@[i as int]),
{
    let mut i: usize = 0;
    assert(s@.skip(0) =~= s@);
    while i < s.len() && is_whitespace(s[i])
        invariant
            i <= s@.len(),
            trim_start(s@) == trim_start(s@.skip(i as int)),
        decreases s.len() - i,
    {
        assert(s@.skip(i as int)[0] == s@[i as int]);
        assert(s@.skip(i as int).skip(1) =~= s@.skip(i + 1));
        i = i + 1;
    }
    if i < s.len() {
        assert(s@.skip(i as int)[0] == s@[i as int]);
    }
    i
}

/// The end of `s` from `from` on without the white space behind.
pub fn end_of(s: &Vec<char>, from: usize) -> (e: usize)
    requires
        from <= s@.len(),
    ensures
        from <= e <= s@.len(),
        trim_end(s@.skip(from as int)) == s@.subrange(from as int, e as int),
{
    let mut e: usize = s.len();
    assert(s@.skip(from as int) =~= s@.subrange(from as int, e as int));
    while e > from && is_whitespace(s[e - 1])
        invariant
            from <= e <= s@.len(),
            trim_end(s@.skip(from as int)) == trim_end(s@.subrange(from as int, e as int)),
        decreases e,
    {
        assert(s@.subrange(from as int, e as int).drop_last() =~= s@.subrange(from as int, e - 1));
        assert(s@.subrange(from as int, e as int).last() == s@[e - 1]);
        e = e - 1;
    }
    if e > from {
        assert(s@.subrange(from as int, e as int).last() == s@[e - 1]);
    }
    e
}

/// The characters of `s` without the white space around them.
pub fn trimmed(s: &Vec<char>) -> (out: Vec<char>)
    ensures
        out@ == trim(s@),
{
    let i: usize = start_of(s);
    let e: usize = end_of(s, i);
    part_of(s, i, e)
}

/// The characters `from..to` of `s`.
pub fn part_of(s: &Vec<char>, from: usize, to: usize) -> (out: Vec<char>)
    requires
        from <= to <= s@.len(),
    ensures
        out@ == s@.subrange(from as int, to as int),
{
    let mut out: Vec<char> = Vec::new();
    let mut i: usize = from;
    while i < to
        invariant
            from <= i <= to <= s@.len(),
            out@ == s@.subrange(from as int, i as int),
        decreases to - i,
    {
        out.push(s[i]);
        assert(s@.subrange(from as int, i + 1) =~= s@.subrange(from as int, i as int).push(s@[i as int]));
        i = i + 1;
    }
    out
}

/// `part` stands in `s` at place `i`.
pub open spec fn stands_at(s: Seq<char>, i: int, part: Seq<char>) -> bool {
    &&& 0 <= i
    &&& i + part.len() <= s.len()
    &&& forall|j: int| 0 <= j < part.len() ==> s[i + j] == #[trigger] part[j]
}

pub proof fn lemma_stands_concat(s: Seq<char>, i: int, a: Seq<char>, b: Seq<char>)
    requires
        stands_at(s, i, a + b),
    ensures
        stands_at(s, i, a),
        stands_at(s, i + a.len(), b),
{
    assert forall|j: int| 0 <= j < a.len() implies s[i + j] == #[trigger] a[j] by {
        assert((a + b)[j] == a[j]);
    }
    assert forall|j: int| 0 <= j < b.len() implies s[i + a.len() + j] == #[trigger] b[j] by {
        assert((a + b)[a.len() + j] == b[j]);
    }
}

/// Whether `s` from `from` on is the text `word`.
pub fn rest_is(s: &Vec<char>, from: usize, word: &str) -> (b: bool)
    requires
        from <= s@.len(),
    ensures
        b == (s@.skip(from as int) == word@),
{
    let w = chars_of(word);
    let n: usize = s.len();
    if n - from != w.len() {
        return false;
    }
    let mut i: usize = 0;
    while i < w.len()
        invariant
            n == s@.len(),
            i <= w@.len(),
            w@ == word@,
            from <= s@.len(),
            s@.len() - from == w@.len(),
            forall|j: int| 0 <= j < i ==> s@[from + j] == w@[j],
        decreases w.len() - i,
    {
        if s[from + i] != w[i] {
            assert(s@.skip(from as int)[i as int] != word@[i as int]);
            return false;
        }
        i = i + 1;
    }
    assert(s@.skip(from as int) =~= word@);
    true
}

/// Whether two texts are the same.
pub fn same_text(a: &str, b: &str) -> (r: bool)
    ensures
        r == (a@ == b@),
{
    let s = chars_of(a);
    assert(s@.skip(0) =~= s@);
    rest_is(&s, 0, b)
}

/// The bytes of `s` in UTF-8.
pub fn bytes_of(s: &str) -> (out: Vec<u8>)
    ensures
        out@ == vstd::utf8::encode_utf8(s@),
{
    let bytes = s.as_bytes();
    let mut out: Vec<u8> = Vec::new();
    let mut i: usize = 0;
    while i < bytes.len()
        invariant
            i <= bytes@.len(),
            out@ == bytes@.take(i as int),
        decreases bytes.len() - i,
    {
        out.push(bytes[i]);
        assert(bytes@.take(i + 1) =~= bytes@.take(i as int).push(bytes@[i as int]));
        i = i + 1;
    }
    assert(bytes@.take(i as int) =~= bytes@);
    out
}

/// `s` without a plus sign in front.
pub open spec fn unsigned(s: Seq<char>) -> Seq<char> {
    if s.len() > 0 && s[0] == '+' {
        s.skip(1)
    } else {
        s
    }
}

pub open spec fn all_digits(s: Seq<char>) -> bool {
    forall|i: int| 0 <= i < s.len() ==> is_digit(#[trigger] s[i])
}

/// The number a text writes in decimal, a plus sign in front or not, when it
/// is at most `max`.
pub open spec fn number_of(s: Seq<char>, max: int) -> Option<int> {
    let digits = unsigned(s);
    if digits.len() > 0 && all_digits(digits) && numeral(digits) <= max {
        Some(numeral(digits) as int)
    } else {
        None
    }
}

proof fn lemma_numeral_grows(s: Seq<char>, k: int)
    requires
        0 <= k <= s.len(),
        forall|i: int| 0 <= i < s.len() ==> is_digit(#[trigger] s[i]),
    ensures
        numeral(s.take(k)) <= numeral(s),
    decreases s.len() - k,
{
    if k < s.len() {
        lemma_numeral_grows(s, k + 1);
        assert(s.take(k + 1).drop_last() =~= s.take(k));
    } else {
        assert(s.take(k) =~= s);
    }
}

/// Reads a decimal number of at most `max`.
pub fn read_number(s: &Vec<char>, max: u64) -> (n: Option<u64>)
    ensures
        match n {
            Some(v) => number_of(s@, max as int) == Some(v as int) && v <= max,
            None => number_of(s@, max as int) is None,
        },
{
    let from: usize = if s.len() > 0 && s[0] == '+' { 1 } else { 0 };
    let ghost digits = unsigned(s@);
    assert(digits =~= s@.skip(from as int));
    if s.len() == from {
        return None;
    }
    let mut n: u64 = 0;
    let mut i: usize = from;
    assert(digits.take(0) =~= Seq::<char>::empty());
    while i < s.len()
        invariant
            from <= i <= s@.len(),
            digits == unsigned(s@),
            digits == s@.skip(from as int),
            n == numeral(digits.take(i - from)),
            n <= max,
            forall|j: int| 0 <= j < i - from ==> is_digit(#[trigger] digits[j]),
        decreases s.len() - i,
    {
        let c: char = s[i];
        assert(digits[i - from] == c);
        if !('0' <= c && c <= '9') {
            return None;
        }
        assert(digits.take(i - from + 1).drop_last() =~= digits.take(i - from));
        let next: u128 = n as u128 * 10 + (c as u32 - '0' as u32) as u128;
        if next > max as u128 {
            proof {
                if all_digits(digits) {
                    lemma_numeral_grows(digits, i - from + 1);
                }
            }
            return None;
        }
        n = next as u64;
        i = i + 1;
    }
    assert(digits.take(i - from) =~= digits);
    Some(n)
}

/// Appends the characters `from..to` of `v`.
pub fn push_part(out: &mut String, v: &Vec<char>, from: usize, to: usize)
    requires
        from <= to <= v@.len(),
    ensures
        final(out)@ == old(out)@ + v@.subrange(from as int, to as int),
{
    let part = string_of(v, from, to);
    out.push_str(part.as_str());
}

/// `s` in lower case, by the Unicode rules that `str::to_lowercase` follows.
pub uninterp spec fn lower(s: Seq<char>) -> Seq<char>;

/// `str::to_lowercase`: a function of the text alone.
#[verifier::external_body]
pub(crate) fn lowercase(s: &str) -> (out: String)
    ensures
        out@ == lower(s@),
{
    s.to_lowercase()
}

/// `part` stands somewhere in `s`.
pub open spec fn holds(s: Seq<char>, part: Seq<char>) -> bool {
    exists|i: int| #[trigger] stands_at(s, i, part)
}

/// The first place of `part` in `s`, if it stands there.
pub fn find_text(s: &Vec<char>, part: &Vec<char>) -> (at: Option<usize>)
    ensures
        match at {
            Some(i) => stands_at(s@, i as int, part@) && forall|j: int| 0 <= j < i ==> !#[trigger] stands_at(s@, j, part@),
            None => !holds(s@, part@),
        },
{
    if part.len() > s.len() {
        return None;
    }
    let n: usize = s.len();
    let last: usize = n - part.len();
    let mut i: usize = 0;
    while i <= last
        invariant
            n == s@.len(),
            last == n - part@.len(),
            i <= last + 1,
            forall|j: int| 0 <= j < i ==> !#[trigger] stands_at(s@, j, part@),
        decreases last + 1 - i,
    {
        let mut k: usize = 0;
        while k < part.len() && s[i + k] == part[k]
            invariant
                i <= last,
                n == s@.len(),
                last == n - part@.len(),
                k <= part@.len(),
                forall|j: int| 0 <= j < k ==> s@[i + j] == part@[j],
            decreases part.len() - k,
        {
            k = k + 1;
        }
        if k == part.len() {
            assert(stands_at(s@, i as int, part@));
            return Some(i);
        }
        assert(!stands_at(s@, i as int, part@)) by {
            if stands_at(s@, i as int, part@) {
                assert(s@[i + k] == part@[k as int]);
            }
        }
        if i == last {
            assert forall|j: int| !#[trigger] stands_at(s@, j, part@) by {}
            return None;
        }
        i = i + 1;
    }
    None
}

/// `n` in decimal.
pub fn number_text(n: u64) -> (out: String)
    ensures
        out@ == decimal(n as nat),
{
    let mut out = String::new();
    push_decimal(&mut out, n);
    assert(Seq::<char>::empty() + decimal(n as nat) =~= decimal(n as nat));
    out
}

/// Texts one after the other.
pub fn joined2(a: &str, b: &str) -> (out: String)
    ensures
        out@ == a@ + b@,
{
    let mut out = a.to_owned();
    out.push_str(b);
    out
}

pub fn joined3(a: &str, b: &str, c: &str) -> (out: String)
    ensures
        out@ == a@ + b@ + c@,
{
    let mut out = a.to_owned();
    out.push_str(b);
    out.push_str(c);
    out
}

/// The texts of a row of strings.
pub open spec fn texts_of(v: Seq<String>) -> Seq<Seq<char>> {
    Seq::new(v.len(), |i: int| v[i]@)
}

/// The first `k` of `parts`, with `between` between them.
pub open spec fn joined_by(parts: Seq<Seq<char>>, between: Seq<char>, k: int) -> Seq<char>
    decreases k,
{
    if k <= 0 {
        Seq::empty()
    } else if k == 1 {
        parts[0]
    } else {
        joined_by(parts, between, k - 1) + between + parts[k - 1]
    }
}

/// `parts` as one text, with `between` between them.
pub fn join_texts(parts: &Vec<String>, between: &str) -> (out: String)
    ensures
        out@ == joined_by(texts_of(parts@), between@, parts@.len() as int),
{
    let mut out = String::new();
    let mut i: usize = 0;
    while i < parts.len()
        invariant
            i <= parts@.len(),
            out@ == joined_by(texts_of(parts@), between@, i as int),
        decreases parts.len() - i,
    {
        if i > 0 {
            out.push_str(between);
        }
        out.push_str(parts[i].as_str());
        proof {
            if i == 0 {
                assert(Seq::<char>::empty() + parts@[0]@ =~= parts@[0]@);
            }
        }
        i = i + 1;
    }
    out
}

} // verus!
