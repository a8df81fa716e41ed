//! What the small operations on texts are for.
use vstd::prelude::*;

use crate::text::{decimal, is_white, joined_by, number_of, trim, trim_end, trim_start};

verus! {

/// Trimming the end takes white space away from there, and all of it.
pub proof fn lemma_trim_end(s: Seq<char>)
    ensures
        trim_end(s).len() <= s.len(),
        trim_end(s) == s.take(trim_end(s).len() as int),
        forall|i: int| trim_end(s).len() <= i < s.len() ==> is_white(#[trigger] s[i]),
        trim_end(s).len() > 0 ==> !is_white(s[trim_end(s).len() - 1]),
    decreases s.len(),
{
    if s.len() > 0 && is_white(s.last()) {
        lemma_trim_end(s.drop_last());
        assert(trim_end(s) =~= s.take(trim_end(s).len() as int));
        assert forall|i: int| trim_end(s).len() <= i < s.len() implies is_white(#[trigger] s[i]) by {
            if i < s.len() - 1 {
                assert(s.drop_last()[i] == s[i]);
            }
        }
    } else {
        assert(s.take(s.len() as int) =~= s);
    }
}

/// Trimming the start takes white space away from there, and all of it.
pub proof fn lemma_trim_start(s: Seq<char>)
    ensures
        trim_start(s).len() <= s.len(),
        trim_start(s) == s.skip(s.len() - trim_start(s).len()),
        forall|i: int| 0 <= i < s.len() - trim_start(s).len() ==> is_white(#[trigger] s[i]),
        trim_start(s).len() > 0 ==> !is_white(trim_start(s)[0]),
    decreases s.len(),
{
    if s.len() > 0 && is_white(s[0]) {
        lemma_trim_start(s.skip(1));
        assert(trim_start(s) =~= s.skip(s.len() - trim_start(s).len()));
        assert forall|i: int| 0 <= i < s.len() - trim_start(s).len() implies is_white(#[trigger] s[i]) by {
            if i > 0 {
                assert(s.skip(1)[i - 1] == s[i]);
            }
        }
    } else {
        assert(s.skip(0) =~= s);
    }
}

/// A trimmed text is what is left of it between the first and the last
/// character that is not white space; nothing is left where all are.
pub proof fn lemma_trim(s: Seq<char>)
    ensures
        trim(s).len() == 0 <==> forall|i: int| 0 <= i < s.len() ==> is_white(#[trigger] s[i]),
        trim(s).len() > 0 ==> !is_white(trim(s)[0]) && !is_white(trim(s).last()),
        exists|a: int, b: int|
            0 <= a <= b <= s.len() && trim(s) == #[trigger] s.subrange(a, b) && (forall|i: int|
                0 <= i < s.len() && (i < a || b <= i) ==> is_white(#[trigger] s[i])),
{
    let t = trim_start(s);
    lemma_trim_start(s);
    lemma_trim_end(t);
    let a = s.len() - t.len();
    let b = a + trim(s).len();
    assert(trim(s) =~= s.subrange(a, b));
    assert forall|i: int| 0 <= i < s.len() && (i < a || b <= i) implies is_white(#[trigger] s[i]) by {
        if i >= a {
            assert(t[i - a] == s[i]);
        }
    }
    if trim(s).len() > 0 {
        assert(trim(s)[0] == t[0]);
        assert(s[a] == t[0]);
    }
}

/// A number in decimal has the digits that make it up, the first of them no
/// zero unless it is the only one.
pub proof fn lemma_decimal_digits(n: nat)
    ensures
        n < 10 ==> decimal(n) == seq![(n + '0' as u32) as char],
        n >= 10 ==> decimal(n) == decimal(n / 10) + seq![(n % 10 + '0' as u32) as char],
        n > 0 ==> decimal(n)[0] != '0',
    decreases n,
{
    if n >= 10 {
        lemma_decimal_digits(n / 10);
        assert(decimal(n) =~= decimal(n / 10) + seq![(n % 10 + '0' as u32) as char]);
        assert(decimal(n / 10).len() >= 1) by {
            crate::text::lemma_decimal(n / 10);
        }
    } else {
        assert(decimal(n) =~= seq![(n + '0' as u32) as char]);
    }
}

/// Different numbers are written differently.
pub proof fn lemma_decimal_apart(a: nat, b: nat)
    requires
        decimal(a) == decimal(b),
    ensures
        a == b,
{
    crate::text::lemma_decimal(a);
    crate::text::lemma_decimal(b);
}

/// A number that was written in decimal is read as that number, with a plus
/// sign in front or without.
pub proof fn lemma_number_read(n: nat, max: int)
    requires
        n <= max,
    ensures
        number_of(decimal(n), max) == Some(n as int),
        number_of(seq!['+'] + decimal(n), max) == Some(n as int),
{
    crate::text::lemma_decimal(n);
    assert(crate::text::is_digit(decimal(n)[0]));
    assert((seq!['+'] + decimal(n)).skip(1) =~= decimal(n));
}

/// Texts that are joined stand one after the other, in their order, with what
/// goes between them between each two.
pub proof fn lemma_joined(parts: Seq<Seq<char>>, between: Seq<char>)
    ensures
        parts.len() == 0 ==> joined_by(parts, between, parts.len() as int) == Seq::<char>::empty(),
        parts.len() == 1 ==> joined_by(parts, between, parts.len() as int) == parts[0],
        parts.len() == 2 ==> joined_by(parts, between, parts.len() as int) == parts[0] + between + parts[1],
        parts.len() > 2 ==> joined_by(parts, between, parts.len() as int) == parts[0] + between + joined_by(
            parts.skip(1),
            between,
            parts.len() - 1,
        ),
{
    reveal_with_fuel(joined_by, 3);
    if parts.len() > 1 {
        lemma_joined_first(parts, between, parts.len() as int);
    }
}

proof fn lemma_joined_first(parts: Seq<Seq<char>>, between: Seq<char>, k: int)
    requires
        2 <= k <= parts.len(),
    ensures
        joined_by(parts, between, k) == parts[0] + between + joined_by(parts.skip(1), between, k - 1),
    decreases k,
{
    reveal_with_fuel(joined_by, 3);
    if k > 2 {
        lemma_joined_first(parts, between, k - 1);
        assert(parts.skip(1)[k - 2] == parts[k - 1]);
        assert(joined_by(parts, between, k) =~= parts[0] + between + joined_by(parts.skip(1), between, k - 1));
    }
}

} // verus!
