//! The names of a segment's files: the base offset in decimal, a dot, and
//! `store` or `index`.

use vstd::prelude::*;
use vstd::string::{StrSliceExecFns, StringExecFns};

verus! {

/// The character of a decimal digit.
pub open spec fn digit_char(d: nat) -> char
    recommends
        d < 10,
{
    (d + 48) as char
}

/// Whether a character is a decimal digit.
pub open spec fn is_digit(c: char) -> bool {
    48 <= c as u32 <= 57
}

/// The decimal digits of `n`, without leading zeros.
pub open spec fn decimal_digits(n: nat) -> Seq<char>
    decreases n,
{
    if n < 10 {
        seq![digit_char(n)]
    } else {
        decimal_digits(n / 10).push(digit_char(n % 10))
    }
}

/// The number that a sequence of decimal digits spells.
pub open spec fn decimal_value(s: Seq<char>) -> nat
    decreases s.len(),
{
    if s.len() == 0 {
        0
    } else {
        decimal_value(s.drop_last()) * 10 + (s.last() as u32 - 48) as nat
    }
}

/// Whether every character is a decimal digit.
pub open spec fn all_digits(s: Seq<char>) -> bool {
    forall|i: int| 0 <= i < s.len() ==> is_digit(#[trigger] s[i])
}

/// The number that `s` spells in decimal, if it is one or more digits and
/// the number fits a `u64`.
pub open spec fn parse_decimal(s: Seq<char>) -> Option<u64> {
    if s.len() > 0 && all_digits(s) && decimal_value(s) <= u64::MAX {
        Some(decimal_value(s) as u64)
    } else {
        None
    }
}

/// The extension of a store file, with its dot.
pub open spec fn store_suffix() -> Seq<char> {
    seq!['.', 's', 't', 'o', 'r', 'e']
}

/// The extension of an index file, with its dot.
pub open spec fn index_suffix() -> Seq<char> {
    seq!['.', 'i', 'n', 'd', 'e', 'x']
}

/// The name of the store file of the segment at `base`.
pub open spec fn store_name_of(base: u64) -> Seq<char> {
    decimal_digits(base as nat) + store_suffix()
}

/// The name of the index file of the segment at `base`.
pub open spec fn index_name_of(base: u64) -> Seq<char> {
    decimal_digits(base as nat) + index_suffix()
}

/// The base offset that a file name gives if it is the name of a store
/// file: a decimal number that fits a `u64`, followed by `.store`.
pub open spec fn store_base(name: Seq<char>) -> Option<u64> {
    if name.len() >= 6 && name.subrange(name.len() - 6, name.len() as int) == store_suffix() {
        parse_decimal(name.subrange(0, name.len() - 6))
    } else {
        None
    }
}

/// The digits of a number spell that number.
pub proof fn lemma_decimal_roundtrip(n: nat)
    ensures
        decimal_digits(n).len() > 0,
        all_digits(decimal_digits(n)),
        decimal_value(decimal_digits(n)) == n,
    decreases n,
{
    let s = decimal_digits(n);
    if n < 10 {
        assert(s.drop_last() =~= Seq::<char>::empty());
        assert(decimal_value(s.drop_last()) == 0);
        assert(s.last() == digit_char(n));
    } else {
        lemma_decimal_roundtrip(n / 10);
        assert(s.drop_last() =~= decimal_digits(n / 10));
        assert(s.last() == digit_char(n % 10));
        assert forall|i: int| 0 <= i < s.len() implies is_digit(#[trigger] s[i]) by {
            if i < s.len() - 1 {
                assert(s[i] == decimal_digits(n / 10)[i]);
            }
        }
    }
}

/// The name of a store file gives back the base offset it was made of.
pub proof fn lemma_store_name_parses(base: u64)
    ensures
        store_base(store_name_of(base)) == Some(base),
{
    let digits = decimal_digits(base as nat);
    let name = store_name_of(base);
    lemma_decimal_roundtrip(base as nat);
    assert(name.subrange(name.len() - 6, name.len() as int) =~= store_suffix());
    assert(name.subrange(0, name.len() - 6) =~= digits);
}

/// The name of an index file is not the name of a store file.
pub proof fn lemma_index_name_is_no_store_name(base: u64)
    ensures
        store_base(index_name_of(base)) is None,
{
    let name = index_name_of(base);
    let tail = name.subrange(name.len() - 6, name.len() as int);
    assert(tail =~= index_suffix());
    assert(tail[1] == 'i');
    assert(store_suffix()[1] == 's');
}

/// Store files of different segments have different names, and no store
/// file has the name of an index file.
pub proof fn lemma_names_differ(a: u64, b: u64)
    ensures
        store_name_of(a) == store_name_of(b) ==> a == b,
        index_name_of(a) == index_name_of(b) ==> a == b,
        store_name_of(a) != index_name_of(b),
{
    lemma_decimal_roundtrip(a as nat);
    lemma_decimal_roundtrip(b as nat);
    let da = decimal_digits(a as nat);
    let db = decimal_digits(b as nat);
    if store_name_of(a) == store_name_of(b) {
        assert(store_name_of(a).len() == da.len() + 6);
        assert(store_name_of(b).len() == db.len() + 6);
        assert(da =~= store_name_of(a).subrange(0, da.len() as int));
        assert(db =~= store_name_of(b).subrange(0, db.len() as int));
    }
    if index_name_of(a) == index_name_of(b) {
        assert(index_name_of(a).len() == da.len() + 6);
        assert(index_name_of(b).len() == db.len() + 6);
        assert(da =~= index_name_of(a).subrange(0, da.len() as int));
        assert(db =~= index_name_of(b).subrange(0, db.len() as int));
    }
    if store_name_of(a) == index_name_of(b) {
        assert(store_name_of(a).len() == da.len() + 6);
        assert(index_name_of(b).len() == db.len() + 6);
        assert(store_name_of(a)[da.len() as int + 1] == 's');
        assert(index_name_of(b)[db.len() as int + 1] == 'i');
    }
}

/// `u64::to_string`: the decimal digits of `n`, without sign or leading
/// zeros.
#[verifier::external_body]
pub(crate) fn decimal_string(n: u64) -> (s: String)
    ensures
        s@ == decimal_digits(n as nat),
{
    n.to_string()
}

/// The name of the store file of the segment at `base`.
pub fn store_name(base: u64) -> (name: String)
    ensures
        name@ == store_name_of(base),
{
    proof {
        reveal_strlit(".store");
    }
    let name = decimal_string(base).concat(".store");
    assert(name@ =~= store_name_of(base));
    name
}

/// The name of the index file of the segment at `base`.
pub fn index_name(base: u64) -> (name: String)
    ensures
        name@ == index_name_of(base),
{
    proof {
        reveal_strlit(".index");
    }
    let name = decimal_string(base).concat(".index");
    assert(name@ =~= index_name_of(base));
    name
}

/// Reads the base offset from the name of a store file.
#[verifier::spinoff_prover]
pub fn parse_store_name(name: &str) -> (r: Option<u64>)
    ensures
        r == store_base(name@),
{
    proof {
        reveal_strlit(".store");
    }
    let suffix = ".store";
    let len: usize = name.unicode_len();
    if len < 6 {
        return None;
    }
    let stem_len: usize = len - 6;
    let ghost tail = name@.subrange(stem_len as int, len as int);
    let mut i: usize = 0;
    while i < 6
        invariant
            i <= 6,
            stem_len + 6 == len == name@.len(),
            suffix@ == store_suffix(),
            tail == name@.subrange(stem_len as int, len as int),
            forall|j: int| 0 <= j < i ==> tail[j] == store_suffix()[j],
        decreases 6 - i,
    {
        if name.get_char(stem_len + i) != suffix.get_char(i) {
            assert(tail[i as int] != store_suffix()[i as int]);
            return None;
        }
        i = i + 1;
    }
    assert(tail =~= store_suffix());
    if stem_len == 0 {
        return None;
    }
    let ghost stem = name@.subrange(0, stem_len as int);
    let mut value: u64 = 0;
    let mut k: usize = 0;
    while k < stem_len
        invariant
            0 < stem_len,
            k <= stem_len,
            stem_len + 6 == name@.len(),
            name@.subrange(name@.len() - 6, name@.len() as int) == store_suffix(),
            stem == name@.subrange(0, stem_len as int),
            all_digits(stem.subrange(0, k as int)),
            value == decimal_value(stem.subrange(0, k as int)),
        decreases stem_len - k,
    {
        let c = name.get_char(k);
        let code: u32 = c as u32;
        let ghost next = stem.subrange(0, k + 1);
        assert(next.drop_last() =~= stem.subrange(0, k as int));
        assert(next.last() == c);
        if code < 48 || code > 57 {
            assert(!is_digit(stem[k as int]));
            return None;
        }
        let digit: u64 = (code - 48) as u64;
        if value > (u64::MAX - digit) / 10 {
            proof {
                if all_digits(stem) {
                    lemma_decimal_value_grows(next, stem);
                }
            }
            return None;
        }
        value = value * 10 + digit;
        k = k + 1;
        assert forall|j: int| 0 <= j < next.len() implies is_digit(#[trigger] next[j]) by {
            if j < k - 1 {
                assert(next[j] == stem.subrange(0, k - 1)[j]);
            }
        }
    }
    assert(stem.subrange(0, stem_len as int) =~= stem);
    Some(value)
}

/// A sequence of digits spells at least what each of its prefixes spells.
pub proof fn lemma_decimal_value_grows(prefix: Seq<char>, s: Seq<char>)
    requires
        prefix.len() <= s.len(),
        prefix == s.subrange(0, prefix.len() as int),
        forall|i: int| 0 <= i < s.len() ==> (#[trigger] s[i]) as u32 >= 48,
    ensures
        decimal_value(prefix) <= decimal_value(s),
    decreases s.len(),
{
    if prefix.len() < s.len() {
        assert(prefix =~= s.drop_last().subrange(0, prefix.len() as int));
        lemma_decimal_value_grows(prefix, s.drop_last());
    } else {
        assert(prefix =~= s);
    }
}

} // verus!
