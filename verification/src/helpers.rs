//! Small transformations to hand to the map, and ways to make inputs for
//! them.

use rand::Rng;
use vstd::prelude::*;
use vstd::std_specs::cmp::PartialEqSpec;

verus! {

/// What a character that is no hexadecimal digit adds to a hash value.
pub const FALLBACK: u32 = 16;

/// A hexadecimal digit adds its value times this to a hash value.
pub const DIGIT_WEIGHT: u32 = 996;

/// The word that [`is_matched`] looks for.
pub const MATCH: &'static str = "That";

/// The value of `c` as a digit: `0` to `9` for the decimal digits, `10` to
/// `35` for the letters `a` to `z`, in either case. Other characters are no
/// digits.
pub open spec fn digit_value(c: char) -> Option<nat> {
    if '0' <= c <= '9' {
        Some((c as int - '0' as int) as nat)
    } else if 'a' <= c <= 'z' {
        Some((c as int - 'a' as int + 10) as nat)
    } else if 'A' <= c <= 'Z' {
        Some((c as int - 'A' as int + 10) as nat)
    } else {
        None
    }
}

/// The value of `c` as a digit in base `radix`, if it is one.
pub open spec fn to_digit_spec(c: char, radix: u32) -> Option<u32> {
    match digit_value(c) {
        Some(d) => if d < radix {
            Some(d as u32)
        } else {
            None
        },
        None => None,
    }
}

/// `char::to_digit` of the standard library: the digit's value where `c` is
/// a digit in base `radix`, `None` otherwise. It panics on a radix below 2 or
/// above 36, so these are left out.
pub assume_specification[ char::to_digit ](c: char, radix: u32) -> (digit: Option<u32>)
    requires
        2 <= radix <= 36,
    ensures
        digit == to_digit_spec(c, radix),
;

/// What one character adds to a hash value.
pub open spec fn char_value(c: char) -> nat {
    match to_digit_spec(c, 16) {
        Some(d) => (d * DIGIT_WEIGHT) as nat,
        None => FALLBACK as nat,
    }
}

/// The hash value of a string: the sum of what its characters add.
pub open spec fn hash_value(s: Seq<char>) -> nat
    decreases s.len(),
{
    if s.len() == 0 {
        0
    } else {
        hash_value(s.drop_last()) + char_value(s.last())
    }
}

/// No character adds more than `15 * DIGIT_WEIGHT`, so a string of `n`
/// characters has a hash value of at most `14940 * n`.
pub proof fn lemma_hash_value_bound(s: Seq<char>)
    ensures
        hash_value(s) <= 14940 * s.len(),
    decreases s.len(),
{
    if s.len() > 0 {
        lemma_hash_value_bound(s.drop_last());
    }
}

/// The hash value of a prefix is at most that of the whole string.
pub proof fn lemma_hash_value_prefix(s: Seq<char>, n: int)
    requires
        0 <= n <= s.len(),
    ensures
        hash_value(s.take(n)) <= hash_value(s),
    decreases s.len(),
{
    if n == s.len() {
        assert(s.take(n) =~= s);
    } else {
        lemma_hash_value_prefix(s.drop_last(), n);
        assert(s.drop_last().take(n) =~= s.take(n));
    }
}

/// Computes the hash value of `hash`. The value has to fit the result:
/// [`lemma_hash_value_bound`] shows that it does for every string of up to
/// 287 000 characters.
pub fn compute_hash_value(hash: String) -> (value: u32)
    requires
        hash_value(hash@) <= u32::MAX,
    ensures
        value == hash_value(hash@),
{
    let mut total: u32 = 0;
    for c in it: hash.as_str().chars()
        invariant
            it.seq() == hash@,
            hash_value(hash@) <= u32::MAX,
            total == hash_value(hash@.take(it.index() as int)),
    {
        let ghost seen = hash@.take(it.index() as int);
        proof {
            lemma_hash_value_prefix(hash@, it.index() + 1);
            assert(hash@.take(it.index() + 1).drop_last() =~= seen);
        }
        let added: u32 = match c.to_digit(16) {
            Some(val) => val * DIGIT_WEIGHT,
            None => FALLBACK,
        };
        total = total + added;
    }
    proof {
        assert(hash@.take(hash@.len() as int) =~= hash@);
    }
    total
}

/// Says whether the hash value of `hash` is a multiple of three. The value
/// has to fit 32 bits, as for [`compute_hash_value`].
pub fn validate_hash(hash: String) -> (valid: bool)
    requires
        hash_value(hash@) <= u32::MAX,
    ensures
        valid == (hash_value(hash@) % 3 == 0),
{
    let val: u32 = compute_hash_value(hash);
    val % 3 == 0
}

/// Says whether `a` and `b` are equal element by element: `true` where they
/// are equally long and every element of `a` equals the element of `b` at
/// the same place. What "equals" means is said by the `==` of `T`, as far as
/// that has a meaning for proofs.
pub fn cmp_vec<T: PartialEq>(a: &Vec<T>, b: &Vec<T>) -> (same: bool)
    ensures
        same ==> a@.len() == b@.len(),
        T::obeys_eq_spec() ==> (same <==> a@.len() == b@.len() && forall|i: int|
            0 <= i < a@.len() ==> (#[trigger] a@[i]).eq_spec(&b@[i])),
{
    let n: usize = if a.len() < b.len() {
        a.len()
    } else {
        b.len()
    };
    let mut matching: usize = 0;
    let mut i: usize = 0;
    while i < n
        invariant
            i <= n,
            n <= a@.len(),
            n <= b@.len(),
            matching <= i,
            T::obeys_eq_spec() ==> (matching == i <==> forall|j: int|
                0 <= j < i ==> (#[trigger] a@[j]).eq_spec(&b@[j])),
        decreases n - i,
    {
        if a[i] == b[i] {
            matching = matching + 1;
        }
        i = i + 1;
    }
    matching == a.len() && matching == b.len()
}

/// `1` where `s` is the word [`MATCH`], `0` otherwise.
pub fn is_matched(s: String) -> (count: u32)
    ensures
        count == if s@ == MATCH@ {
            1u32
        } else {
            0u32
        },
{
    let wanted: String = MATCH.to_owned();
    if s == wanted {
        1
    } else {
        0
    }
}

/// An ASCII letter or decimal digit.
pub open spec fn is_alphanumeric(c: char) -> bool {
    ('0' <= c <= '9') || ('a' <= c <= 'z') || ('A' <= c <= 'Z')
}

/// `Rng::sample` of `rand`, called on the generator that `rand::thread_rng`
/// hands out, with the distribution `rand::distributions::Alphanumeric`: the
/// byte drawn is an ASCII letter or decimal digit. Which one is not said, and
/// two draws need not agree.
#[verifier::external_body]
fn sample_alphanumeric() -> (byte: u8)
    ensures
        is_alphanumeric(byte as char),
{
    rand::thread_rng().sample(rand::distributions::Alphanumeric)
}

/// `String::push` of the standard library: appends `ch` to `s`.
pub assume_specification[ String::push ](s: &mut String, ch: char)
    ensures
        final(s)@ == old(s)@.push(ch),
;

/// A random string of `hash_len` ASCII letters and decimal digits, each drawn
/// on its own.
pub fn random_hash(hash_len: usize) -> (hash: String)
    ensures
        hash@.len() == hash_len,
        forall|i: int| 0 <= i < hash@.len() ==> is_alphanumeric(#[trigger] hash@[i]),
{
    let mut hash: String = String::new();
    let mut i: usize = 0;
    while i < hash_len
        invariant
            i <= hash_len,
            hash@.len() == i,
            forall|j: int| 0 <= j < hash@.len() ==> is_alphanumeric(#[trigger] hash@[j]),
        decreases hash_len - i,
    {
        let byte: u8 = sample_alphanumeric();
        hash.push(byte as char);
        i = i + 1;
    }
    hash
}

} // verus!
