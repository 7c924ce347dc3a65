//! Segment file names: the first position in twenty decimal digits, padded
//! with zeros, so that names sort as positions do.
use vstd::prelude::*;

verus! {

/// The length of a segment file name.
pub const NAME_LEN: usize = 20;

pub open spec fn is_digit(b: u8) -> bool {
    48 <= b <= 57
}

pub open spec fn all_digits(s: Seq<u8>) -> bool {
    forall|i: int| 0 <= i < s.len() ==> is_digit(#[trigger] s[i])
}

/// The number that decimal digits spell, most significant first.
pub open spec fn digits_value(s: Seq<u8>) -> nat
    decreases s.len(),
{
    if s.len() == 0 {
        0
    } else {
        digits_value(s.drop_last()) * 10 + (s.last() - 48) as nat
    }
}

pub open spec fn pow10(k: nat) -> nat
    decreases k,
{
    if k == 0 {
        1
    } else {
        10 * pow10((k - 1) as nat)
    }
}

/// A digit in front adds its value times the weight of its place.
proof fn lemma_digits_prepend(d: u8, s: Seq<u8>)
    requires
        is_digit(d),
        all_digits(s),
    ensures
        digits_value(seq![d] + s) == (d - 48) as nat * pow10(s.len()) + digits_value(s),
    decreases s.len(),
{
    if s.len() == 0 {
        assert(seq![d] + s =~= seq![d]);
        assert(seq![d].drop_last() =~= Seq::<u8>::empty());
        assert(seq![d].last() == d);
        assert(digits_value(seq![d]) == digits_value(Seq::<u8>::empty()) * 10 + (d - 48) as nat);
        assert(pow10(0) == 1);
        assert((d - 48) as nat * 1 == (d - 48) as nat);
    } else {
        let init = s.drop_last();
        lemma_digits_prepend(d, init);
        assert((seq![d] + s).drop_last() =~= seq![d] + init);
        let a = (d - 48) as nat;
        let p = pow10(init.len());
        assert((seq![d] + s).last() == s.last());
        assert(pow10(s.len()) == 10 * p);
        assert(a * (10 * p) == (a * p) * 10) by (nonlinear_arith);
        assert(digits_value(s) == digits_value(init) * 10 + (s.last() - 48) as nat);
        assert(digits_value(seq![d] + s) == digits_value(seq![d] + init) * 10 + (s.last() - 48) as nat);
        assert((a * p + digits_value(init)) * 10 == (a * p) * 10 + digits_value(init) * 10) by (nonlinear_arith);
    }
}

/// A longer run of digits spells at least as much as its prefix.
proof fn lemma_digits_prefix(s: Seq<u8>, i: int)
    requires
        all_digits(s),
        0 <= i <= s.len(),
    ensures
        digits_value(s.subrange(0, i)) <= digits_value(s),
    decreases s.len() - i,
{
    if i < s.len() {
        lemma_digits_prefix(s, i + 1);
        assert(s.subrange(0, i + 1).drop_last() =~= s.subrange(0, i));
    } else {
        assert(s.subrange(0, i) =~= s);
    }
}

/// Reads a segment file name: twenty decimal digits whose value fits a `u64`.
pub fn parse_segment_name(name: &[u8]) -> (r: Option<u64>)
    ensures
        r == (if name@.len() == NAME_LEN && all_digits(name@) && digits_value(name@) <= u64::MAX {
            Some(digits_value(name@) as u64)
        } else {
            None
        }),
{
    if name.len() != NAME_LEN {
        return None;
    }
    let mut value: u64 = 0;
    let mut i: usize = 0;
    assert(name@.subrange(0, 0) =~= Seq::<u8>::empty());
    while i < name.len()
        invariant
            0 <= i <= name@.len(),
            all_digits(name@.subrange(0, i as int)),
            value == digits_value(name@.subrange(0, i as int)),
        decreases name@.len() - i,
    {
        let b = name[i];
        let ghost next = name@.subrange(0, i + 1);
        assert(next.drop_last() =~= name@.subrange(0, i as int));
        if b < 48 || b > 57 {
            assert(!is_digit(name@[i as int]));
            return None;
        }
        let d = (b - 48) as u64;
        assert(all_digits(next)) by {
            assert forall|j: int| 0 <= j < next.len() implies is_digit(#[trigger] next[j]) by {
                if j < i {
                    assert(next[j] == name@.subrange(0, i as int)[j]);
                }
            }
        }
        if value > (u64::MAX - d) / 10 {
            proof {
                assert(value * 10 + d > u64::MAX) by (nonlinear_arith)
                    requires value > (u64::MAX - d) / 10, d <= 9;
                if all_digits(name@) {
                    lemma_digits_prefix(name@, i + 1);
                }
            }
            return None;
        }
        assert(value * 10 + d <= u64::MAX) by (nonlinear_arith)
            requires value <= (u64::MAX - d) / 10, d <= 9;
        value = value * 10 + d;
        i = i + 1;
    }
    assert(name@.subrange(0, name@.len() as int) =~= name@);
    Some(value)
}

/// The name of the segment file whose first position is `first_position`.
pub fn segment_name(first_position: u64) -> (r: Vec<u8>)
    ensures
        r@.len() == NAME_LEN,
        all_digits(r@),
        digits_value(r@) == first_position,
{
    let mut digits: Vec<u8> = Vec::new();
    let mut rest: u64 = first_position;
    let mut k: usize = 0;
    assert(pow10(20) == 100_000_000_000_000_000_000nat) by {
        reveal_with_fuel(pow10, 21);
    }
    assert(pow10(0) == 1);
    assert(digits_value(digits@) == 0);
    assert(first_position == rest * pow10(0) + digits_value(digits@)) by (nonlinear_arith)
        requires pow10(0) == 1, rest == first_position, digits_value(digits@) == 0;
    while k < NAME_LEN
        invariant
            0 <= k <= NAME_LEN,
            digits@.len() == k,
            all_digits(digits@),
            first_position == rest * pow10(k as nat) + digits_value(digits@),
        decreases NAME_LEN - k,
    {
        let d = (rest % 10) as u8 + 48;
        let ghost old_digits = digits@;
        let ghost old_rest = rest;
        proof {
            lemma_digits_prepend(d, old_digits);
            assert(old_rest == (old_rest / 10) * 10 + old_rest % 10);
            let p = pow10(k as nat);
            assert(old_rest * p == (old_rest / 10) * (10 * p) + (old_rest % 10) * p) by (nonlinear_arith)
                requires old_rest == (old_rest / 10) * 10 + old_rest % 10;
        }
        digits.insert(0, d);
        assert(digits@ =~= seq![d] + old_digits);
        rest = rest / 10;
        k = k + 1;
    }
    proof {
        assert(rest * pow10(20) <= first_position);
        assert(rest == 0) by (nonlinear_arith)
            requires rest * 100_000_000_000_000_000_000nat <= first_position, first_position <= u64::MAX;
    }
    digits
}

} // verus!
