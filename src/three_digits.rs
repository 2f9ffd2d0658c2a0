//! Three-digit numbers: one step gives 99 times the spread of the digits, and from there
//! the routine reaches 495.
use crate::natural::{all_digits, decimal, digits_value, lemma_decimal_value};
use crate::routine::{
    ascending, ascending_below, count, iterate, lemma_terminal_result, outcome, produced,
    stops_at, step,
};
use vstd::prelude::*;

verus! {

/// Number of elements of `s` below `d`.
spec fn num_below(s: Seq<u8>, d: nat) -> nat
    decreases s.len(),
{
    if s.len() == 0 {
        0
    } else {
        num_below(s.drop_last(), d) + if (s.last() as nat) < d {
            1nat
        } else {
            0nat
        }
    }
}

proof fn lemma_num_below_next(s: Seq<u8>, d: nat)
    requires
        d < 10,
    ensures
        num_below(s, d + 1) == num_below(s, d) + count(s, d as u8),
    decreases s.len(),
{
    if s.len() > 0 {
        lemma_num_below_next(s.drop_last(), d);
    }
}

proof fn lemma_num_below_all(s: Seq<u8>)
    requires
        all_digits(s),
    ensures
        num_below(s, 10) == s.len(),
    decreases s.len(),
{
    if s.len() > 0 {
        lemma_num_below_all(s.drop_last());
    }
}

proof fn lemma_ascending_below_len(s: Seq<u8>, d: nat)
    requires
        d <= 10,
    ensures
        ascending_below(s, d).len() == num_below(s, d),
    decreases d,
{
    if d > 0 {
        lemma_ascending_below_len(s, (d - 1) as nat);
        lemma_num_below_next(s, (d - 1) as nat);
    } else {
        lemma_num_below_zero(s);
    }
}

proof fn lemma_num_below_zero(s: Seq<u8>)
    ensures
        num_below(s, 0) == 0,
    decreases s.len(),
{
    if s.len() > 0 {
        lemma_num_below_zero(s.drop_last());
    }
}

/// A digit with a positive count occurs.
proof fn lemma_count_present(s: Seq<u8>, e: u8)
    requires
        count(s, e) > 0,
    ensures
        exists|i: int| 0 <= i < s.len() && s[i] == e,
    decreases s.len(),
{
    if s.last() != e {
        lemma_count_present(s.drop_last(), e);
        let i = choose|i: int| 0 <= i < s.drop_last().len() && s.drop_last()[i] == e;
        assert(s[i] == e);
    }
}

/// A digit that occurs has a positive count.
proof fn lemma_count_positive(s: Seq<u8>, i: int)
    requires
        0 <= i < s.len(),
    ensures
        count(s, s[i]) > 0,
    decreases s.len(),
{
    if i < s.len() - 1 {
        lemma_count_positive(s.drop_last(), i);
    }
}

/// Each element of the ascending arrangement occurs in `s`.
proof fn lemma_ascending_below_members(s: Seq<u8>, d: nat)
    requires
        d <= 10,
    ensures
        forall|k: int| 0 <= k < ascending_below(s, d).len() ==> count(s, #[trigger] ascending_below(s, d)[k]) > 0,
    decreases d,
{
    if d > 0 {
        lemma_ascending_below_members(s, (d - 1) as nat);
        let a = ascending_below(s, (d - 1) as nat);
        let all = ascending_below(s, d);
        assert forall|k: int| 0 <= k < all.len() implies count(s, #[trigger] all[k]) > 0 by {
            if k >= a.len() {
                assert(all[k] == (d - 1) as u8);
            } else {
                assert(all[k] == a[k]);
            }
        }
    }
}

/// Each digit of `s` below `d` occurs in the ascending arrangement below `d`.
proof fn lemma_member_in_ascending_below(s: Seq<u8>, e: u8, d: nat)
    requires
        count(s, e) > 0,
        (e as nat) < d <= 10,
    ensures
        exists|k: int| 0 <= k < ascending_below(s, d).len() && ascending_below(s, d)[k] == e,
    decreases d,
{
    let a = ascending_below(s, (d - 1) as nat);
    let all = ascending_below(s, d);
    if (e as nat) < d - 1 {
        lemma_member_in_ascending_below(s, e, (d - 1) as nat);
        let k = choose|k: int| 0 <= k < a.len() && a[k] == e;
        assert(all[k] == e);
    } else {
        assert(all[a.len() as int] == e);
    }
}

/// The ascending arrangement keeps the length, starts at the smallest digit and ends at
/// the largest.
pub(crate) proof fn lemma_ascending_extremes(s: Seq<u8>)
    requires
        all_digits(s),
        s.len() >= 1,
    ensures
        ascending(s).len() == s.len(),
        exists|i: int| 0 <= i < s.len() && s[i] == ascending(s)[0],
        exists|i: int| 0 <= i < s.len() && s[i] == ascending(s)[s.len() - 1],
        forall|i: int|
            0 <= i < s.len() ==> ascending(s)[0] <= #[trigger] s[i] && s[i] <= ascending(s)[s.len() - 1],
        forall|i: int, j: int| 0 <= i <= j < s.len() ==> ascending(s)[i] <= ascending(s)[j],
{
    let a = ascending(s);
    lemma_ascending_below_len(s, 10);
    lemma_num_below_all(s);
    crate::routine::lemma_ascending_below_sorted(s, 10);
    lemma_ascending_below_members(s, 10);
    assert(count(s, a[0]) > 0);
    lemma_count_present(s, a[0]);
    assert(count(s, a[s.len() - 1]) > 0);
    lemma_count_present(s, a[s.len() - 1]);
    assert forall|i: int| 0 <= i < s.len() implies a[0] <= #[trigger] s[i] && s[i] <= a[s.len() - 1] by {
        lemma_count_positive(s, i);
        lemma_member_in_ascending_below(s, s[i], 10);
    }
}

/// The largest of three digits.
pub open spec fn max3(a: nat, b: nat, c: nat) -> nat {
    if a >= b && a >= c {
        a
    } else if b >= c {
        b
    } else {
        c
    }
}

/// The smallest of three digits.
pub open spec fn min3(a: nat, b: nat, c: nat) -> nat {
    if a <= b && a <= c {
        a
    } else if b <= c {
        b
    } else {
        c
    }
}

/// One step from a three-digit number gives 99 times the spread of its digits.
pub proof fn lemma_three_digit_step(v: nat)
    requires
        100 <= v < 1000,
    ensures
        step(v) == 99 * (max3(v / 100, (v / 10) % 10, v % 10) - min3(v / 100, (v / 10) % 10, v % 10)),
{
    let s = decimal(v);
    lemma_decimal_value(v);
    assert(decimal(v / 10) == decimal(v / 100).push(((v / 10) % 10) as u8));
    assert(s =~= seq![(v / 100) as u8, ((v / 10) % 10) as u8, (v % 10) as u8]);
    lemma_ascending_extremes(s);
    let a = ascending(s);
    let r = a.reverse();
    assert(a.drop_last().drop_last().drop_last() =~= Seq::<u8>::empty());
    assert(r.drop_last().drop_last().drop_last() =~= Seq::<u8>::empty());
    assert(a.drop_last().drop_last().last() == a[0]);
    assert(a.drop_last().last() == a[1]);
    assert(r[0] == a[2] && r[1] == a[1] && r[2] == a[0]);
    assert(r.drop_last().drop_last().last() == a[2]);
    assert(r.drop_last().last() == a[1]);
    let a1 = a.drop_last().drop_last();
    let r1 = r.drop_last().drop_last();
    assert(digits_value(a1.drop_last()) == 0);
    assert(digits_value(r1.drop_last()) == 0);
    assert(digits_value(a1) == digits_value(a1.drop_last()) * 10 + a1.last() as nat);
    assert(digits_value(r1) == digits_value(r1.drop_last()) * 10 + r1.last() as nat);
    assert(digits_value(a1) == a[0] as nat);
    assert(digits_value(a.drop_last()) == a[0] * 10 + a[1]);
    assert(digits_value(a) == a[0] * 100 + a[1] * 10 + a[2]);
    assert(digits_value(r.drop_last().drop_last()) == a[2] as nat);
    assert(digits_value(r.drop_last()) == a[2] * 10 + a[1]);
    assert(digits_value(r) == a[2] * 100 + a[1] * 10 + a[0]);
    assert(s[0] as nat == v / 100);
    assert(s[1] as nat == (v / 10) % 10);
    assert(s[2] as nat == v % 10);
}

/// From a three-digit number whose first step keeps three digits (so not all its digits
/// are equal, nor do they spread by one only), the routine reaches 495 within five steps.
pub proof fn lemma_three_digits_reach_495(v: nat, n: nat, truncate: bool)
    requires
        100 <= v < 1000,
        step(v) >= 100,
        n >= 5,
    ensures
        outcome(v, n, truncate) == seq![495nat],
{
    lemma_three_digit_step(v);
    lemma_three_digit_step(198);
    lemma_three_digit_step(297);
    lemma_three_digit_step(396);
    lemma_three_digit_step(594);
    lemma_three_digit_step(693);
    lemma_three_digit_step(792);
    lemma_three_digit_step(891);
    assert(produced(v, 0) == step(iterate(v, 0)));
    let p0 = step(v);
    assert(iterate(v, 1) == p0);
    assert(produced(v, 1) == step(p0));
    assert(produced(v, 2) == step(step(p0)));
    assert(produced(v, 3) == step(step(step(p0))));
    assert(produced(v, 4) == step(step(step(step(p0)))));
    let j: nat = if p0 == 495 {
        0
    } else if p0 == 594 {
        1
    } else if p0 == 396 || p0 == 693 {
        2
    } else if p0 == 297 || p0 == 792 {
        3
    } else {
        4
    };
    assert(p0 == 198 || p0 == 297 || p0 == 396 || p0 == 495 || p0 == 594 || p0 == 693 || p0 == 792 || p0 == 891);
    assert forall|i: nat| i < j implies !stops_at(v, i) by {}
    lemma_terminal_result(v, j, n, truncate);
}

} // verus!
