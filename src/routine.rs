//! One step of Kaprekar's routine, and the routine with its stopping rules.
use crate::natural::{all_digits, decimal, digits_value, lemma_decimal_value, sub_digits, Natural};
use vstd::pervasive::cloned;
use vstd::prelude::*;

verus! {

/// Number of occurrences of the digit `d` in `s`.
pub open spec fn count(s: Seq<u8>, d: u8) -> nat
    decreases s.len(),
{
    if s.len() == 0 {
        0
    } else {
        count(s.drop_last(), d) + if s.last() == d {
            1nat
        } else {
            0nat
        }
    }
}

/// The digits of `s` that are below `d`, in ascending order.
pub open spec fn ascending_below(s: Seq<u8>, d: nat) -> Seq<u8>
    decreases d,
{
    if d == 0 {
        Seq::empty()
    } else {
        ascending_below(s, (d - 1) as nat) + Seq::new(count(s, (d - 1) as u8), |_i: int| (d - 1) as u8)
    }
}

/// The decimal digits of `s` sorted ascending.
pub open spec fn ascending(s: Seq<u8>) -> Seq<u8> {
    ascending_below(s, 10)
}

/// The decimal digits of `s` sorted descending.
pub open spec fn descending(s: Seq<u8>) -> Seq<u8> {
    ascending(s).reverse()
}

/// One step of the routine: the descending arrangement of the canonical digits of `v`
/// minus the ascending one, both read as numbers.
pub open spec fn step(v: nat) -> nat {
    (digits_value(descending(decimal(v))) - digits_value(ascending(decimal(v)))) as nat
}

/// Values at which the routine stops: zero and the fixed points 495 and 6174.
pub open spec fn is_terminal(v: nat) -> bool {
    v == 0 || v == 495 || v == 6174
}

/// `v` after `k` steps.
pub open spec fn iterate(v: nat, k: nat) -> nat
    decreases k,
{
    if k == 0 {
        v
    } else {
        step(iterate(v, (k - 1) as nat))
    }
}

/// The `j`-th value the routine produces from `v` (counting from zero).
pub open spec fn produced(v: nat, j: nat) -> nat {
    iterate(v, j + 1)
}

/// The first `n` values the routine produces from `v`.
pub open spec fn produced_prefix(v: nat, n: nat) -> Seq<nat> {
    Seq::new(n, |j: int| produced(v, j as nat))
}

/// The `j`-th produced value repeats the first one.
pub open spec fn repeats_first(v: nat, j: nat) -> bool {
    j > 0 && produced(v, j) == produced(v, 0)
}

/// The routine stops after computing its `j`-th value.
pub open spec fn stops_at(v: nat, j: nat) -> bool {
    repeats_first(v, j) || is_terminal(produced(v, j))
}

/// What the routine returns from `v` with a cap of `n` steps, the first `j` of which
/// did not stop it: a repeat of the first value returns the values before it, a terminal
/// value returns itself alone, and running out of steps returns all values, or none
/// when `truncate` is set.
pub open spec fn outcome_from(v: nat, j: nat, n: nat, truncate: bool) -> Seq<nat>
    decreases n - j,
{
    if j >= n {
        if truncate {
            Seq::empty()
        } else {
            produced_prefix(v, n)
        }
    } else if repeats_first(v, j) {
        produced_prefix(v, j)
    } else if is_terminal(produced(v, j)) {
        seq![produced(v, j)]
    } else {
        outcome_from(v, j + 1, n, truncate)
    }
}

/// What the routine returns from `v` with a cap of `n` steps.
pub open spec fn outcome(v: nat, n: nat, truncate: bool) -> Seq<nat> {
    outcome_from(v, 0, n, truncate)
}

/// Steps that do not stop the routine can be skipped over.
proof fn lemma_skip_steps(v: nat, j: nat, k: nat, n: nat, truncate: bool)
    requires
        j <= k <= n,
        forall|i: nat| j <= i < k ==> !stops_at(v, i),
    ensures
        outcome_from(v, j, n, truncate) == outcome_from(v, k, n, truncate),
    decreases k - j,
{
    if j < k {
        assert(!stops_at(v, j));
        lemma_skip_steps(v, j + 1, k, n, truncate);
    }
}

/// When no value within the cap repeats the first or is terminal, the routine returns
/// nothing in truncate mode, and otherwise all `n` values it computed.
pub proof fn lemma_runs_out(v: nat, n: nat)
    requires
        forall|j: nat| j < n ==> !stops_at(v, j),
    ensures
        outcome(v, n, true) == Seq::<nat>::empty(),
        outcome(v, n, false) == produced_prefix(v, n),
        outcome(v, n, false).len() == n,
{
    lemma_skip_steps(v, 0, n, n, true);
    lemma_skip_steps(v, 0, n, n, false);
}

/// When the first value that stops the routine is terminal, the routine returns that
/// value alone, whatever came before it.
pub proof fn lemma_terminal_result(v: nat, j: nat, n: nat, truncate: bool)
    requires
        j < n,
        forall|i: nat| i < j ==> !stops_at(v, i),
        is_terminal(produced(v, j)),
    ensures
        outcome(v, n, truncate) == seq![produced(v, j)],
{
    lemma_skip_steps(v, 0, j, n, truncate);
    if repeats_first(v, j) {
        assert(stops_at(v, 0));
    }
}

/// When a value repeats the first one before anything else stops the routine, the
/// routine returns the values before the repeat.
pub proof fn lemma_repeat_result(v: nat, j: nat, n: nat, truncate: bool)
    requires
        0 < j < n,
        forall|i: nat| i < j ==> !stops_at(v, i),
        produced(v, j) == produced(v, 0),
    ensures
        outcome(v, n, truncate) == produced_prefix(v, j),
        outcome(v, n, truncate).len() == j,
{
    lemma_skip_steps(v, 0, j, n, truncate);
}

/// A digit that does not occur counts zero.
proof fn lemma_count_absent(s: Seq<u8>, c: u8, d: u8)
    requires
        forall|i: int| 0 <= i < s.len() ==> s[i] == c,
        d != c,
    ensures
        count(s, d) == 0,
    decreases s.len(),
{
    if s.len() > 0 {
        lemma_count_absent(s.drop_last(), c, d);
    }
}

/// When every digit of `s` is `c`, so is every digit of its ascending arrangement.
proof fn lemma_ascending_below_constant(s: Seq<u8>, c: u8, d: nat)
    requires
        d <= 10,
        forall|i: int| 0 <= i < s.len() ==> s[i] == c,
    ensures
        forall|i: int| 0 <= i < ascending_below(s, d).len() ==> ascending_below(s, d)[i] == c,
    decreases d,
{
    if d > 0 {
        lemma_ascending_below_constant(s, c, (d - 1) as nat);
        let a = ascending_below(s, (d - 1) as nat);
        let dig = (d - 1) as u8;
        if dig != c {
            lemma_count_absent(s, c, dig);
            assert(ascending_below(s, d) =~= a);
        } else {
            let all = ascending_below(s, d);
            assert forall|i: int| 0 <= i < all.len() implies all[i] == c by {
                if i >= a.len() {
                    assert(all[i] == dig);
                }
            }
        }
    }
}

/// A number whose digits are all the same steps to zero, so the routine returns `[0]`.
pub proof fn lemma_repeated_digits(v: nat, n: nat, truncate: bool)
    requires
        n >= 1,
        forall|i: int| 0 <= i < decimal(v).len() ==> #[trigger] decimal(v)[i] == decimal(v)[0],
    ensures
        step(v) == 0,
        outcome(v, n, truncate) == seq![0nat],
{
    let s = decimal(v);
    lemma_decimal_value(v);
    lemma_ascending_below_constant(s, s[0], 10);
    let a = ascending(s);
    assert(a.reverse() =~= a);
    assert(produced(v, 0) == step(iterate(v, 0)));
}

/// Number of steps the routine computes from `v` with a cap of `n`, the first `j` of
/// which did not stop it.
pub open spec fn steps_from(v: nat, j: nat, n: nat) -> nat
    decreases n - j,
{
    if j >= n {
        n
    } else if stops_at(v, j) {
        j + 1
    } else {
        steps_from(v, j + 1, n)
    }
}

/// The values of a sequence of numbers.
pub open spec fn values(s: Seq<Natural>) -> Seq<nat> {
    s.map_values(|x: Natural| x@)
}

/// Every number of the sequence holds canonical digits.
pub open spec fn all_wf(s: Seq<Natural>) -> bool {
    forall|i: int| 0 <= i < s.len() ==> s[i].wf()
}

/// Ten to the power `k`.
pub open spec fn pow10(k: nat) -> nat
    decreases k,
{
    if k == 0 {
        1
    } else {
        10 * pow10((k - 1) as nat)
    }
}

/// The ascending arrangement below `d` holds digits below `d`, in order.
pub(crate) proof fn lemma_ascending_below_sorted(s: Seq<u8>, d: nat)
    requires
        d <= 10,
    ensures
        forall|i: int| 0 <= i < ascending_below(s, d).len() ==> (ascending_below(s, d)[i] as nat) < d,
        forall|i: int, j: int|
            0 <= i <= j < ascending_below(s, d).len() ==> ascending_below(s, d)[i] <= ascending_below(s, d)[j],
    decreases d,
{
    if d > 0 {
        lemma_ascending_below_sorted(s, (d - 1) as nat);
        let a = ascending_below(s, (d - 1) as nat);
        let dig = (d - 1) as u8;
        let b = Seq::new(count(s, dig), |_i: int| dig);
        let all = ascending_below(s, d);
        assert(all == a + b);
        assert(dig as nat == d - 1);
        assert forall|i: int| 0 <= i < all.len() implies (all[i] as nat) < d by {
            if i >= a.len() {
                assert(all[i] == b[i - a.len()]);
            }
        }
        assert forall|i: int, j: int| 0 <= i <= j < all.len() implies all[i] <= all[j] by {
            if j >= a.len() {
                assert(all[j] == dig);
                if i >= a.len() {
                    assert(all[i] == dig);
                }
            }
        }
    }
}

/// A number read from digits lies between its leading digit times the place value and
/// one more than that.
proof fn lemma_leading_digit(s: Seq<u8>)
    requires
        all_digits(s),
        s.len() >= 1,
    ensures
        s[0] * pow10((s.len() - 1) as nat) <= digits_value(s),
        digits_value(s) < (s[0] + 1) * pow10((s.len() - 1) as nat),
    decreases s.len(),
{
    let t = s.drop_last();
    if s.len() == 1 {
        assert(t =~= Seq::<u8>::empty());
        assert(digits_value(s) == digits_value(t) * 10 + s.last() as nat);
        assert(digits_value(s) == s[0]);
        assert(pow10(0) == 1);
    } else {
        lemma_leading_digit(t);
        let q = pow10((t.len() - 1) as nat);
        let vt = digits_value(t);
        let d0 = s[0] as int;
        let last = s.last() as int;
        assert(t[0] == s[0]);
        assert(pow10((s.len() - 1) as nat) == 10 * q);
        assert(digits_value(s) == vt * 10 + last);
        assert(d0 * (10 * q) <= vt * 10 + last && vt * 10 + last < (d0 + 1) * (10 * q)) by (nonlinear_arith)
            requires
                d0 * q <= vt,
                vt < (d0 + 1) * q,
                0 <= last < 10,
        ;
    }
}

/// Read as numbers, the reverse of an ascending digit sequence is at least the sequence.
proof fn lemma_reverse_not_smaller(a: Seq<u8>)
    requires
        all_digits(a),
        forall|i: int, j: int| 0 <= i <= j < a.len() ==> a[i] <= a[j],
    ensures
        digits_value(a.reverse()) >= digits_value(a),
{
    let r = a.reverse();
    let n = a.len();
    if n == 0 {
        assert(r.len() == 0);
    } else if a[n - 1] == a[0] {
        assert(r =~= a);
    } else {
        assert(all_digits(r));
        lemma_leading_digit(a);
        lemma_leading_digit(r);
        let p = pow10((n - 1) as nat);
        assert(r[0] == a[n - 1]);
        assert((a[0] + 1) * p <= r[0] * p) by (nonlinear_arith)
            requires
                a[0] + 1 <= r[0],
        ;
    }
}

/// The descending arrangement of any digits reads as at least the ascending one.
pub proof fn lemma_descending_not_smaller(s: Seq<u8>)
    ensures
        all_digits(ascending(s)),
        all_digits(descending(s)),
        digits_value(descending(s)) >= digits_value(ascending(s)),
{
    lemma_ascending_below_sorted(s, 10);
    lemma_reverse_not_smaller(ascending(s));
}

/// How often each digit below ten occurs in `s`.
fn digit_counts(s: &Vec<u8>) -> (r: Vec<usize>)
    ensures
        r.len() == 10,
        forall|d: int| 0 <= d < 10 ==> r[d] == count(s@, d as u8),
{
    let mut r: Vec<usize> = Vec::new();
    let mut d: usize = 0;
    while d < 10
        invariant
            d <= 10,
            r.len() == d,
            forall|e: int| 0 <= e < d ==> r[e] == 0,
        decreases 10 - d,
    {
        r.push(0);
        d += 1;
    }
    let mut i: usize = 0;
    while i < s.len()
        invariant
            i <= s.len(),
            r.len() == 10,
            forall|e: int| 0 <= e < 10 ==> r[e] == count(s@.take(i as int), e as u8) && r[e] <= i,
        decreases s.len() - i,
    {
        let x = s[i];
        assert(s@.take(i + 1).drop_last() =~= s@.take(i as int));
        if x < 10 {
            let c = r[x as usize];
            r.set(x as usize, c + 1);
        }
        proof {
            assert forall|e: int| 0 <= e < 10 implies r[e] == count(s@.take(i + 1), e as u8) by {
                assert(s@.take(i + 1).last() == x);
            }
        }
        i += 1;
    }
    assert(s@.take(s.len() as int) =~= s@);
    r
}

/// The digits of `s` sorted ascending.
pub fn ascending_digits(s: &Vec<u8>) -> (r: Vec<u8>)
    ensures
        r@ == ascending(s@),
{
    let counts = digit_counts(s);
    let mut r: Vec<u8> = Vec::new();
    let mut d: u8 = 0;
    while d < 10
        invariant
            d <= 10,
            counts.len() == 10,
            forall|e: int| 0 <= e < 10 ==> counts[e] == count(s@, e as u8),
            r@ == ascending_below(s@, d as nat),
        decreases 10 - d,
    {
        let c = counts[d as usize];
        let mut k: usize = 0;
        while k < c
            invariant
                k <= c,
                c == count(s@, d),
                r@ == ascending_below(s@, d as nat) + Seq::new(k as nat, |_i: int| d),
            decreases c - k,
        {
            r.push(d);
            k += 1;
            assert(r@ =~= ascending_below(s@, d as nat) + Seq::new(k as nat, |_i: int| d));
        }
        assert(ascending_below(s@, (d + 1) as nat) == ascending_below(s@, d as nat) + Seq::new(
            count(s@, d),
            |_i: int| d,
        ));
        assert(r@ =~= ascending_below(s@, (d + 1) as nat));
        d += 1;
    }
    r
}

/// The elements of `a` in reverse order.
pub fn reversed(a: &Vec<u8>) -> (r: Vec<u8>)
    ensures
        r@ == a@.reverse(),
{
    let mut r: Vec<u8> = Vec::new();
    let n = a.len();
    let mut i: usize = 0;
    while i < n
        invariant
            n == a.len(),
            i <= n,
            r.len() == i,
            forall|j: int| 0 <= j < i ==> r[j] == a[n - 1 - j],
        decreases n - i,
    {
        r.push(a[n - 1 - i]);
        i += 1;
    }
    assert(r@ =~= a@.reverse());
    r
}

/// One step of the routine, with the two arrangements it subtracts.
pub struct Step {
    /// The digits sorted descending.
    pub descending: Vec<u8>,
    /// The digits sorted ascending (leading zeros kept).
    pub ascending: Vec<u8>,
    /// The difference of the two.
    pub next: Natural,
}

/// One step of the routine from `n`.
pub fn kaprekar_step(n: &Natural) -> (r: Step)
    requires
        n.wf(),
    ensures
        r.ascending@ == ascending(n.digits@),
        r.descending@ == descending(n.digits@),
        r.next.wf(),
        r.next@ == step(n@),
        r.next@ == digits_value(r.descending@) - digits_value(r.ascending@),
{
    let asc = ascending_digits(&n.digits);
    let desc = reversed(&asc);
    proof {
        lemma_descending_not_smaller(n.digits@);
    }
    let next = Natural { digits: sub_digits(&desc, &asc) };
    proof {
        lemma_decimal_value(next@);
        lemma_decimal_value(step(n@));
    }
    Step { descending: desc, ascending: asc, next }
}

/// Whether `n` is one of the values at which the routine stops.
pub fn is_terminal_value(n: &Natural) -> (r: bool)
    requires
        n.wf(),
    ensures
        r == is_terminal(n@),
{
    let fixed_four = Natural::from_u64(6174);
    let fixed_three = Natural::from_u64(495);
    let zero = Natural::zero();
    n.equals(&fixed_four) || n.equals(&fixed_three) || n.equals(&zero)
}

/// A vector holding a clone of the last element of `v`, or nothing when `v` is empty.
pub fn last_element<T: Clone>(v: &[T]) -> (r: Vec<T>)
    ensures
        v@.len() == 0 ==> r@.len() == 0,
        v@.len() > 0 ==> r@.len() == 1 && cloned(v@.last(), r@[0]),
{
    let mut r: Vec<T> = Vec::new();
    if v.len() > 0 {
        r.push(v[v.len() - 1].clone());
    }
    r
}

/// Runs the routine from `start` for at most `iterations` steps, and returns what it
/// yields together with the steps it computed, in order.
pub fn kaprekar_traced(start: &Natural, iterations: u16, truncate: bool) -> (r: (Vec<Natural>, Vec<Step>))
    requires
        start.wf(),
    ensures
        all_wf(r.0@),
        values(r.0@) == outcome(start@, iterations as nat, truncate),
        r.1.len() == steps_from(start@, 0, iterations as nat),
        forall|k: int|
            0 <= k < r.1.len() ==> {
                &&& (#[trigger] r.1@[k]).next.wf()
                &&& r.1@[k].next@ == produced(start@, k as nat)
                &&& r.1@[k].ascending@ == ascending(decimal(iterate(start@, k as nat)))
                &&& r.1@[k].descending@ == descending(decimal(iterate(start@, k as nat)))
            },
{
    let ghost v = start@;
    let ghost n = iterations as nat;
    let mut num = start.clone();
    let mut results: Vec<Natural> = Vec::new();
    let mut trace: Vec<Step> = Vec::new();
    let mut i: u16 = 0;
    while i < iterations
        invariant
            v == start@,
            n == iterations as nat,
            i <= iterations,
            num.wf(),
            num@ == iterate(v, i as nat),
            results.len() == i,
            trace.len() == i,
            forall|k: int|
                0 <= k < i ==> (#[trigger] results@[k]).wf() && results@[k]@ == produced(v, k as nat),
            forall|k: int|
                0 <= k < i ==> {
                    &&& (#[trigger] trace@[k]).next.wf()
                    &&& trace@[k].next@ == produced(v, k as nat)
                    &&& trace@[k].ascending@ == ascending(decimal(iterate(v, k as nat)))
                    &&& trace@[k].descending@ == descending(decimal(iterate(v, k as nat)))
                },
            outcome(v, n, truncate) == outcome_from(v, i as nat, n, truncate),
            steps_from(v, 0, n) == steps_from(v, i as nat, n),
        decreases iterations - i,
    {
        let s = kaprekar_step(&num);
        assert(s.next@ == produced(v, i as nat));
        let repeat = results.len() > 0 && results[0].equals(&s.next);
        let next = s.next.clone();
        trace.push(s);
        if repeat {
            assert(values(results@) =~= produced_prefix(v, i as nat));
            return (results, trace);
        }
        results.push(next);
        if is_terminal_value(&results[results.len() - 1]) {
            let last = last_element(results.as_slice());
            assert(values(last@) =~= seq![produced(v, i as nat)]);
            return (last, trace);
        }
        num = results[results.len() - 1].clone();
        i += 1;
    }
    if truncate {
        let empty: Vec<Natural> = Vec::new();
        assert(values(empty@) =~= Seq::<nat>::empty());
        return (empty, trace);
    }
    assert(values(results@) =~= produced_prefix(v, n));
    (results, trace)
}

/// Runs the routine from `start` for at most `iterations` steps: a value that repeats
/// the first one ends it with the values before the repeat, a terminal value ends it
/// with that value alone, and running out of steps yields every value, or nothing
/// when `truncate` is set.
pub fn kaprekar(start: &Natural, iterations: u16, truncate: bool) -> (r: Vec<Natural>)
    requires
        start.wf(),
    ensures
        all_wf(r@),
        values(r@) == outcome(start@, iterations as nat, truncate),
{
    let (result, _trace) = kaprekar_traced(start, iterations, truncate);
    result
}

} // verus!
