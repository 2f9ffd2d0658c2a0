//! Four-digit numbers: one step gives 999 times the spread of the outer digits plus 90
//! times that of the inner ones, and from there the routine reaches 6174.
use crate::natural::{decimal, digits_value, lemma_decimal_value};
use crate::routine::{
    ascending, ascending_below, count, iterate, lemma_ascending_below_sorted, lemma_terminal_result, outcome, produced,
    stops_at, step,
};
use vstd::prelude::*;

verus! {

/// How many steps take `w` to 6174, for the values that a four-digit number can step to
/// (and that do not fall to 999 or 0); -1 for any other value.
spec fn steps_to_6174(w: nat) -> int {
    if w == 1089 {
        3
    } else if w == 1998 {
        3
    } else if w == 2088 {
        2
    } else if w == 2178 {
        5
    } else if w == 2997 {
        5
    } else if w == 3087 {
        2
    } else if w == 3177 {
        4
    } else if w == 3267 {
        5
    } else if w == 3996 {
        3
    } else if w == 4086 {
        6
    } else if w == 4176 {
        1
    } else if w == 4266 {
        2
    } else if w == 4356 {
        3
    } else if w == 4995 {
        5
    } else if w == 5085 {
        6
    } else if w == 5175 {
        6
    } else if w == 5265 {
        4
    } else if w == 5355 {
        4
    } else if w == 5445 {
        4
    } else if w == 5994 {
        5
    } else if w == 6084 {
        6
    } else if w == 6174 {
        0
    } else if w == 6264 {
        2
    } else if w == 6354 {
        3
    } else if w == 6444 {
        4
    } else if w == 6534 {
        3
    } else if w == 6993 {
        3
    } else if w == 7083 {
        2
    } else if w == 7173 {
        4
    } else if w == 7263 {
        5
    } else if w == 7353 {
        2
    } else if w == 7443 {
        4
    } else if w == 7533 {
        2
    } else if w == 7623 {
        5
    } else if w == 7992 {
        5
    } else if w == 8082 {
        2
    } else if w == 8172 {
        5
    } else if w == 8262 {
        4
    } else if w == 8352 {
        1
    } else if w == 8442 {
        6
    } else if w == 8532 {
        1
    } else if w == 8622 {
        4
    } else if w == 8712 {
        5
    } else if w == 8991 {
        3
    } else if w == 9081 {
        3
    } else if w == 9171 {
        2
    } else if w == 9261 {
        2
    } else if w == 9351 {
        6
    } else if w == 9441 {
        6
    } else if w == 9531 {
        6
    } else if w == 9621 {
        2
    } else if w == 9711 {
        2
    } else if w == 9801 {
        3
    } else {
        -1
    }
}

/// One step from each value of the table between 1089 and 3996.
proof fn lemma_table_steps_0()
    ensures
        step(1089) == 9621,
        step(1998) == 8082,
        step(2088) == 8532,
        step(2178) == 7443,
        step(2997) == 7173,
        step(3087) == 8352,
        step(3177) == 6354,
        step(3267) == 5265,
        step(3996) == 6264,
{
    reveal_with_fuel(decimal, 5);
    reveal_with_fuel(count, 5);
    reveal_with_fuel(ascending_below, 11);
    reveal_with_fuel(digits_value, 5);
    assert(decimal(1089) =~= seq![1u8, 0, 8, 9]);
    assert(ascending(seq![1u8, 0, 8, 9]) =~= seq![0u8, 1, 8, 9]);
    assert(decimal(1998) =~= seq![1u8, 9, 9, 8]);
    assert(ascending(seq![1u8, 9, 9, 8]) =~= seq![1u8, 8, 9, 9]);
    assert(decimal(2088) =~= seq![2u8, 0, 8, 8]);
    assert(ascending(seq![2u8, 0, 8, 8]) =~= seq![0u8, 2, 8, 8]);
    assert(decimal(2178) =~= seq![2u8, 1, 7, 8]);
    assert(ascending(seq![2u8, 1, 7, 8]) =~= seq![1u8, 2, 7, 8]);
    assert(decimal(2997) =~= seq![2u8, 9, 9, 7]);
    assert(ascending(seq![2u8, 9, 9, 7]) =~= seq![2u8, 7, 9, 9]);
    assert(decimal(3087) =~= seq![3u8, 0, 8, 7]);
    assert(ascending(seq![3u8, 0, 8, 7]) =~= seq![0u8, 3, 7, 8]);
    assert(decimal(3177) =~= seq![3u8, 1, 7, 7]);
    assert(ascending(seq![3u8, 1, 7, 7]) =~= seq![1u8, 3, 7, 7]);
    assert(decimal(3267) =~= seq![3u8, 2, 6, 7]);
    assert(ascending(seq![3u8, 2, 6, 7]) =~= seq![2u8, 3, 6, 7]);
    assert(decimal(3996) =~= seq![3u8, 9, 9, 6]);
    assert(ascending(seq![3u8, 9, 9, 6]) =~= seq![3u8, 6, 9, 9]);
}

/// One step from each value of the table between 4086 and 5355.
proof fn lemma_table_steps_1()
    ensures
        step(4086) == 8172,
        step(4176) == 6174,
        step(4266) == 4176,
        step(4356) == 3087,
        step(4995) == 5355,
        step(5085) == 7992,
        step(5175) == 5994,
        step(5265) == 3996,
        step(5355) == 1998,
{
    reveal_with_fuel(decimal, 5);
    reveal_with_fuel(count, 5);
    reveal_with_fuel(ascending_below, 11);
    reveal_with_fuel(digits_value, 5);
    assert(decimal(4086) =~= seq![4u8, 0, 8, 6]);
    assert(ascending(seq![4u8, 0, 8, 6]) =~= seq![0u8, 4, 6, 8]);
    assert(decimal(4176) =~= seq![4u8, 1, 7, 6]);
    assert(ascending(seq![4u8, 1, 7, 6]) =~= seq![1u8, 4, 6, 7]);
    assert(decimal(4266) =~= seq![4u8, 2, 6, 6]);
    assert(ascending(seq![4u8, 2, 6, 6]) =~= seq![2u8, 4, 6, 6]);
    assert(decimal(4356) =~= seq![4u8, 3, 5, 6]);
    assert(ascending(seq![4u8, 3, 5, 6]) =~= seq![3u8, 4, 5, 6]);
    assert(decimal(4995) =~= seq![4u8, 9, 9, 5]);
    assert(ascending(seq![4u8, 9, 9, 5]) =~= seq![4u8, 5, 9, 9]);
    assert(decimal(5085) =~= seq![5u8, 0, 8, 5]);
    assert(ascending(seq![5u8, 0, 8, 5]) =~= seq![0u8, 5, 5, 8]);
    assert(decimal(5175) =~= seq![5u8, 1, 7, 5]);
    assert(ascending(seq![5u8, 1, 7, 5]) =~= seq![1u8, 5, 5, 7]);
    assert(decimal(5265) =~= seq![5u8, 2, 6, 5]);
    assert(ascending(seq![5u8, 2, 6, 5]) =~= seq![2u8, 5, 5, 6]);
    assert(decimal(5355) =~= seq![5u8, 3, 5, 5]);
    assert(ascending(seq![5u8, 3, 5, 5]) =~= seq![3u8, 5, 5, 5]);
}

/// One step from each value of the table between 5445 and 6993.
proof fn lemma_table_steps_2()
    ensures
        step(5445) == 1089,
        step(5994) == 5355,
        step(6084) == 8172,
        step(6174) == 6174,
        step(6264) == 4176,
        step(6354) == 3087,
        step(6444) == 1998,
        step(6534) == 3087,
        step(6993) == 6264,
{
    reveal_with_fuel(decimal, 5);
    reveal_with_fuel(count, 5);
    reveal_with_fuel(ascending_below, 11);
    reveal_with_fuel(digits_value, 5);
    assert(decimal(5445) =~= seq![5u8, 4, 4, 5]);
    assert(ascending(seq![5u8, 4, 4, 5]) =~= seq![4u8, 4, 5, 5]);
    assert(decimal(5994) =~= seq![5u8, 9, 9, 4]);
    assert(ascending(seq![5u8, 9, 9, 4]) =~= seq![4u8, 5, 9, 9]);
    assert(decimal(6084) =~= seq![6u8, 0, 8, 4]);
    assert(ascending(seq![6u8, 0, 8, 4]) =~= seq![0u8, 4, 6, 8]);
    assert(decimal(6174) =~= seq![6u8, 1, 7, 4]);
    assert(ascending(seq![6u8, 1, 7, 4]) =~= seq![1u8, 4, 6, 7]);
    assert(decimal(6264) =~= seq![6u8, 2, 6, 4]);
    assert(ascending(seq![6u8, 2, 6, 4]) =~= seq![2u8, 4, 6, 6]);
    assert(decimal(6354) =~= seq![6u8, 3, 5, 4]);
    assert(ascending(seq![6u8, 3, 5, 4]) =~= seq![3u8, 4, 5, 6]);
    assert(decimal(6444) =~= seq![6u8, 4, 4, 4]);
    assert(ascending(seq![6u8, 4, 4, 4]) =~= seq![4u8, 4, 4, 6]);
    assert(decimal(6534) =~= seq![6u8, 5, 3, 4]);
    assert(ascending(seq![6u8, 5, 3, 4]) =~= seq![3u8, 4, 5, 6]);
    assert(decimal(6993) =~= seq![6u8, 9, 9, 3]);
    assert(ascending(seq![6u8, 9, 9, 3]) =~= seq![3u8, 6, 9, 9]);
}

/// One step from each value of the table between 7083 and 8082.
proof fn lemma_table_steps_3()
    ensures
        step(7083) == 8352,
        step(7173) == 6354,
        step(7263) == 5265,
        step(7353) == 4176,
        step(7443) == 3996,
        step(7533) == 4176,
        step(7623) == 5265,
        step(7992) == 7173,
        step(8082) == 8532,
{
    reveal_with_fuel(decimal, 5);
    reveal_with_fuel(count, 5);
    reveal_with_fuel(ascending_below, 11);
    reveal_with_fuel(digits_value, 5);
    assert(decimal(7083) =~= seq![7u8, 0, 8, 3]);
    assert(ascending(seq![7u8, 0, 8, 3]) =~= seq![0u8, 3, 7, 8]);
    assert(decimal(7173) =~= seq![7u8, 1, 7, 3]);
    assert(ascending(seq![7u8, 1, 7, 3]) =~= seq![1u8, 3, 7, 7]);
    assert(decimal(7263) =~= seq![7u8, 2, 6, 3]);
    assert(ascending(seq![7u8, 2, 6, 3]) =~= seq![2u8, 3, 6, 7]);
    assert(decimal(7353) =~= seq![7u8, 3, 5, 3]);
    assert(ascending(seq![7u8, 3, 5, 3]) =~= seq![3u8, 3, 5, 7]);
    assert(decimal(7443) =~= seq![7u8, 4, 4, 3]);
    assert(ascending(seq![7u8, 4, 4, 3]) =~= seq![3u8, 4, 4, 7]);
    assert(decimal(7533) =~= seq![7u8, 5, 3, 3]);
    assert(ascending(seq![7u8, 5, 3, 3]) =~= seq![3u8, 3, 5, 7]);
    assert(decimal(7623) =~= seq![7u8, 6, 2, 3]);
    assert(ascending(seq![7u8, 6, 2, 3]) =~= seq![2u8, 3, 6, 7]);
    assert(decimal(7992) =~= seq![7u8, 9, 9, 2]);
    assert(ascending(seq![7u8, 9, 9, 2]) =~= seq![2u8, 7, 9, 9]);
    assert(decimal(8082) =~= seq![8u8, 0, 8, 2]);
    assert(ascending(seq![8u8, 0, 8, 2]) =~= seq![0u8, 2, 8, 8]);
}

/// One step from each value of the table between 8172 and 9081.
proof fn lemma_table_steps_4()
    ensures
        step(8172) == 7443,
        step(8262) == 6354,
        step(8352) == 6174,
        step(8442) == 5994,
        step(8532) == 6174,
        step(8622) == 6354,
        step(8712) == 7443,
        step(8991) == 8082,
        step(9081) == 9621,
{
    reveal_with_fuel(decimal, 5);
    reveal_with_fuel(count, 5);
    reveal_with_fuel(ascending_below, 11);
    reveal_with_fuel(digits_value, 5);
    assert(decimal(8172) =~= seq![8u8, 1, 7, 2]);
    assert(ascending(seq![8u8, 1, 7, 2]) =~= seq![1u8, 2, 7, 8]);
    assert(decimal(8262) =~= seq![8u8, 2, 6, 2]);
    assert(ascending(seq![8u8, 2, 6, 2]) =~= seq![2u8, 2, 6, 8]);
    assert(decimal(8352) =~= seq![8u8, 3, 5, 2]);
    assert(ascending(seq![8u8, 3, 5, 2]) =~= seq![2u8, 3, 5, 8]);
    assert(decimal(8442) =~= seq![8u8, 4, 4, 2]);
    assert(ascending(seq![8u8, 4, 4, 2]) =~= seq![2u8, 4, 4, 8]);
    assert(decimal(8532) =~= seq![8u8, 5, 3, 2]);
    assert(ascending(seq![8u8, 5, 3, 2]) =~= seq![2u8, 3, 5, 8]);
    assert(decimal(8622) =~= seq![8u8, 6, 2, 2]);
    assert(ascending(seq![8u8, 6, 2, 2]) =~= seq![2u8, 2, 6, 8]);
    assert(decimal(8712) =~= seq![8u8, 7, 1, 2]);
    assert(ascending(seq![8u8, 7, 1, 2]) =~= seq![1u8, 2, 7, 8]);
    assert(decimal(8991) =~= seq![8u8, 9, 9, 1]);
    assert(ascending(seq![8u8, 9, 9, 1]) =~= seq![1u8, 8, 9, 9]);
    assert(decimal(9081) =~= seq![9u8, 0, 8, 1]);
    assert(ascending(seq![9u8, 0, 8, 1]) =~= seq![0u8, 1, 8, 9]);
}

/// One step from each value of the table between 9171 and 9801.
proof fn lemma_table_steps_5()
    ensures
        step(9171) == 8532,
        step(9261) == 8352,
        step(9351) == 8172,
        step(9441) == 7992,
        step(9531) == 8172,
        step(9621) == 8352,
        step(9711) == 8532,
        step(9801) == 9621,
{
    reveal_with_fuel(decimal, 5);
    reveal_with_fuel(count, 5);
    reveal_with_fuel(ascending_below, 11);
    reveal_with_fuel(digits_value, 5);
    assert(decimal(9171) =~= seq![9u8, 1, 7, 1]);
    assert(ascending(seq![9u8, 1, 7, 1]) =~= seq![1u8, 1, 7, 9]);
    assert(decimal(9261) =~= seq![9u8, 2, 6, 1]);
    assert(ascending(seq![9u8, 2, 6, 1]) =~= seq![1u8, 2, 6, 9]);
    assert(decimal(9351) =~= seq![9u8, 3, 5, 1]);
    assert(ascending(seq![9u8, 3, 5, 1]) =~= seq![1u8, 3, 5, 9]);
    assert(decimal(9441) =~= seq![9u8, 4, 4, 1]);
    assert(ascending(seq![9u8, 4, 4, 1]) =~= seq![1u8, 4, 4, 9]);
    assert(decimal(9531) =~= seq![9u8, 5, 3, 1]);
    assert(ascending(seq![9u8, 5, 3, 1]) =~= seq![1u8, 3, 5, 9]);
    assert(decimal(9621) =~= seq![9u8, 6, 2, 1]);
    assert(ascending(seq![9u8, 6, 2, 1]) =~= seq![1u8, 2, 6, 9]);
    assert(decimal(9711) =~= seq![9u8, 7, 1, 1]);
    assert(ascending(seq![9u8, 7, 1, 1]) =~= seq![1u8, 1, 7, 9]);
    assert(decimal(9801) =~= seq![9u8, 8, 0, 1]);
    assert(ascending(seq![9u8, 8, 0, 1]) =~= seq![0u8, 1, 8, 9]);
}

/// Every value of the table lies above 999, only 6174 is at distance zero, and one step
/// takes any other value of the table one step nearer.
proof fn lemma_table_closed(w: nat)
    requires
        steps_to_6174(w) >= 0,
    ensures
        w >= 1000,
        (steps_to_6174(w) == 0) == (w == 6174),
        steps_to_6174(w) > 0 ==> steps_to_6174(step(w)) == steps_to_6174(w) - 1,
{
    lemma_table_steps_0();
    lemma_table_steps_1();
    lemma_table_steps_2();
    lemma_table_steps_3();
    lemma_table_steps_4();
    lemma_table_steps_5();
}

/// Along a run that starts in the table, each step comes one nearer to 6174.
proof fn lemma_distance_along(v: nat, i: nat)
    requires
        steps_to_6174(produced(v, 0)) >= i,
    ensures
        steps_to_6174(produced(v, i)) == steps_to_6174(produced(v, 0)) - i,
    decreases i,
{
    if i > 0 {
        lemma_distance_along(v, (i - 1) as nat);
        lemma_table_closed(produced(v, (i - 1) as nat));
        assert(produced(v, i) == step(produced(v, (i - 1) as nat)));
    }
}

/// One step from a four-digit number: with its digits sorted ascending as `a0..a3`, it
/// gives `999 (a3 - a0) + 90 (a2 - a1)`.
pub proof fn lemma_four_digit_step(v: nat)
    requires
        1000 <= v < 10000,
    ensures
        ascending(decimal(v)).len() == 4,
        0 <= ascending(decimal(v))[0] <= ascending(decimal(v))[1] <= ascending(decimal(v))[2]
            <= ascending(decimal(v))[3] <= 9,
        step(v) == 999 * (ascending(decimal(v))[3] - ascending(decimal(v))[0]) + 90 * (ascending(
            decimal(v),
        )[2] - ascending(decimal(v))[1]),
{
    let s = decimal(v);
    lemma_decimal_value(v);
    assert(decimal(v / 10) == decimal(v / 100).push(((v / 10) % 10) as u8));
    assert(decimal(v / 100) == decimal(v / 1000).push(((v / 100) % 10) as u8));
    assert(s.len() == 4);
    crate::three_digits::lemma_ascending_extremes(s);
    lemma_ascending_below_sorted(s, 10);
    let a = ascending(s);
    let r = a.reverse();
    assert(a =~= seq![a[0], a[1], a[2], a[3]]);
    assert(r =~= seq![a[3], a[2], a[1], a[0]]);
    reveal_with_fuel(digits_value, 5);
    assert(seq![a[0], a[1], a[2], a[3]].drop_last() =~= seq![a[0], a[1], a[2]]);
    assert(seq![a[0], a[1], a[2]].drop_last() =~= seq![a[0], a[1]]);
    assert(seq![a[0], a[1]].drop_last() =~= seq![a[0]]);
    assert(seq![a[0]].drop_last() =~= Seq::<u8>::empty());
    assert(seq![a[3], a[2], a[1], a[0]].drop_last() =~= seq![a[3], a[2], a[1]]);
    assert(seq![a[3], a[2], a[1]].drop_last() =~= seq![a[3], a[2]]);
    assert(seq![a[3], a[2]].drop_last() =~= seq![a[3]]);
    assert(seq![a[3]].drop_last() =~= Seq::<u8>::empty());
    assert(digits_value(a) == a[0] * 1000 + a[1] * 100 + a[2] * 10 + a[3]);
    assert(digits_value(r) == a[3] * 1000 + a[2] * 100 + a[1] * 10 + a[0]);
}

/// From a four-digit number whose first step keeps four digits (so not all its digits are
/// equal, nor does it step to 999), the routine reaches 6174 within seven steps.
pub proof fn lemma_four_digits_reach_6174(v: nat, n: nat, truncate: bool)
    requires
        1000 <= v < 10000,
        step(v) >= 1000,
        n >= 7,
    ensures
        outcome(v, n, truncate) == seq![6174nat],
{
    lemma_four_digit_step(v);
    let a = ascending(decimal(v));
    let x = a[3] - a[0];
    let y = a[2] - a[1];
    assert(step(v) == 999 * x + 90 * y);
    assert(produced(v, 0) == step(iterate(v, 0)));
    assert(steps_to_6174(step(v)) >= 0);
    let j = steps_to_6174(produced(v, 0)) as nat;
    assert(j <= 6);
    assert forall|i: nat| i < j implies !stops_at(v, i) by {
        lemma_distance_along(v, i);
        lemma_table_closed(produced(v, i));
    }
    lemma_distance_along(v, j);
    lemma_table_closed(produced(v, j));
    lemma_terminal_result(v, j, n, truncate);
}

} // verus!
