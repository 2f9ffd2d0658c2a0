use kaprekar::natural::Natural;
use kaprekar::routine::{kaprekar, kaprekar_step, kaprekar_traced, last_element};

fn num(n: u64) -> Natural {
    Natural::from_u64(n)
}

fn nats(values: &[u64]) -> Vec<Natural> {
    values.iter().map(|v| num(*v)).collect()
}

fn text_of(n: &Natural) -> String {
    String::from_utf8(n.to_text()).unwrap()
}

fn digits_differ_by(n: u64) -> u8 {
    let t = n.to_string().into_bytes();
    t.iter().max().unwrap() - t.iter().min().unwrap()
}

#[test]
fn repeated_digits_give_zero() {
    assert_eq!(kaprekar(&num(1111), 20, false), nats(&[0]));
    assert_eq!(kaprekar(&num(7), 20, false), nats(&[0]));
    assert_eq!(kaprekar(&num(0), 20, true), nats(&[0]));
    assert_eq!(kaprekar(&num(999999), 1, true), nats(&[0]));
}

#[test]
fn first_output_is_descending_minus_ascending() {
    let s = kaprekar_step(&num(1000));
    assert_eq!(s.descending, vec![1, 0, 0, 0]);
    assert_eq!(s.ascending, vec![0, 0, 0, 1]);
    assert_eq!(s.next, num(999));
    let s = kaprekar_step(&num(3524));
    assert_eq!(s.descending, vec![5, 4, 3, 2]);
    assert_eq!(s.ascending, vec![2, 3, 4, 5]);
    assert_eq!(s.next, num(3087));
    let s = kaprekar_step(&num(2111));
    assert_eq!(s.next, num(999));
}

#[test]
fn step_beyond_sixty_four_bits() {
    let n = Natural::parse(b"98765432109876543210").unwrap();
    let s = kaprekar_step(&n);
    assert_eq!(text_of(&s.next), "99775533108866442201");
}

#[test]
fn three_digit_inputs_reach_495() {
    for n in 100u64..1000 {
        let spread = digits_differ_by(n);
        if spread == 0 {
            continue;
        }
        let r = kaprekar(&num(n), 20, true);
        if spread == 1 {
            // the first difference is 99, which has two digits and steps to zero
            assert_eq!(r, nats(&[0]), "input {}", n);
        } else {
            assert_eq!(r, nats(&[495]), "input {}", n);
        }
    }
}

#[test]
fn four_digit_inputs_reach_6174() {
    for n in 1000u64..10000 {
        if digits_differ_by(n) == 0 {
            continue;
        }
        let r = kaprekar(&num(n), 20, true);
        if kaprekar_step(&num(n)).next == num(999) {
            assert_eq!(r, nats(&[0]), "input {}", n);
        } else {
            assert_eq!(r, nats(&[6174]), "input {}", n);
        }
    }
}

#[test]
fn running_out_truncates_or_keeps_all() {
    assert_eq!(kaprekar(&num(12345), 3, true), nats(&[]));
    assert_eq!(kaprekar(&num(12345), 3, false), nats(&[41976, 82962, 75933]));
    assert_eq!(kaprekar(&num(12345), 0, false), nats(&[]));
    let long = kaprekar(&num(123456), 20, false);
    assert_eq!(long.len(), 20);
    assert_eq!(kaprekar(&num(123456), 20, true), nats(&[]));
}

#[test]
fn terminal_value_stands_alone() {
    assert_eq!(kaprekar(&num(3524), 20, false), nats(&[6174]));
    let (r, trace) = kaprekar_traced(&num(3524), 20, false);
    assert_eq!(r, nats(&[6174]));
    let steps: Vec<Natural> = trace.into_iter().map(|s| s.next).collect();
    assert_eq!(steps, nats(&[3087, 8352, 6174]));
    assert_eq!(kaprekar(&num(123), 20, false), nats(&[495]));
    // the cap is reached exactly at the terminal value
    assert_eq!(kaprekar(&num(3524), 3, true), nats(&[6174]));
    assert_eq!(kaprekar(&num(3524), 2, true), nats(&[]));
}

#[test]
fn repeat_of_first_value_ends_the_run() {
    let r = kaprekar(&num(61974), 20, true);
    assert_eq!(r, nats(&[82962, 75933, 63954, 61974]));
    let (_, trace) = kaprekar_traced(&num(61974), 20, true);
    assert_eq!(trace.len(), 5);
    // the repeat comes one step too late for a cap of four
    assert_eq!(kaprekar(&num(61974), 4, true), nats(&[]));
    assert_eq!(kaprekar(&num(61974), 4, false), nats(&[82962, 75933, 63954, 61974]));
}

#[test]
fn thousand_falls_to_zero() {
    let (r, trace) = kaprekar_traced(&num(1000), 4, false);
    assert_eq!(r, nats(&[0]));
    let steps: Vec<Natural> = trace.into_iter().map(|s| s.next).collect();
    assert_eq!(steps, nats(&[999, 0]));
    assert_eq!(kaprekar(&num(1000), 20, true), nats(&[0]));
}

#[test]
fn fixed_point_6174() {
    let (r, trace) = kaprekar_traced(&num(6174), 20, false);
    assert_eq!(r, nats(&[6174]));
    assert_eq!(trace.len(), 1);
    assert_eq!(trace[0].next, num(6174));
    assert_eq!(kaprekar(&num(495), 1, true), nats(&[495]));
}

#[test]
fn last_element_of_slices() {
    let empty: Vec<u32> = Vec::new();
    assert_eq!(last_element(&empty), Vec::<u32>::new());
    assert_eq!(last_element(&[1u32, 2, 3]), vec![3u32]);
    assert_eq!(last_element(&nats(&[5, 6])), nats(&[6]));
}
