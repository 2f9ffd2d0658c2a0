use kaprekar::natural::Natural;
use kaprekar::record::{format_record, last_recorded, sweep_start, ResumeError};
use kaprekar::routine::kaprekar;

fn num(n: u64) -> Natural {
    Natural::from_u64(n)
}

fn nats(values: &[u64]) -> Vec<Natural> {
    values.iter().map(|v| num(*v)).collect()
}

fn sweep(from: u64, to: u64, iterations: u16) -> Vec<u8> {
    let mut out = Vec::new();
    let mut n = num(from);
    let end = num(to);
    while n.le(&end) {
        let r = kaprekar(&n, iterations, false);
        out.extend(format_record(&n, &r, iterations));
        n = n.successor();
    }
    out
}

#[test]
fn record_pads_to_the_column_count() {
    assert_eq!(format_record(&num(12), &nats(&[0]), 3), b"12,0,,\n".to_vec());
    assert_eq!(format_record(&num(3524), &nats(&[6174]), 4), b"3524,6174,,,\n".to_vec());
    assert_eq!(format_record(&num(5), &nats(&[]), 2), b"5,,\n".to_vec());
    assert_eq!(format_record(&num(5), &nats(&[]), 0), b"5\n".to_vec());
    assert_eq!(format_record(&num(7), &nats(&[1, 22, 333]), 2), b"7,1,22,333\n".to_vec());
}

#[test]
fn reading_back_the_last_input() {
    assert_eq!(last_recorded(&Vec::new()), Ok(None));
    assert_eq!(last_recorded(&b"1,0,,\n2,0,,\n".to_vec()), Ok(Some(num(2))));
    assert_eq!(last_recorded(&b"1,0\r\n20,0\r\n".to_vec()), Ok(Some(num(20))));
    assert_eq!(last_recorded(&b"1,0\n0042,0".to_vec()), Ok(Some(num(42))));
    assert_eq!(last_recorded(&b"7".to_vec()), Ok(Some(num(7))));
}

#[test]
fn malformed_last_input_is_refused() {
    assert_eq!(last_recorded(&b"abc,1\n".to_vec()), Err(ResumeError::MalformedInput));
    assert_eq!(last_recorded(&b"1,0\n\n".to_vec()), Err(ResumeError::MalformedInput));
    assert_eq!(last_recorded(&b"\n".to_vec()), Err(ResumeError::MalformedInput));
    assert_eq!(last_recorded(&b"1,0\n,5\n".to_vec()), Err(ResumeError::MalformedInput));
}

#[test]
fn sweep_starts_after_the_last_record() {
    assert_eq!(sweep_start(&num(10), &None), num(10));
    assert_eq!(sweep_start(&num(10), &Some(num(999))), num(1000));
}

#[test]
fn resumed_sweep_matches_uninterrupted_sweep() {
    let whole = sweep(1, 40, 5);
    let mut file = sweep(1, 25, 5);
    let last = last_recorded(&file).unwrap();
    assert_eq!(last, Some(num(25)));
    let next = sweep_start(&num(1), &last);
    assert_eq!(next, num(26));
    file.extend(sweep(26, 40, 5));
    assert_eq!(file, whole);
}
