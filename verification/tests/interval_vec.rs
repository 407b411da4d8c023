use interval_vec::IntervalVec;
use interval_vec::IntervalVecErr;

#[test]
fn random_numbers_test() {
    let mut v = IntervalVec::new();
    let mut v_check = Vec::new();
    for i in 0..50000 {
        assert_eq!(v.len(), i);
        let element = rand::random::<i32>() % 100;
        let _ = v.push(element);
        v_check.push(element);
        assert_eq!(
            v.get(v.len() - 1).unwrap(),
            *v_check.get(v_check.len() - 1).unwrap()
        );
    }
    for i in 0..v_check.len() {
        assert_eq!(v.get(i).unwrap(), v_check[i]);
    }
}

#[test]
fn new_is_empty() {
    let v = IntervalVec::new();
    assert_eq!(v.len(), 0);
    assert_eq!(
        v.get(0),
        Err(IntervalVecErr::OutOfRange { count: 0, index: 0 })
    );
}

#[test]
fn push_then_get_each() {
    let mut v = IntervalVec::new();
    v.push(0).unwrap();
    v.push(1).unwrap();
    v.push(1).unwrap();
    v.push(2).unwrap();
    assert_eq!(v.len(), 4);
    assert_eq!(v.get(0).unwrap(), 0);
    assert_eq!(v.get(1).unwrap(), 1);
    assert_eq!(v.get(2).unwrap(), 1);
    assert_eq!(v.get(3).unwrap(), 2);
}

#[test]
fn scenario_push_then_set_front() {
    // push 0, 1, 1, 2; then overwrite the front.
    let mut v = IntervalVec::new();
    v.push(0).unwrap();
    v.push(1).unwrap();
    v.push(1).unwrap();
    v.push(2).unwrap();
    assert_eq!(v.len(), 4);
    assert_eq!(v.get(1).unwrap(), 1);
    assert_eq!(v.get(3).unwrap(), 2);
    v.set(0, 3).unwrap();
    assert_eq!(v.get(0).unwrap(), 3);
    assert_eq!(v.len(), 4);
    assert_eq!(v.get(1).unwrap(), 1);
    assert_eq!(v.get(2).unwrap(), 1);
    assert_eq!(v.get(3).unwrap(), 2);
}

#[test]
fn scenario_insert_front_shifts() {
    // push 0, 1, 2; insert 3 at the front; the old 0 moves to index 1.
    let mut v = IntervalVec::new();
    v.push(0).unwrap();
    v.push(1).unwrap();
    v.push(2).unwrap();
    v.insert(0, 3).unwrap();
    assert_eq!(v.get(0).unwrap(), 3);
    assert_eq!(v.len(), 4);
    assert_eq!(v.get(1).unwrap(), 0);
    assert_eq!(v.get(2).unwrap(), 1);
    assert_eq!(v.get(3).unwrap(), 2);
}

#[test]
fn insert_middle_shifts_right() {
    // [a, b, c] with insert(1, x) becomes [a, x, b, c].
    let mut v = IntervalVec::new();
    v.push(10).unwrap();
    v.push(20).unwrap();
    v.push(30).unwrap();
    v.insert(1, 99).unwrap();
    assert_eq!(v.len(), 4);
    assert_eq!(v.get(0).unwrap(), 10);
    assert_eq!(v.get(1).unwrap(), 99);
    assert_eq!(v.get(2).unwrap(), 20);
    assert_eq!(v.get(3).unwrap(), 30);
}

#[test]
fn out_of_range_symmetry() {
    let mut v = IntervalVec::new();
    v.push(5).unwrap();
    v.push(6).unwrap();
    let n = v.len();
    assert_eq!(
        v.get(n),
        Err(IntervalVecErr::OutOfRange { count: n, index: n })
    );
    assert_eq!(
        v.set(n, 7),
        Err(IntervalVecErr::OutOfRange { count: n, index: n })
    );
    assert_eq!(
        v.insert(n + 1, 7),
        Err(IntervalVecErr::OutOfRange {
            count: n,
            index: n + 1
        })
    );
    // Failures leave the container untouched.
    assert_eq!(v.len(), 2);
    assert_eq!(v.get(0).unwrap(), 5);
    assert_eq!(v.get(1).unwrap(), 6);
    // Inserting exactly at the length is the valid append case.
    v.insert(v.len(), 7).unwrap();
    assert_eq!(v.get(2).unwrap(), 7);
}

#[test]
fn set_is_pure_overwrite() {
    let mut v = IntervalVec::new();
    for _ in 0..6 {
        v.push(4).unwrap();
    }
    // Split a run in the middle: only index 3 changes.
    v.set(3, 9).unwrap();
    assert_eq!(v.len(), 6);
    for i in 0..6 {
        let expected = if i == 3 { 9 } else { 4 };
        assert_eq!(v.get(i).unwrap(), expected);
    }
    // Overwriting with the same value is a no-op.
    v.set(0, 4).unwrap();
    assert_eq!(v.len(), 6);
    assert_eq!(v.get(0).unwrap(), 4);
}

#[test]
fn set_on_empty_fails() {
    let mut v = IntervalVec::new();
    assert_eq!(
        v.set(0, 1),
        Err(IntervalVecErr::OutOfRange { count: 0, index: 0 })
    );
    assert_eq!(v.len(), 0);
}

#[test]
fn insert_equal_value_grows_run() {
    // Insert a value equal to the run it lands in: the run grows in place.
    let mut v = IntervalVec::new();
    v.push(7).unwrap();
    v.push(7).unwrap();
    v.push(8).unwrap();
    v.insert(1, 7).unwrap();
    assert_eq!(v.len(), 4);
    assert_eq!(v.get(0).unwrap(), 7);
    assert_eq!(v.get(1).unwrap(), 7);
    assert_eq!(v.get(2).unwrap(), 7);
    assert_eq!(v.get(3).unwrap(), 8);
}

#[test]
fn insert_differing_value_splits_run() {
    let mut v = IntervalVec::new();
    for _ in 0..5 {
        v.push(1).unwrap();
    }
    v.insert(2, 2).unwrap();
    assert_eq!(v.len(), 6);
    let expected = [1, 1, 2, 1, 1, 1];
    for (i, e) in expected.iter().enumerate() {
        assert_eq!(v.get(i).unwrap(), *e);
    }
}

#[test]
fn insert_into_empty_at_zero_only() {
    let mut v = IntervalVec::new();
    assert_eq!(
        v.insert(1, 5),
        Err(IntervalVecErr::OutOfRange { count: 0, index: 1 })
    );
    assert_eq!(v.len(), 0);
    v.insert(0, 5).unwrap();
    assert_eq!(v.len(), 1);
    assert_eq!(v.get(0).unwrap(), 5);
}

#[test]
fn push_after_failed_ops_still_appends() {
    let mut v = IntervalVec::new();
    let _ = v.insert(3, 1);
    v.push(42).unwrap();
    assert_eq!(v.len(), 1);
    assert_eq!(v.get(0).unwrap(), 42);
}

#[test]
fn mixed_operations_match_reference() {
    // A deterministic pseudo-random workload over a small value range, so
    // both the equal-value (count-increment) and the differing-value
    // (split) paths are exercised; a plain Vec is the reference.
    let mut v = IntervalVec::new();
    let mut reference: Vec<i32> = Vec::new();
    let mut state: u64 = 0x853c49e6748fea9b;
    let mut next = |bound: usize| -> usize {
        state = state
            .wrapping_mul(6364136223846793005)
            .wrapping_add(1442695040888963407);
        ((state >> 33) as usize) % bound
    };
    for step in 0..4000 {
        let value = (next(5)) as i32;
        match step % 8 {
            0 | 1 | 2 | 3 => {
                v.push(value).unwrap();
                reference.push(value);
            }
            4 | 5 => {
                let i = next(reference.len() + 1);
                v.insert(i, value).unwrap();
                reference.insert(i, value);
            }
            _ => {
                if !reference.is_empty() {
                    let i = next(reference.len());
                    v.set(i, value).unwrap();
                    reference[i] = value;
                }
            }
        }
        assert_eq!(v.len(), reference.len());
    }
    for (i, e) in reference.iter().enumerate() {
        assert_eq!(v.get(i).unwrap(), *e);
    }
}

#[test]
fn long_runs_round_trip() {
    let mut v = IntervalVec::new();
    let mut reference: Vec<i32> = Vec::new();
    for block in 0..20 {
        for _ in 0..50 {
            v.push(block % 3).unwrap();
            reference.push(block % 3);
        }
    }
    for (i, e) in reference.iter().enumerate() {
        assert_eq!(v.get(i).unwrap(), *e);
    }
    assert_eq!(v.len(), 1000);
}
