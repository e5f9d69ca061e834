use permute::permute;

fn collect_all<'a, U, T, F>(data: &'a [T], accessor: F) -> Vec<Vec<U>>
where
    F: Fn(&'a T) -> U,
{
    let mut p = permute(data, accessor);
    let mut all = Vec::new();
    while let Some(item) = p.next() {
        all.push(item);
    }
    all
}

#[test]
fn test_permute() {
    let v = vec!["1", "2", "3"];
    let perms = collect_all(&v, std::convert::identity);
    assert_eq!(perms.len(), 6);
    assert_eq!(perms[0], vec![&"1", &"2", &"3"]);
    assert_eq!(perms[1], vec![&"1", &"3", &"2"]);
    assert_eq!(perms[2], vec![&"2", &"1", &"3"]);
    assert_eq!(perms[3], vec![&"2", &"3", &"1"]);
    assert_eq!(perms[4], vec![&"3", &"1", &"2"]);
    assert_eq!(perms[5], vec![&"3", &"2", &"1"]);
}

#[test]
fn test_permute_cloned() {
    let v = vec![1, 2, 3];
    let perms = collect_all(&v, Clone::clone);
    assert_eq!(perms.len(), 6);
    assert_eq!(perms[0], vec![1, 2, 3]);
    assert_eq!(perms[1], vec![1, 3, 2]);
    assert_eq!(perms[2], vec![2, 1, 3]);
    assert_eq!(perms[3], vec![2, 3, 1]);
    assert_eq!(perms[4], vec![3, 1, 2]);
    assert_eq!(perms[5], vec![3, 2, 1]);
}

#[test]
fn test_traits() {
    let v = permute(&[1, 2, 3], std::convert::identity);
    let _ = v.clone();
}

#[test]
fn counts_are_factorials() {
    assert_eq!(collect_all(&[0u8; 0], Clone::clone).len(), 1);
    assert_eq!(collect_all(&[7u8], Clone::clone).len(), 1);
    assert_eq!(collect_all(&[7u8, 8], Clone::clone).len(), 2);
    assert_eq!(collect_all(&[1u8, 2, 3], Clone::clone).len(), 6);
    assert_eq!(collect_all(&[1u8, 2, 3, 4], Clone::clone).len(), 24);
    assert_eq!(collect_all(&[1u8, 2, 3, 4, 5], Clone::clone).len(), 120);
}

#[test]
fn emitted_states_strictly_increase() {
    // Cloning the identity input makes each output the index state itself.
    let v: Vec<usize> = vec![0, 1, 2, 3];
    let states = collect_all(&v, Clone::clone);
    assert_eq!(states[0], vec![0, 1, 2, 3]);
    assert_eq!(states[states.len() - 1], vec![3, 2, 1, 0]);
    for w in states.windows(2) {
        assert!(w[0] < w[1], "not strictly increasing: {:?} vs {:?}", w[0], w[1]);
    }
}

#[test]
fn every_output_is_a_bijection_on_positions() {
    let v: Vec<usize> = vec![0, 1, 2, 3];
    for state in collect_all(&v, Clone::clone) {
        let mut seen = [false; 4];
        for &idx in &state {
            assert!(idx < 4);
            assert!(!seen[idx], "position repeated in {:?}", state);
            seen[idx] = true;
        }
        assert!(seen.iter().all(|&b| b), "position skipped in {:?}", state);
    }
}

#[test]
fn exhaustion_is_stable() {
    let v = vec![1, 2];
    let mut p = permute(&v, Clone::clone);
    assert!(p.next().is_some());
    assert!(p.next().is_some());
    assert!(p.next().is_none());
    for _ in 0..5 {
        assert!(p.next().is_none());
    }
}

#[test]
fn borrowing_and_cloning_agree_in_lockstep() {
    let v = vec![10, 20, 30];
    let mut by_ref = permute(&v, std::convert::identity);
    let mut by_val = permute(&v, Clone::clone);
    loop {
        match (by_ref.next(), by_val.next()) {
            (Some(borrowed), Some(owned)) => {
                let derefed: Vec<i32> = borrowed.iter().map(|r| **r).collect();
                assert_eq!(derefed, owned);
            }
            (None, None) => break,
            _ => panic!("generators fell out of lockstep"),
        }
    }
}

#[test]
fn empty_input_yields_one_empty_permutation() {
    let v: Vec<u8> = Vec::new();
    let mut p = permute(&v, Clone::clone);
    assert_eq!(p.next(), Some(Vec::new()));
    assert_eq!(p.next(), None);
}

#[test]
fn singleton_input_yields_itself_once() {
    let v = vec![42];
    let mut p = permute(&v, Clone::clone);
    assert_eq!(p.next(), Some(vec![42]));
    assert_eq!(p.next(), None);
}

#[test]
fn duplicate_values_still_yield_all_positional_permutations() {
    let v = vec![1, 1, 2];
    let perms = collect_all(&v, Clone::clone);
    assert_eq!(perms.len(), 6);
    assert_eq!(perms[0], vec![1, 1, 2]);
    assert_eq!(perms[1], vec![1, 2, 1]);
    assert_eq!(perms[2], vec![1, 1, 2]);
    assert_eq!(perms[3], vec![1, 2, 1]);
    assert_eq!(perms[4], vec![2, 1, 1]);
    assert_eq!(perms[5], vec![2, 1, 1]);
}

#[test]
fn transform_called_once_per_element_per_permutation() {
    let calls = std::cell::Cell::new(0usize);
    let v = vec![4, 5, 6];
    let perms = collect_all(&v, |x: &i32| {
        calls.set(calls.get() + 1);
        *x
    });
    assert_eq!(perms.len(), 6);
    assert_eq!(calls.get(), 6 * 3);
}

#[test]
fn custom_transform_is_applied_per_element() {
    let v = vec![1, 2, 3];
    let perms = collect_all(&v, |x: &i32| x * 10);
    assert_eq!(perms.len(), 6);
    assert_eq!(perms[0], vec![10, 20, 30]);
    assert_eq!(perms[5], vec![30, 20, 10]);
}
