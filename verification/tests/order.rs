use playscript::order::stable_sort;

fn entries(items: &[(usize, &str)]) -> Vec<(usize, String)> {
    items.iter().map(|(n, s)| (*n, s.to_string())).collect()
}

#[test]
fn stable_sort_orders_by_rank() {
    let mut v = entries(&[(3, "c"), (1, "a"), (2, "b"), (0, "z")]);
    stable_sort(&mut v);
    assert_eq!(v, entries(&[(0, "z"), (1, "a"), (2, "b"), (3, "c")]));
}

#[test]
fn stable_sort_keeps_equal_ranks_in_place() {
    let mut v = entries(&[(2, "first"), (1, "x"), (2, "second"), (1, "y"), (2, "third")]);
    stable_sort(&mut v);
    assert_eq!(
        v,
        entries(&[(1, "x"), (1, "y"), (2, "first"), (2, "second"), (2, "third")])
    );
}

#[test]
fn stable_sort_of_nothing_and_of_one() {
    let mut none: Vec<(usize, usize)> = Vec::new();
    stable_sort(&mut none);
    assert!(none.is_empty());
    let mut one = vec![(7usize, 1usize)];
    stable_sort(&mut one);
    assert_eq!(one, vec![(7, 1)]);
}

#[test]
fn stable_sort_agrees_with_the_standard_sort() {
    let mut seed: u64 = 0x2545_f491_4f6c_dd1d;
    for round in 0..50usize {
        let mut v: Vec<(usize, usize)> = Vec::new();
        for place in 0..(round % 17) * 3 {
            seed ^= seed << 13;
            seed ^= seed >> 7;
            seed ^= seed << 17;
            v.push(((seed % 5) as usize, place));
        }
        let mut expected = v.clone();
        expected.sort_by_key(|e| e.0);
        stable_sort(&mut v);
        assert_eq!(v, expected);
    }
}
