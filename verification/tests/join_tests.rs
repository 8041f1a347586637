use join::join::{do_join, try_join};
use join::relations::{make_sorted, Relation};

fn unary_relation_a() -> Relation {
    Relation {
        data: vec![1, 2, 3, 4, 5],
        size: 5,
        arity: 1,
    }
}

fn unary_relation_b() -> Relation {
    Relation {
        data: vec![3, 5, 8],
        size: 3,
        arity: 1,
    }
}

fn relation_arity_3() -> Relation {
    Relation {
        data: vec![
            0, 1, 5, // Tuple 1
            0, 1, 7, // Tuple 2
            2, 3, 5, // Tuple 3
        ],
        size: 3,
        arity: 3,
    }
}

fn relation_arity_4() -> Relation {
    Relation {
        data: vec![
            0, 0, 0, 0, // Tuple 1
            0, 1, 0, 0, // Tuple 2
            0, 1, 5, 5, // Tuple 3
            1, 6, 6, 2, // Tuple 4
            2, 3, 6, 6, // Tuple 5
            6, 6, 6, 6, // Tuple 6
        ],
        size: 6,
        arity: 4,
    }
}

/// The join by the definition: every pair, in any order, then sorted.
fn nested_loop_join(left: &Relation, right: &Relation, prefix: usize) -> Relation {
    let mut data = Vec::new();
    let mut size = 0;
    for i in 0..left.size {
        for j in 0..right.size {
            if (0..prefix).all(|c| left.get(i, c) == right.get(j, c)) {
                for c in 0..left.arity {
                    data.push(left.get(i, c));
                }
                for c in prefix..right.arity {
                    data.push(right.get(j, c));
                }
                size += 1;
            }
        }
    }
    make_sorted(data, size, left.arity + right.arity - prefix)
}

#[test]
fn test_unary_join() {
    assert_eq!(
        do_join(&unary_relation_a(), &unary_relation_b(), 1),
        Relation {
            data: vec![3, 5],
            size: 2,
            arity: 1,
        }
    );
}

#[test]
fn test_unary_with_ternary_join() {
    assert_eq!(
        do_join(&unary_relation_a(), &relation_arity_3(), 1),
        Relation {
            data: vec![2, 3, 5],
            size: 1,
            arity: 3,
        }
    );
}

#[test]
fn test_complex_join() {
    assert_eq!(
        do_join(&relation_arity_3(), &relation_arity_4(), 2),
        Relation {
            data: vec![
                0, 1, 5, 0, 0, // Tuple 1
                0, 1, 5, 5, 5, // Tuple 2
                0, 1, 7, 0, 0, // Tuple 3
                0, 1, 7, 5, 5, // Tuple 4
                2, 3, 5, 6, 6, // Tuple 5
            ],
            size: 5,
            arity: 5,
        }
    );
}

#[test]
fn join_leaves_inputs_unchanged() {
    let left = relation_arity_3();
    let right = relation_arity_4();
    let _ = do_join(&left, &right, 2);
    assert_eq!(left, relation_arity_3());
    assert_eq!(right, relation_arity_4());
}

#[test]
fn join_arity_is_sum_less_prefix() {
    for prefix in 0..=3 {
        let joined = do_join(&relation_arity_3(), &relation_arity_4(), prefix);
        assert_eq!(joined.arity, 3 + 4 - prefix);
        assert_eq!(joined.data.len(), joined.size * joined.arity);
    }
}

#[test]
fn join_on_empty_key_is_cross_product() {
    let left = Relation { data: vec![1, 2], size: 2, arity: 1 };
    let right = Relation { data: vec![7, 8, 9], size: 3, arity: 1 };
    assert_eq!(
        do_join(&left, &right, 0),
        Relation {
            data: vec![1, 7, 1, 8, 1, 9, 2, 7, 2, 8, 2, 9],
            size: 6,
            arity: 2,
        }
    );
    let joined = do_join(&relation_arity_3(), &relation_arity_4(), 0);
    assert_eq!(joined.size, 3 * 6);
    assert_eq!(joined.arity, 7);
}

#[test]
fn join_with_empty_input_is_empty() {
    let empty = Relation { data: vec![], size: 0, arity: 3 };
    let joined = do_join(&empty, &relation_arity_4(), 2);
    assert_eq!(joined, Relation { data: vec![], size: 0, arity: 5 });
    let joined = do_join(&relation_arity_4(), &empty, 3);
    assert_eq!(joined, Relation { data: vec![], size: 0, arity: 4 });
    let joined = do_join(&empty, &empty, 0);
    assert_eq!(joined, Relation { data: vec![], size: 0, arity: 6 });
}

#[test]
fn join_pairs_every_duplicate_key_with_every_other() {
    let left = Relation {
        data: vec![1, 10, 1, 11, 2, 20, 4, 40],
        size: 4,
        arity: 2,
    };
    let right = Relation {
        data: vec![0, 5, 1, 6, 1, 7, 1, 8, 3, 9, 4, 1],
        size: 6,
        arity: 2,
    };
    assert_eq!(
        do_join(&left, &right, 1),
        Relation {
            data: vec![
                1, 10, 6, //
                1, 10, 7, //
                1, 10, 8, //
                1, 11, 6, //
                1, 11, 7, //
                1, 11, 8, //
                4, 40, 1, //
            ],
            size: 7,
            arity: 3,
        }
    );
}

#[test]
fn join_on_whole_left_tuple_appends_trailing_columns() {
    let left = Relation { data: vec![1, 2, 3, 4], size: 2, arity: 2 };
    let right = Relation {
        data: vec![1, 2, 9, 8, 3, 4, 7, 6, 3, 5, 0, 0],
        size: 3,
        arity: 4,
    };
    assert_eq!(
        do_join(&left, &right, 2),
        Relation {
            data: vec![1, 2, 9, 8, 3, 4, 7, 6],
            size: 2,
            arity: 4,
        }
    );
}

#[test]
fn join_result_is_sorted_though_pairs_come_out_of_order() {
    // Joined on column 0 only, the second column of the left tuple decides
    // before the right tuple's columns do.
    let left = Relation { data: vec![1, 5, 1, 6], size: 2, arity: 2 };
    let right = Relation { data: vec![1, 2, 1, 1], size: 2, arity: 2 };
    let right = make_sorted(right.data, 2, 2);
    let joined = do_join(&left, &right, 1);
    assert_eq!(
        joined,
        Relation {
            data: vec![1, 5, 1, 1, 5, 2, 1, 6, 1, 1, 6, 2],
            size: 4,
            arity: 3,
        }
    );
    assert!(joined.is_sorted());
}

#[test]
fn join_skips_long_runs_without_a_match() {
    let mut left_data = Vec::new();
    for _ in 0..100 {
        left_data.extend_from_slice(&[1, 0]);
    }
    left_data.extend_from_slice(&[5, 1]);
    for _ in 0..100 {
        left_data.extend_from_slice(&[7, 2]);
    }
    left_data.extend_from_slice(&[9, 3]);
    let left = Relation { data: left_data, size: 202, arity: 2 };
    let mut right_data = Vec::new();
    for _ in 0..50 {
        right_data.extend_from_slice(&[0, 0]);
    }
    right_data.extend_from_slice(&[5, 4]);
    for _ in 0..50 {
        right_data.extend_from_slice(&[8, 0]);
    }
    right_data.extend_from_slice(&[9, 6, 9, 7]);
    let right = Relation { data: right_data, size: 103, arity: 2 };
    assert_eq!(
        do_join(&left, &right, 1),
        Relation {
            data: vec![5, 1, 4, 9, 3, 6, 9, 3, 7],
            size: 3,
            arity: 3,
        }
    );
}

#[test]
fn join_counts_the_matching_pairs() {
    let left = make_sorted(
        vec![3, 1, 2, 2, 3, 1, 0, 0, 2, 9, 3, 3, -1, 4, 2, 2],
        8,
        2,
    );
    let right = make_sorted(vec![2, 2, 3, 1, 3, 2, 2, 9, 5, 5, -1, 0, 2, 2], 7, 2);
    for prefix in 0..=2 {
        let mut pairs = 0;
        for i in 0..left.size {
            for j in 0..right.size {
                if (0..prefix).all(|c| left.get(i, c) == right.get(j, c)) {
                    pairs += 1;
                }
            }
        }
        let joined = do_join(&left, &right, prefix);
        assert_eq!(joined.size, pairs);
        assert_eq!(joined, nested_loop_join(&left, &right, prefix));
        assert!(joined.is_sorted());
    }
}

#[test]
fn join_of_tuples_without_columns_counts_pairs() {
    let left = Relation { data: vec![], size: 2, arity: 0 };
    let right = Relation { data: vec![], size: 3, arity: 0 };
    assert_eq!(
        do_join(&left, &right, 0),
        Relation { data: vec![], size: 6, arity: 0 }
    );
}

#[test]
fn join_with_extreme_values() {
    let left = Relation {
        data: vec![i32::MIN, 1, -1, 2, i32::MAX, 3],
        size: 3,
        arity: 2,
    };
    let right = Relation {
        data: vec![i32::MIN, 7, 0, 8, i32::MAX, 9],
        size: 3,
        arity: 2,
    };
    assert_eq!(
        do_join(&left, &right, 1),
        Relation {
            data: vec![i32::MIN, 1, 7, i32::MAX, 3, 9],
            size: 2,
            arity: 3,
        }
    );
}

#[test]
fn try_join_joins_valid_inputs() {
    assert_eq!(
        try_join(&relation_arity_3(), &relation_arity_4(), 2),
        Some(do_join(&relation_arity_3(), &relation_arity_4(), 2))
    );
    assert_eq!(
        try_join(&unary_relation_a(), &unary_relation_b(), 0).map(|r| r.size),
        Some(15)
    );
}

#[test]
fn try_join_refuses_a_prefix_wider_than_an_input() {
    assert_eq!(try_join(&unary_relation_a(), &relation_arity_3(), 2), None);
    assert_eq!(try_join(&relation_arity_3(), &unary_relation_a(), 2), None);
    assert_eq!(try_join(&relation_arity_3(), &relation_arity_4(), 4), None);
}

#[test]
fn try_join_refuses_unsorted_or_malformed_inputs() {
    let unsorted = Relation { data: vec![2, 1], size: 2, arity: 1 };
    assert_eq!(try_join(&unsorted, &unary_relation_b(), 1), None);
    assert_eq!(try_join(&unary_relation_b(), &unsorted, 1), None);
    let short = Relation { data: vec![1, 2, 3], size: 2, arity: 2 };
    assert_eq!(try_join(&short, &unary_relation_b(), 1), None);
    assert_eq!(try_join(&unary_relation_b(), &short, 1), None);
}

#[test]
fn try_join_refuses_a_result_too_large_to_count() {
    let left = Relation { data: vec![], size: usize::MAX, arity: 0 };
    let right = Relation { data: vec![], size: 2, arity: 0 };
    assert_eq!(try_join(&left, &right, 0), None);
    let wide = Relation { data: vec![], size: 0, arity: usize::MAX };
    assert_eq!(try_join(&wide, &wide, 0), None);
}
