use join::random::random_sorted_relation;
use join::relations::{make_sorted, Relation};

#[test]
fn test_is_sorted() {
    let relation = random_sorted_relation();
    for i in 0..(relation.size - 1) {
        assert_eq!(true, relation.compare(i, i + 1) >= 0);
    }
}

#[test]
fn test_display() {
    let relation = Relation {
        data: vec![
            1, 2, // Tuple 1
            3, 4, // Tuple 2
            5, 6, // Tuple 3
        ],
        size: 3,
        arity: 2,
    };
    assert_eq!(
        relation.to_string(),
        "Relation of arity 2 and size 3. Tuples: [1,2][3,4][5,6]"
    );
}

#[test]
fn display_of_negative_and_extreme_values() {
    let relation = Relation {
        data: vec![-1, 0, i32::MIN, i32::MAX, 10, -205],
        size: 2,
        arity: 3,
    };
    assert_eq!(
        relation.to_string(),
        "Relation of arity 3 and size 2. Tuples: [-1,0,-2147483648][2147483647,10,-205]"
    );
    assert_eq!(relation.print_data(), "[-1,0,-2147483648][2147483647,10,-205]");
}

#[test]
fn display_of_empty_relations() {
    let none = Relation { data: vec![], size: 0, arity: 4 };
    assert_eq!(none.to_string(), "Relation of arity 4 and size 0. Tuples: ");
    assert_eq!(none.print_data(), "");
    let bare = Relation { data: vec![], size: 2, arity: 0 };
    assert_eq!(bare.to_string(), "Relation of arity 0 and size 2. Tuples: [][]");
    let single = Relation { data: vec![7, 8], size: 2, arity: 1 };
    assert_eq!(single.print_data(), "[7][8]");
}

#[test]
fn display_agrees_with_std_formatting() {
    let relation = random_sorted_relation();
    let mut expected = format!(
        "Relation of arity {} and size {}. Tuples: ",
        relation.arity, relation.size
    );
    for i in 0..relation.size {
        let columns: Vec<String> = (0..relation.arity)
            .map(|j| relation.get(i, j).to_string())
            .collect();
        expected.push_str(&format!("[{}]", columns.join(",")));
    }
    assert_eq!(relation.to_string(), expected);
}

#[test]
fn get_reads_row_major() {
    let relation = Relation {
        data: vec![1, 2, 3, 4, 5, 6],
        size: 2,
        arity: 3,
    };
    assert_eq!(relation.get(0, 0), 1);
    assert_eq!(relation.get(0, 2), 3);
    assert_eq!(relation.get(1, 0), 4);
    assert_eq!(relation.get(1, 2), 6);
}

#[test]
fn compare_gives_the_sign_of_b_minus_a() {
    let relation = Relation {
        data: vec![1, 5, 1, 7, 2, 0, 1, 5],
        size: 4,
        arity: 2,
    };
    assert_eq!(relation.compare(0, 1), 1);
    assert_eq!(relation.compare(1, 0), -1);
    assert_eq!(relation.compare(1, 2), 1);
    assert_eq!(relation.compare(2, 0), -1);
    assert_eq!(relation.compare(0, 3), 0);
    assert_eq!(relation.compare(2, 2), 0);
}

#[test]
fn compare_does_not_overflow() {
    let relation = Relation {
        data: vec![i32::MIN, i32::MAX, -1, 1],
        size: 4,
        arity: 1,
    };
    assert_eq!(relation.compare(0, 1), 1);
    assert_eq!(relation.compare(1, 0), -1);
    assert_eq!(relation.compare(0, 3), 1);
    assert_eq!(relation.compare(1, 2), -1);
}

#[test]
fn make_sorted_orders_tuples_by_column() {
    assert_eq!(
        make_sorted(vec![3, 1, 1, 2, 1, 1, 2, 9, 1, 2], 5, 2),
        Relation {
            data: vec![1, 1, 1, 2, 1, 2, 2, 9, 3, 1],
            size: 5,
            arity: 2,
        }
    );
}

#[test]
fn make_sorted_orders_signed_values() {
    assert_eq!(
        make_sorted(vec![0, i32::MAX, -5, i32::MIN, 7, -1], 6, 1),
        Relation {
            data: vec![i32::MIN, -5, -1, 0, 7, i32::MAX],
            size: 6,
            arity: 1,
        }
    );
}

#[test]
fn make_sorted_of_nothing_and_of_one() {
    assert_eq!(
        make_sorted(vec![], 0, 3),
        Relation { data: vec![], size: 0, arity: 3 }
    );
    assert_eq!(
        make_sorted(vec![4, 2], 1, 2),
        Relation { data: vec![4, 2], size: 1, arity: 2 }
    );
    assert_eq!(
        make_sorted(vec![], 5, 0),
        Relation { data: vec![], size: 5, arity: 0 }
    );
}

#[test]
fn make_sorted_keeps_every_tuple() {
    let data = vec![5, 5, 4, 9, 5, 5, 0, 1, 4, 9, 4, 8, 5, 5];
    let mut expected: Vec<[i32; 2]> = data.chunks(2).map(|c| [c[0], c[1]]).collect();
    expected.sort();
    let relation = make_sorted(data, 7, 2);
    let rows: Vec<[i32; 2]> = (0..7)
        .map(|i| [relation.get(i, 0), relation.get(i, 1)])
        .collect();
    assert_eq!(rows, expected);
}

#[test]
fn make_sorted_on_sorted_and_reversed_input() {
    let ascending: Vec<i32> = (0..500).collect();
    let descending: Vec<i32> = (0..500).rev().collect();
    assert_eq!(make_sorted(ascending.clone(), 500, 1).data, ascending);
    assert_eq!(make_sorted(descending, 500, 1).data, ascending);
    assert_eq!(make_sorted(vec![3; 400], 200, 2).data, vec![3; 400]);
}

#[test]
fn sort_invariant_holds_for_neighbours() {
    let relation = make_sorted(vec![2, 2, 1, 3, 2, 1, 1, 3, 0, 9, 2, 2], 6, 2);
    for i in 0..relation.size - 1 {
        assert!(relation.compare(i, i + 1) >= 0);
    }
    assert!(relation.is_sorted());
}

#[test]
fn is_sorted_tells_order_from_disorder() {
    assert!(Relation { data: vec![1, 2, 1, 2, 1, 3], size: 3, arity: 2 }.is_sorted());
    assert!(!Relation { data: vec![1, 2, 1, 1], size: 2, arity: 2 }.is_sorted());
    assert!(!Relation { data: vec![1, 2, 3, 0, 2, 9], size: 3, arity: 2 }.is_sorted());
    assert!(Relation { data: vec![], size: 0, arity: 2 }.is_sorted());
    assert!(Relation { data: vec![9], size: 1, arity: 1 }.is_sorted());
    assert!(Relation { data: vec![], size: 3, arity: 0 }.is_sorted());
}

#[test]
fn is_well_formed_checks_the_buffer_length() {
    assert!(Relation { data: vec![1, 2, 3, 4], size: 2, arity: 2 }.is_well_formed());
    assert!(!Relation { data: vec![1, 2, 3], size: 2, arity: 2 }.is_well_formed());
    assert!(!Relation { data: vec![1, 2, 3, 4, 5], size: 2, arity: 2 }.is_well_formed());
    assert!(Relation { data: vec![], size: 0, arity: 9 }.is_well_formed());
    assert!(!Relation { data: vec![], size: usize::MAX, arity: 2 }.is_well_formed());
}

#[test]
fn relations_are_equal_by_content() {
    let a = Relation { data: vec![], size: 0, arity: 1 };
    let b = Relation { data: vec![], size: 0, arity: 2 };
    assert_ne!(a, b);
    assert_eq!(a, Relation { data: vec![], size: 0, arity: 1 });
    assert_ne!(
        Relation { data: vec![1, 2], size: 2, arity: 1 },
        Relation { data: vec![1, 2], size: 1, arity: 2 }
    );
    assert_ne!(
        Relation { data: vec![1, 2], size: 2, arity: 1 },
        Relation { data: vec![1, 3], size: 2, arity: 1 }
    );
}

#[test]
fn random_relations_are_within_their_limits() {
    for _ in 0..20 {
        let relation = random_sorted_relation();
        assert!(1 <= relation.size && relation.size < 1000);
        assert!(2 <= relation.arity && relation.arity < 5);
        assert_eq!(relation.data.len(), relation.size * relation.arity);
        assert!(relation.data.iter().all(|x| 0 <= *x && *x < 50));
        assert!(relation.is_sorted());
    }
}

#[test]
fn random_relations_differ() {
    let mut sizes = Vec::new();
    let mut values = Vec::new();
    for _ in 0..20 {
        let relation = random_sorted_relation();
        sizes.push(relation.size);
        values.extend_from_slice(&relation.data);
    }
    assert!(sizes.iter().any(|s| *s != sizes[0]));
    assert!(values.iter().any(|x| *x != values[0]));
    assert!(values.iter().any(|x| *x != 0));
}
