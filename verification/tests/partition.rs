use parallel_labs::partition::{calculate_local_offset, calculate_local_size, cyclic_assignment};

#[test]
fn local_sizes_hand_remainder_to_first_ranks() {
    assert_eq!(calculate_local_size(0, 3, 10), 4);
    assert_eq!(calculate_local_size(1, 3, 10), 3);
    assert_eq!(calculate_local_size(2, 3, 10), 3);
    assert_eq!(calculate_local_size(3, 4, 2), 0);
}

#[test]
fn offsets_follow_sizes() {
    assert_eq!(calculate_local_offset(0, 3, 10), 0);
    assert_eq!(calculate_local_offset(1, 3, 10), 4);
    assert_eq!(calculate_local_offset(2, 3, 10), 7);
    assert_eq!(calculate_local_offset(3, 3, 10), 10);
}

#[test]
fn pieces_cover_everything_once() {
    for total in 0..40usize {
        for size in 1..9usize {
            let mut next = 0;
            for r in 0..size {
                assert_eq!(calculate_local_offset(r, size, total), next);
                let n = calculate_local_size(r, size, total);
                assert!(n == total / size || n == total / size + 1);
                next += n;
            }
            assert_eq!(next, total);
            assert_eq!(calculate_local_offset(size, size, total), total);
        }
    }
}

#[test]
fn cyclic_assignment_is_round_robin() {
    assert_eq!(cyclic_assignment(5, 2), vec![(0, 0), (1, 0), (0, 1), (1, 1), (0, 2)]);
    assert_eq!(cyclic_assignment(0, 3), Vec::<(usize, usize)>::new());
}

#[test]
fn cyclic_counts_match_local_sizes() {
    for n in 0..20usize {
        for size in 1..6usize {
            let a = cyclic_assignment(n, size);
            for r in 0..size {
                let owned = a.iter().filter(|(owner, _)| *owner == r).count();
                assert_eq!(owned, calculate_local_size(r, size, n));
            }
        }
    }
}
