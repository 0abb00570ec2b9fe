use parallel_labs::blocks::{assemble_blocks, split_into_blocks};
use parallel_labs::error::AlgError;
use parallel_labs::grid::{
    broadcast_a_plan, exchange_plan, fox_root_col, grid_side, integer_sqrt, shift_b_up_plan,
    shift_left_plan, shift_up_plan, validate_cannon_requirements, validate_fox_requirements,
    BroadcastPlan, ExchangePlan,
};

#[test]
fn integer_square_roots() {
    assert_eq!(integer_sqrt(0), 0);
    assert_eq!(integer_sqrt(1), 1);
    assert_eq!(integer_sqrt(8), 2);
    assert_eq!(integer_sqrt(9), 3);
    assert_eq!(integer_sqrt(1_000_000), 1000);
}

#[test]
fn grid_side_needs_perfect_square() {
    assert_eq!(grid_side(16), Ok(4));
    assert_eq!(grid_side(6), Err(AlgError::NotPerfectSquare { size: 6 }));
}

#[test]
fn cannon_requirements() {
    assert_eq!(validate_cannon_requirements(4, 6, 6, 6, 6), Ok((6, 2, 3)));
    assert_eq!(
        validate_cannon_requirements(3, 6, 6, 6, 6),
        Err(AlgError::NotPerfectSquare { size: 3 })
    );
    assert_eq!(validate_cannon_requirements(4, 6, 5, 5, 6), Err(AlgError::NotSquareMatrices));
    assert_eq!(validate_cannon_requirements(9, 4, 4, 4, 4), Err(AlgError::NotDivisible));
}

#[test]
fn fox_requirements() {
    assert_eq!(validate_fox_requirements(4, 6, 6), Ok(2));
    assert_eq!(validate_fox_requirements(1, 5, 5), Ok(1));
    assert_eq!(validate_fox_requirements(5, 6, 6), Err(AlgError::FoxRequirements));
    assert_eq!(validate_fox_requirements(4, 6, 5), Err(AlgError::FoxRequirements));
    assert_eq!(validate_fox_requirements(9, 4, 4), Err(AlgError::FoxRequirements));
}

#[test]
fn blocks_of_a_four_by_four() {
    let data: Vec<u32> = (0..16).collect();
    let blocks = split_into_blocks(&data, 4, 2);
    assert_eq!(blocks[0], vec![0, 1, 4, 5]);
    assert_eq!(blocks[1], vec![2, 3, 6, 7]);
    assert_eq!(blocks[2], vec![8, 9, 12, 13]);
    assert_eq!(blocks[3], vec![10, 11, 14, 15]);
    assert_eq!(assemble_blocks(&blocks, 4, 2), data);
}

#[test]
fn blocks_round_trip_for_several_grids() {
    for (n, q) in [(0usize, 1usize), (1, 1), (6, 2), (6, 3), (9, 3), (8, 4)] {
        let data: Vec<u64> = (0..(n * n) as u64).collect();
        let blocks = split_into_blocks(&data, n, q);
        assert_eq!(blocks.len(), q * q);
        assert_eq!(assemble_blocks(&blocks, n, q), data);
    }
}

#[test]
fn exchange_order() {
    assert_eq!(exchange_plan(3, 3, 3), ExchangePlan::KeepLocal);
    assert_eq!(exchange_plan(1, 2, 0), ExchangePlan::SendFirst { dest: 2, src: 0 });
    assert_eq!(exchange_plan(2, 1, 0), ExchangePlan::ReceiveFirst { dest: 1, src: 0 });
}

#[test]
fn shift_plans_on_three_by_three() {
    // rank 4 is (1, 1); shifting row 1 left by 1 sends to (1, 0) = 3 and takes from (1, 2) = 5
    assert_eq!(shift_left_plan(4, 1, 1, 3, 1), ExchangePlan::ReceiveFirst { dest: 3, src: 5 });
    assert_eq!(shift_left_plan(4, 1, 1, 3, 0), ExchangePlan::KeepLocal);
    // rank 3 is (1, 0); shifting left by 2 sends to (1, 1) = 4 and takes from (1, 2) = 5
    assert_eq!(shift_left_plan(3, 1, 0, 3, 2), ExchangePlan::SendFirst { dest: 4, src: 5 });
    // rank 1 is (0, 1); shifting column 1 up by 1 sends to (2, 1) = 7 and takes from (1, 1) = 4
    assert_eq!(shift_up_plan(1, 0, 1, 3, 1), ExchangePlan::SendFirst { dest: 7, src: 4 });
}

#[test]
fn fox_plans() {
    assert_eq!(shift_b_up_plan(0, 0, 1), ExchangePlan::KeepLocal);
    assert_eq!(shift_b_up_plan(0, 1, 3), ExchangePlan::SendFirst { dest: 7, src: 4 });
    assert_eq!(shift_b_up_plan(1, 2, 3), ExchangePlan::ReceiveFirst { dest: 2, src: 8 });
    assert_eq!(fox_root_col(2, 2, 3), 1);
    match broadcast_a_plan(1, 2, 2, 3) {
        BroadcastPlan::Send { targets } => assert_eq!(targets, vec![3, 4]),
        BroadcastPlan::Receive { .. } => panic!("process (1, 2) owns the block"),
    }
    match broadcast_a_plan(1, 0, 2, 3) {
        BroadcastPlan::Receive { from } => assert_eq!(from, 5),
        BroadcastPlan::Send { .. } => panic!("process (1, 0) does not own the block"),
    }
}

fn has_completing_pair(plans: &[ExchangePlan]) -> bool {
    plans.iter().any(|p| match *p {
        ExchangePlan::SendFirst { dest, .. } => {
            matches!(plans[dest], ExchangePlan::ReceiveFirst { .. })
        }
        _ => false,
    })
}

#[test]
fn every_moving_shift_has_a_transfer_that_can_complete() {
    for q in 2..6usize {
        for amount in 1..q {
            let left: Vec<_> = (0..q * q).map(|r| shift_left_plan(r, r / q, r % q, q, amount)).collect();
            let up: Vec<_> = (0..q * q).map(|r| shift_up_plan(r, r / q, r % q, q, amount)).collect();
            assert!(has_completing_pair(&left));
            assert!(has_completing_pair(&up));
        }
        let fox: Vec<_> = (0..q * q).map(|r| shift_b_up_plan(r / q, r % q, q)).collect();
        assert!(has_completing_pair(&fox));
    }
}
