use parallel_labs::blocks::{assemble_blocks, split_into_blocks};
use parallel_labs::grid::{
    broadcast_a_plan, fox_root_col, shift_b_up_plan, shift_left_plan, shift_up_plan,
    validate_cannon_requirements, validate_fox_requirements, BroadcastPlan, ExchangePlan,
};

fn naive(a: &[i64], b: &[i64], n: usize) -> Vec<i64> {
    let mut c = vec![0i64; n * n];
    for i in 0..n {
        for j in 0..n {
            for k in 0..n {
                c[i * n + j] += a[i * n + k] * b[k * n + j];
            }
        }
    }
    c
}

fn add_product(c: &mut [i64], a: &[i64], b: &[i64], bs: usize) {
    let prod = naive(a, b, bs);
    for (x, p) in c.iter_mut().zip(prod.iter()) {
        *x += *p;
    }
}

/// Moves the blocks as the plans say; checks that every send has a matching receive.
fn apply(blocks: &[Vec<i64>], plans: &[ExchangePlan]) -> Vec<Vec<i64>> {
    let mut out = blocks.to_vec();
    for (rank, plan) in plans.iter().enumerate() {
        match *plan {
            ExchangePlan::KeepLocal => {}
            ExchangePlan::SendFirst { dest, src } | ExchangePlan::ReceiveFirst { dest, src } => {
                match plans[dest] {
                    ExchangePlan::SendFirst { src: s, .. } | ExchangePlan::ReceiveFirst { src: s, .. } => {
                        assert_eq!(s, rank)
                    }
                    ExchangePlan::KeepLocal => panic!("receiver keeps its block"),
                }
                out[rank] = blocks[src].clone();
            }
        }
    }
    out
}

fn test_matrix(n: usize, seed: i64) -> Vec<i64> {
    (0..(n * n) as i64).map(|x| (x * 7 + seed) % 11 - 5).collect()
}

fn cannon(a: &[i64], b: &[i64], n: usize, size: usize) -> Vec<i64> {
    let (n, q, bs) = validate_cannon_requirements(size, n, n, n, n).unwrap();
    let mut la = split_into_blocks(a, n, q);
    let mut lb = split_into_blocks(b, n, q);
    let plans_a: Vec<_> = (0..size).map(|r| shift_left_plan(r, r / q, r % q, q, r / q)).collect();
    let plans_b: Vec<_> = (0..size).map(|r| shift_up_plan(r, r / q, r % q, q, r % q)).collect();
    la = apply(&la, &plans_a);
    lb = apply(&lb, &plans_b);
    let mut lc = vec![vec![0i64; bs * bs]; size];
    for _ in 0..q {
        for r in 0..size {
            add_product(&mut lc[r], &la[r], &lb[r], bs);
        }
        let pa: Vec<_> = (0..size).map(|r| shift_left_plan(r, r / q, r % q, q, 1 % q)).collect();
        let pb: Vec<_> = (0..size).map(|r| shift_up_plan(r, r / q, r % q, q, 1 % q)).collect();
        la = apply(&la, &pa);
        lb = apply(&lb, &pb);
    }
    assemble_blocks(&lc, n, q)
}

fn fox(a: &[i64], b: &[i64], n: usize, size: usize) -> Vec<i64> {
    let q = validate_fox_requirements(size, n, n).unwrap();
    let bs = n / q;
    let la = split_into_blocks(a, n, q);
    let mut lb = split_into_blocks(b, n, q);
    let mut lc = vec![vec![0i64; bs * bs]; size];
    for step in 0..q {
        let mut temp_a = vec![Vec::new(); size];
        for r in 0..size {
            let root_col = fox_root_col(r / q, step, q);
            match broadcast_a_plan(r / q, r % q, root_col, q) {
                BroadcastPlan::Send { targets } => {
                    assert_eq!(targets.len(), q - 1);
                    temp_a[r] = la[r].clone();
                }
                BroadcastPlan::Receive { from } => temp_a[r] = la[from].clone(),
            }
        }
        for r in 0..size {
            add_product(&mut lc[r], &temp_a[r], &lb[r], bs);
        }
        let plans: Vec<_> = (0..size).map(|r| shift_b_up_plan(r / q, r % q, q)).collect();
        lb = apply(&lb, &plans);
    }
    assemble_blocks(&lc, n, q)
}

#[test]
fn cannon_schedule_computes_the_product() {
    for (n, size) in [(1usize, 1usize), (4, 1), (4, 4), (6, 4), (6, 9), (8, 16), (9, 9)] {
        let a = test_matrix(n, 1);
        let b = test_matrix(n, 4);
        assert_eq!(cannon(&a, &b, n, size), naive(&a, &b, n));
    }
}

#[test]
fn fox_schedule_computes_the_product() {
    for (n, size) in [(1usize, 1usize), (4, 1), (4, 4), (6, 4), (6, 9), (8, 16), (9, 9)] {
        let a = test_matrix(n, 2);
        let b = test_matrix(n, 3);
        assert_eq!(fox(&a, &b, n, size), naive(&a, &b, n));
    }
}
