use randbench::block::{make_block, merge_max};
use randbench::frandom::LocalRng;
use randbench::pipeline::{forwards, pipeline_round, pipeline_stage, replay_pipeline};

#[test]
fn make_block_draws_in_order() {
    let mut rng = LocalRng::from_seed(1);
    let block = make_block(4, &mut rng);
    assert_eq!(
        block,
        vec![1, 2862933558814942250, 11788423209769308335, 16127330271062048800]
    );
    assert_eq!(rng.random(), 694254729704690381);
}

#[test]
fn make_block_empty() {
    let mut rng = LocalRng::from_seed(5);
    assert!(make_block(0, &mut rng).is_empty());
    assert_eq!(rng.random(), 5);
}

#[test]
fn sequential_three_blocks_of_four() {
    let mut rng = LocalRng::from_seed(1);
    let blocks: Vec<Vec<u64>> = (0..3).map(|_| make_block(4, &mut rng)).collect();
    assert_eq!(blocks.len(), 3);
    assert_eq!(
        blocks[1],
        vec![694254729704690381, 4741500575511230406, 2049513885454315995, 16209138964615448732]
    );
    assert_eq!(
        blocks[2],
        vec![9466328373143696729, 8139866262760856610, 17200963373445161159, 9871218244896040920]
    );
}

#[test]
fn merge_max_takes_larger() {
    let mut a = vec![1, 9, 5, 0];
    let b = vec![4, 2, 5, u64::MAX];
    merge_max(&mut a, &b);
    assert_eq!(a, vec![4, 9, 5, u64::MAX]);
}

#[test]
fn merge_max_with_itself_is_unchanged() {
    let mut a = vec![3, 1, 4, 1, 5];
    let b = a.clone();
    merge_max(&mut a, &b);
    assert_eq!(a, b);
}

#[test]
fn merge_max_empty() {
    let mut a: Vec<u64> = Vec::new();
    merge_max(&mut a, &Vec::new());
    assert!(a.is_empty());
}

#[test]
fn pipeline_round_merges_fresh_block() {
    let mut rng = LocalRng::from_seed(1);
    let mut running = make_block(4, &mut rng);
    pipeline_round(&mut running, &mut rng);
    assert_eq!(
        running,
        vec![694254729704690381, 4741500575511230406, 11788423209769308335, 16209138964615448732]
    );
}

#[test]
fn first_stage_draws_two_blocks() {
    let mut rng = LocalRng::from_seed(1);
    let block = pipeline_stage(None, 4, &mut rng);
    assert_eq!(
        block,
        vec![694254729704690381, 4741500575511230406, 11788423209769308335, 16209138964615448732]
    );
    assert_eq!(rng.random(), 9466328373143696729);
}

#[test]
fn later_stage_merges_one_block() {
    let mut rng = LocalRng::from_seed(1);
    let block = pipeline_stage(Some(vec![0, u64::MAX, 7, 1]), 4, &mut rng);
    assert_eq!(block, vec![1, u64::MAX, 11788423209769308335, 16127330271062048800]);
}

#[test]
fn only_last_stage_keeps_its_block() {
    assert!(forwards(0, 2));
    assert!(!forwards(1, 2));
    assert!(!forwards(0, 1));
    assert!(forwards(3, 5));
    assert!(!forwards(4, 5));
}

#[test]
fn two_stage_pipeline_is_max_of_three_blocks() {
    let mut rng = LocalRng::from_seed(1);
    let last = replay_pipeline(4, 2, &mut rng).unwrap();
    assert_eq!(
        last,
        vec![9466328373143696729, 8139866262760856610, 17200963373445161159, 16209138964615448732]
    );
    assert_eq!(rng.random(), 7028475149874287525);
}

#[test]
fn replay_matches_independent_draws() {
    let n = 5;
    let b = 6;
    let mut rng = LocalRng::from_seed(99);
    let last = replay_pipeline(b, n, &mut rng).unwrap();
    let mut check = LocalRng::from_seed(99);
    let blocks: Vec<Vec<u64>> = (0..=n).map(|_| make_block(b, &mut check)).collect();
    for k in 0..b {
        let m = blocks.iter().map(|bl| bl[k]).max().unwrap();
        assert_eq!(last[k], m);
    }
}

#[test]
fn empty_pipeline_does_nothing() {
    let mut rng = LocalRng::from_seed(3);
    assert!(replay_pipeline(4, 0, &mut rng).is_none());
    assert_eq!(rng.random(), 3);
}

#[test]
fn one_stage_pipeline() {
    let mut rng = LocalRng::from_seed(1);
    let last = replay_pipeline(4, 1, &mut rng).unwrap();
    assert_eq!(
        last,
        vec![694254729704690381, 4741500575511230406, 11788423209769308335, 16209138964615448732]
    );
}
