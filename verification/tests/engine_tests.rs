use cache_manager::engine::CacheEngine;
use cache_manager::engine::CleanOutcome;
use cache_manager::tree::FsNode;

fn file(size: u64) -> FsNode {
    FsNode::File { size, locked: false }
}

fn locked_file(size: u64) -> FsNode {
    FsNode::File { size, locked: true }
}

fn dir(entries: Vec<FsNode>) -> FsNode {
    FsNode::Dir { entries }
}

#[test]
fn engine_measure_sums_all_roots() {
    let engine = CacheEngine::new(vec![
        dir(vec![file(100), dir(vec![file(200)])]),
        FsNode::Missing,
        dir(vec![file(50)]),
    ]);
    assert_eq!(engine.measure(), 350);
}

#[test]
fn engine_measure_of_missing_roots_is_zero() {
    let engine = CacheEngine::new(vec![FsNode::Missing, FsNode::Missing]);
    assert_eq!(engine.measure(), 0);
}

#[test]
fn engine_clean_reports_tally_and_remeasures() {
    let mut engine = CacheEngine::new(vec![
        dir(vec![file(100), locked_file(7)]),
        dir(vec![file(50)]),
    ]);
    let (outcome, size_after) = engine.clean(1000);
    assert_eq!(
        outcome,
        CleanOutcome { files_deleted: 2, bytes_reclaimed: 150 }
    );
    assert_eq!(size_after, 7);
    assert_eq!(engine.measure(), 7);
}

#[test]
fn engine_second_clean_reports_zero() {
    let mut engine = CacheEngine::new(vec![dir(vec![
        file(10),
        locked_file(5),
        dir(vec![file(20)]),
    ])]);
    let (first, _) = engine.clean(1000);
    assert_eq!(
        first,
        CleanOutcome { files_deleted: 2, bytes_reclaimed: 30 }
    );
    let (second, size_after) = engine.clean(2000);
    assert_eq!(
        second,
        CleanOutcome { files_deleted: 0, bytes_reclaimed: 0 }
    );
    assert_eq!(size_after, 5);
}

#[test]
fn engine_age_is_none_before_any_clean() {
    let engine = CacheEngine::new(vec![dir(vec![])]);
    assert_eq!(engine.last_clean_age(12345), None);
}

#[test]
fn engine_age_counts_from_last_clean() {
    let mut engine = CacheEngine::new(vec![dir(vec![])]);
    engine.clean(1000);
    assert_eq!(engine.last_clean_age(4000), Some(3000));
    assert_eq!(engine.last_clean_age(1000), Some(0));
    assert_eq!(engine.last_clean_age(500), Some(0));
}

#[test]
fn engine_set_roots_keeps_clean_timestamp() {
    let mut engine = CacheEngine::new(vec![dir(vec![file(10)])]);
    engine.clean(1000);
    engine.set_roots(vec![dir(vec![file(30)])]);
    assert_eq!(engine.measure(), 30);
    assert_eq!(engine.last_clean_age(2000), Some(1000));
}
