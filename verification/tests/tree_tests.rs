use cache_manager::tree::FsNode;
use cache_manager::tree::calculate_dir_size;
use cache_manager::tree::clean_directory;

fn file(size: u64) -> FsNode {
    FsNode::File { size, locked: false }
}

fn locked_file(size: u64) -> FsNode {
    FsNode::File { size, locked: true }
}

fn dir(entries: Vec<FsNode>) -> FsNode {
    FsNode::Dir { entries }
}

#[test]
fn measure_missing_is_zero() {
    assert_eq!(calculate_dir_size(&FsNode::Missing), 0);
}

#[test]
fn measure_empty_dir_is_zero() {
    assert_eq!(calculate_dir_size(&dir(vec![])), 0);
}

#[test]
fn measure_sums_nested_tree() {
    let t = dir(vec![
        file(100),
        dir(vec![file(200), file(300)]),
        FsNode::Missing,
        locked_file(7),
    ]);
    assert_eq!(calculate_dir_size(&t), 607);
}

#[test]
fn measure_is_additive_over_children() {
    let sub = || dir(vec![file(20), file(30)]);
    let parent = dir(vec![file(10), sub()]);
    let direct_files = 10;
    assert_eq!(
        calculate_dir_size(&parent),
        calculate_dir_size(&sub()) + direct_files
    );
}

#[test]
fn clean_removes_all_unlocked_files() {
    let t = dir(vec![file(10), file(20)]);
    let mut count: u64 = 0;
    let mut bytes: u64 = 0;
    let cleaned = clean_directory(&t, &mut count, &mut bytes);
    assert_eq!(count, 2);
    assert_eq!(bytes, 30);
    assert_eq!(cleaned, dir(vec![]));
}

#[test]
fn clean_preserves_empty_root() {
    let t = dir(vec![]);
    let mut count: u64 = 0;
    let mut bytes: u64 = 0;
    let cleaned = clean_directory(&t, &mut count, &mut bytes);
    assert_eq!(cleaned, dir(vec![]));
    assert_eq!(count, 0);
    assert_eq!(bytes, 0);
}

#[test]
fn clean_skips_locked_file_and_keeps_it() {
    let t = dir(vec![file(10), locked_file(7), file(20)]);
    let mut count: u64 = 0;
    let mut bytes: u64 = 0;
    let cleaned = clean_directory(&t, &mut count, &mut bytes);
    assert_eq!(count, 2);
    assert_eq!(bytes, 30);
    assert_eq!(cleaned, dir(vec![locked_file(7)]));
}

#[test]
fn clean_removes_directory_left_empty() {
    let t = dir(vec![dir(vec![file(5)])]);
    let mut count: u64 = 0;
    let mut bytes: u64 = 0;
    let cleaned = clean_directory(&t, &mut count, &mut bytes);
    assert_eq!(count, 1);
    assert_eq!(bytes, 5);
    assert_eq!(cleaned, dir(vec![]));
}

#[test]
fn clean_keeps_directory_with_locked_file() {
    let t = dir(vec![dir(vec![locked_file(5), file(3)])]);
    let mut count: u64 = 0;
    let mut bytes: u64 = 0;
    let cleaned = clean_directory(&t, &mut count, &mut bytes);
    assert_eq!(count, 1);
    assert_eq!(bytes, 3);
    assert_eq!(cleaned, dir(vec![dir(vec![locked_file(5)])]));
}

#[test]
fn clean_leaves_missing_entries_in_place() {
    let t = dir(vec![FsNode::Missing, file(10)]);
    let mut count: u64 = 0;
    let mut bytes: u64 = 0;
    let cleaned = clean_directory(&t, &mut count, &mut bytes);
    assert_eq!(count, 1);
    assert_eq!(bytes, 10);
    assert_eq!(cleaned, dir(vec![FsNode::Missing]));
}

#[test]
fn clean_accumulates_into_shared_counters() {
    let a = dir(vec![file(10)]);
    let b = dir(vec![file(20), file(30)]);
    let mut count: u64 = 0;
    let mut bytes: u64 = 0;
    clean_directory(&a, &mut count, &mut bytes);
    clean_directory(&b, &mut count, &mut bytes);
    assert_eq!(count, 3);
    assert_eq!(bytes, 60);
}

#[test]
fn clean_second_pass_finds_nothing() {
    let t = dir(vec![file(10), locked_file(7), dir(vec![file(3)])]);
    let mut count: u64 = 0;
    let mut bytes: u64 = 0;
    let once = clean_directory(&t, &mut count, &mut bytes);
    let mut count2: u64 = 0;
    let mut bytes2: u64 = 0;
    let twice = clean_directory(&once, &mut count2, &mut bytes2);
    assert_eq!(count2, 0);
    assert_eq!(bytes2, 0);
    assert_eq!(twice, once);
}

#[test]
fn clean_on_non_directory_root_changes_nothing() {
    let mut count: u64 = 0;
    let mut bytes: u64 = 0;
    let cleaned = clean_directory(&file(42), &mut count, &mut bytes);
    assert_eq!(cleaned, file(42));
    let missing = clean_directory(&FsNode::Missing, &mut count, &mut bytes);
    assert_eq!(missing, FsNode::Missing);
    assert_eq!(count, 0);
    assert_eq!(bytes, 0);
}
