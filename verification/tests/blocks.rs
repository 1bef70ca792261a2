use constat::blocks::{compress, compress_abstract_file, Addition, LineBlock};
use constat::merge::merge_file_patch;
use constat::overlay::{apply_author_diff_to_file, checked_total};
use constat::patch::{FilePatch, LinePatch};
use constat::replay::replay_ops;

fn block(author_id: u32, size: u32) -> LineBlock {
    LineBlock { author_id, size }
}

fn add(line: u32, author: u32) -> Addition {
    Addition { author, line }
}

fn patch_of(ops: Vec<LinePatch>) -> FilePatch {
    FilePatch { old_path: Some("f".to_string()), new_path: Some("f".to_string()), patch: ops }
}

#[test]
fn compress_merges_neighbours_of_one_author() {
    let blocks = vec![block(1, 2), block(1, 3), block(2, 1), block(1, 4), block(1, 0)];
    assert_eq!(compress(&blocks), vec![block(1, 5), block(2, 1), block(1, 4)]);
}

#[test]
fn compress_leaves_normalized_blocks_alone() {
    let blocks = vec![block(1, 2), block(2, 3), block(1, 1)];
    assert_eq!(compress(&blocks), blocks);
    assert_eq!(compress(&[]), vec![]);
}

#[test]
fn compress_in_place() {
    let mut blocks = vec![block(7, 1), block(7, 1), block(7, 1)];
    compress_abstract_file(&mut blocks);
    assert_eq!(blocks, vec![block(7, 3)]);
}

#[test]
fn total_of_blocks_is_checked() {
    assert_eq!(checked_total(&[block(0, 3), block(1, 4)]), Some(7));
    assert_eq!(checked_total(&[]), Some(0));
    assert_eq!(checked_total(&[block(0, u32::MAX), block(1, 1)]), None);
    assert_eq!(checked_total(&[block(0, u32::MAX - 1), block(1, 1)]), Some(u32::MAX));
}

#[test]
fn addition_splits_block_into_three() {
    let r = apply_author_diff_to_file(&[block(1, 5)], &[add(2, 9)]);
    assert_eq!(r, Some(vec![block(1, 2), block(9, 1), block(1, 2)]));
}

#[test]
fn addition_at_block_edges() {
    assert_eq!(
        apply_author_diff_to_file(&[block(1, 3)], &[add(0, 9)]),
        Some(vec![block(9, 1), block(1, 2)])
    );
    assert_eq!(
        apply_author_diff_to_file(&[block(1, 3)], &[add(2, 9)]),
        Some(vec![block(1, 2), block(9, 1)])
    );
}

#[test]
fn additions_of_block_author_change_nothing() {
    let blocks = vec![block(1, 3), block(2, 2)];
    let r = apply_author_diff_to_file(&blocks, &[add(1, 1), add(3, 2), add(4, 2)]);
    assert_eq!(r, Some(blocks));
}

#[test]
fn addition_beyond_last_block_is_dropped() {
    assert_eq!(apply_author_diff_to_file(&[block(1, 3)], &[add(3, 9)]), Some(vec![block(1, 3)]));
    assert_eq!(apply_author_diff_to_file(&[], &[add(0, 9)]), Some(vec![]));
}

#[test]
fn overlay_drops_empty_blocks() {
    assert_eq!(
        apply_author_diff_to_file(&[block(1, 2), block(2, 0), block(1, 1)], &[]),
        Some(vec![block(1, 3)])
    );
}

#[test]
fn overlay_keeps_line_count_for_ascending_additions() {
    let blocks = vec![block(1, 4), block(2, 6)];
    let r = apply_author_diff_to_file(&blocks, &[add(0, 5), add(3, 5), add(4, 5), add(9, 5)]).unwrap();
    assert_eq!(checked_total(&r), Some(10));
    assert_eq!(r, vec![block(5, 1), block(1, 2), block(5, 2), block(2, 4), block(5, 1)]);
}

#[test]
fn replay_without_edits_keeps_blocks() {
    let blocks = vec![block(1, 3), block(2, 2)];
    assert_eq!(replay_ops(&blocks, &[], 9), Some(blocks));
}

#[test]
fn replay_insert_inside_block_grows_it() {
    assert_eq!(replay_ops(&[block(1, 3)], &[LinePatch::Insert(1)], 9), Some(vec![block(1, 4)]));
}

#[test]
fn replay_delete_inside_block_shrinks_it() {
    assert_eq!(
        replay_ops(&[block(1, 3), block(2, 3)], &[LinePatch::Delete(4)], 9),
        Some(vec![block(1, 3), block(2, 2)])
    );
}

#[test]
fn replay_edit_at_first_line_of_block_keeps_size() {
    assert_eq!(replay_ops(&[block(1, 3)], &[LinePatch::Insert(0)], 9), Some(vec![block(1, 3)]));
    assert_eq!(replay_ops(&[block(1, 3)], &[LinePatch::Delete(0)], 9), Some(vec![block(1, 3)]));
}

#[test]
fn replay_appends_leftover_inserts_to_last_block() {
    let ops = vec![LinePatch::Insert(3), LinePatch::Insert(4)];
    assert_eq!(replay_ops(&[block(1, 3)], &ops, 9), Some(vec![block(1, 5)]));
}

#[test]
fn replay_from_scratch_gives_block_of_merger() {
    let ops = vec![LinePatch::Insert(0), LinePatch::Insert(1), LinePatch::Insert(2)];
    assert_eq!(replay_ops(&[], &ops, 9), Some(vec![block(9, 3)]));
    assert_eq!(replay_ops(&[], &[], 9), Some(vec![]));
    assert_eq!(replay_ops(&[], &[LinePatch::Delete(0)], 9), Some(vec![]));
}

#[test]
fn replay_fails_when_block_size_drops_below_zero() {
    let ops = vec![LinePatch::Delete(2), LinePatch::Delete(2), LinePatch::Delete(2)];
    assert_eq!(replay_ops(&[block(1, 1), block(2, 2)], &ops, 9), None);
    assert_eq!(
        replay_ops(&[block(1, 1), block(2, 2)], &ops[..2], 9),
        Some(vec![block(1, 1), block(2, 0)])
    );
}

#[test]
fn replay_fails_when_file_outgrows_line_numbers() {
    assert_eq!(replay_ops(&[block(1, u32::MAX)], &[LinePatch::Insert(1)], 9), None);
    let ops = vec![LinePatch::Insert(u32::MAX), LinePatch::Insert(u32::MAX)];
    assert_eq!(replay_ops(&[block(1, u32::MAX - 1)], &ops, 9), None);
    assert_eq!(
        replay_ops(&[block(1, u32::MAX - 1)], &[LinePatch::Insert(u32::MAX)], 9),
        Some(vec![block(1, u32::MAX)])
    );
}

#[test]
fn single_parent_additions_go_to_merger() {
    let fp = patch_of(vec![LinePatch::Delete(0), LinePatch::Insert(1), LinePatch::Insert(4)]);
    let tree = vec![block(1, 5)];
    let adds = merge_file_patch(&[1], &[Some(&fp)], &[Some(&tree[..])], 9);
    assert_eq!(adds, vec![add(1, 9), add(4, 9)]);
}

#[test]
fn line_missing_in_one_parent_takes_author_of_other_parents_block() {
    let ours = patch_of(vec![]);
    let theirs = patch_of(vec![LinePatch::Insert(1)]);
    let first = vec![block(4, 2), block(5, 2)];
    let second = vec![block(6, 3)];
    let adds = merge_file_patch(
        &[4, 6],
        &[Some(&ours), Some(&theirs)],
        &[Some(&first[..]), Some(&second[..])],
        9,
    );
    assert_eq!(adds, vec![add(1, 4)]);
}

#[test]
fn line_inserted_against_all_parents_goes_to_merger() {
    let ours = patch_of(vec![LinePatch::Insert(2)]);
    let theirs = patch_of(vec![LinePatch::Insert(2)]);
    let first = vec![block(4, 4)];
    let second = vec![block(6, 4)];
    let adds = merge_file_patch(
        &[4, 6],
        &[Some(&ours), Some(&theirs)],
        &[Some(&first[..]), Some(&second[..])],
        9,
    );
    assert_eq!(adds, vec![add(2, 9)]);
}

#[test]
fn parent_without_blocks_falls_back_to_its_author() {
    let ours = patch_of(vec![LinePatch::Insert(0)]);
    let adds = merge_file_patch(&[4, 6], &[Some(&ours), None], &[None, None], 9);
    assert_eq!(adds, vec![add(0, 6)]);
}

#[test]
fn three_parents_with_two_missing_sum_their_ordinals() {
    let hit = patch_of(vec![LinePatch::Insert(0)]);
    let adds = merge_file_patch(&[4, 5, 6], &[None, None, Some(&hit)], &[None, None, None], 9);
    assert_eq!(adds, vec![add(0, 6)]);
    let adds = merge_file_patch(&[4, 5, 6], &[Some(&hit), None, None], &[None, None, None], 9);
    assert_eq!(adds, vec![add(0, 9)]);
}

#[test]
fn no_edits_give_no_additions() {
    let none = patch_of(vec![]);
    assert_eq!(merge_file_patch(&[4], &[Some(&none)], &[None], 9), vec![]);
    assert_eq!(merge_file_patch(&[], &[], &[], 9), vec![]);
}
