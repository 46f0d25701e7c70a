//! First-fit allocation and slot accounting.

use aitch::bitmap::{get_nslots_total, get_nslots_free, get_nslots_used, init_bitmap, set_slots, clear_slots};
use aitch::slots::find_allocation;

#[test]
fn allocation_picks_lowest_free_indices() {
    // dimension 0: slots 0 and 2 busy; dimension 1: all free
    let mut avail = init_bitmap(&vec![4, 2]);
    avail[0][0] = true;
    avail[0][2] = true;
    let alloc = find_allocation(&avail, &vec![2, 1]).expect("fits");
    assert_eq!(alloc, vec![vec![1, 3], vec![0]]);
}

#[test]
fn allocation_of_zero_slots_is_empty() {
    let avail = init_bitmap(&vec![1]);
    let alloc = find_allocation(&avail, &vec![0]).expect("fits");
    assert_eq!(alloc, vec![Vec::<usize>::new()]);
}

#[test]
fn allocation_fails_when_any_dimension_is_short() {
    let mut avail = init_bitmap(&vec![2, 2]);
    avail[1][0] = true;
    // dimension 0 has room, dimension 1 does not
    assert!(find_allocation(&avail, &vec![1, 2]).is_none());
}

#[test]
fn allocation_fails_on_dimension_mismatch() {
    let avail = init_bitmap(&vec![2, 2]);
    assert!(find_allocation(&avail, &vec![1]).is_none());
}

#[test]
fn commit_and_release_bits() {
    let mut avail = init_bitmap(&vec![3]);
    let alloc = vec![vec![0, 2]];
    set_slots(&mut avail, &alloc, true);
    assert_eq!(avail[0], vec![true, false, true]);
    assert_eq!(get_nslots_free(&avail), vec![1]);
    assert_eq!(get_nslots_used(&avail), vec![2]);
    set_slots(&mut avail, &alloc, false);
    assert_eq!(avail[0], vec![false, false, false]);
    assert_eq!(get_nslots_free(&avail), vec![3]);
}

#[test]
fn slot_totals_follow_row_lengths() {
    let avail = init_bitmap(&vec![3, 2, 5]);
    assert_eq!(get_nslots_total(&avail), vec![3, 2, 5]);
    assert_eq!(get_nslots_free(&avail), vec![3, 2, 5]);
    assert_eq!(get_nslots_used(&avail), vec![0, 0, 0]);
}

#[test]
fn release_ignores_out_of_range_entries() {
    let mut avail = init_bitmap(&vec![2]);
    avail[0][1] = true;
    // a damaged record may name slots the bitmap never had
    clear_slots(&mut avail, &vec![vec![1, 7], vec![0]]);
    assert_eq!(avail[0], vec![false, false]);
}
