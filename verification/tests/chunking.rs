use fejdit::chunked::{decide_chunk_size, partition};
use fejdit::hash::stable_hash;

#[test]
fn a_decided_coarse_cell_is_left_alone() {
    let mut fine = vec![0i32; 16];
    // Block (2, 2) of a 4 x 4 level: cells 10, 11, 14, 15.
    fine[10] = 3;
    fine[15] = 4;
    let mut coarse = vec![0i32, 0, 0, -5];
    decide_chunk_size(4, &mut fine, &mut coarse);
    assert_eq!(coarse[3], -5);
    assert_eq!(fine[10], 3);
    assert_eq!(fine[15], 4);
    let mut fine = vec![0i32; 16];
    fine[10] = 3;
    fine[15] = 4;
    let mut coarse = vec![0i32; 4];
    decide_chunk_size(4, &mut fine, &mut coarse);
    assert_eq!(coarse[3], 7);
    assert_eq!(fine[10], 0);
    assert_eq!(fine[15], 0);
    assert_eq!(coarse[0], -100_000_000);
}

#[test]
fn every_object_lands_in_a_chunk() {
    let sectors: Vec<u32> = vec![0, 512 * 300 + 300, 512 * 300 + 301, 512 * 511 + 511, 130_000];
    let portal = stable_hash("portal_wood");
    let prefabs: Vec<i32> = vec![1, 2, portal, 3, 4];
    let parts = partition(&sectors, &prefabs);
    for i in 0..sectors.len() {
        let n = parts.iter().filter(|(_, m)| m.contains(&i)).count();
        assert_eq!(n, 1, "object {i}");
    }
    assert!(parts.last().unwrap().1 == vec![2]);
}
