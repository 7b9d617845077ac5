use std::sync::Arc;

use chunklist::consts::CHUNK_SIZE;
use chunklist::ChunkList;
use chunklist::ChunkListInner;

fn concat(snap: &Vec<Arc<Vec<u64>>>) -> Vec<u64> {
    let mut out: Vec<u64> = Vec::new();
    for chunk in snap.iter() {
        for x in chunk.iter() {
            out.push(*x);
        }
    }
    out
}

#[test]
fn test_push() {
    let chunk_list = ChunkList::new();
    let size = CHUNK_SIZE + CHUNK_SIZE / 2;
    for i in 0..size {
        chunk_list.push(i);
    }
    assert_eq!(size, chunk_list.len());
}

#[test]
fn len_counts_pushes() {
    for n in 0..20u64 {
        let list: ChunkList<u64> = ChunkList::new();
        for i in 0..n {
            list.push(i);
        }
        assert_eq!(list.len() as u64, n);
    }
}

#[test]
fn snapshot_is_suffix() {
    let n: u64 = 11;
    let list: ChunkList<u64> = ChunkList::new();
    for i in 0..n {
        list.push(i * 10);
    }
    for start in 0..=(n as usize) {
        let snap = list.snapshot(start);
        let expected: Vec<u64> = (start as u64..n).map(|i| i * 10).collect();
        assert_eq!(concat(&snap), expected);
    }
}

#[test]
fn snapshot_unchanged_by_later_pushes() {
    let list: ChunkList<u64> = ChunkList::new();
    for i in 0..5u64 {
        list.push(i);
    }
    let early = list.snapshot(0);
    for i in 5..12u64 {
        list.push(i);
    }
    assert_eq!(concat(&early), vec![0, 1, 2, 3, 4]);
    let late = list.snapshot(0);
    assert_eq!(concat(&late), (0..12u64).collect::<Vec<u64>>());
}

#[test]
fn clear_resets_and_spares_old_snapshots() {
    let list: ChunkList<u64> = ChunkList::new();
    for i in 0..9u64 {
        list.push(i);
    }
    let before = list.snapshot(3);
    list.clear();
    assert_eq!(list.len(), 0);
    assert_eq!(concat(&list.snapshot(0)), Vec::<u64>::new());
    assert_eq!(concat(&before), vec![3, 4, 5, 6, 7, 8]);
    list.push(77);
    assert_eq!(list.len(), 1);
    assert_eq!(concat(&list.snapshot(0)), vec![77]);
    assert_eq!(concat(&before), vec![3, 4, 5, 6, 7, 8]);
}

#[test]
fn reads_are_idempotent() {
    let list: ChunkList<u64> = ChunkList::new();
    for i in 0..7u64 {
        list.push(i + 100);
    }
    assert_eq!(list.len(), list.len());
    for start in [0usize, 2, 5, 7] {
        let first = list.snapshot(start);
        let second = list.snapshot(start);
        assert_eq!(first, second);
    }
}

#[test]
fn capacity_four_scenario() {
    assert_eq!(CHUNK_SIZE, 4);
    let list: ChunkList<u64> = ChunkList::new();
    for x in [10u64, 20, 30, 40, 50, 60] {
        list.push(x);
    }
    assert_eq!(list.len(), 6);
    assert_eq!(concat(&list.snapshot(0)), vec![10, 20, 30, 40, 50, 60]);
    assert_eq!(concat(&list.snapshot(4)), vec![50, 60]);

    let snap2 = list.snapshot(2);
    assert_eq!(snap2.len(), 2);
    assert_eq!(*snap2[0], vec![30, 40]);
    assert_eq!(*snap2[1], vec![50, 60]);
}

#[test]
fn snapshot_at_or_past_the_end_is_empty() {
    let list: ChunkList<u64> = ChunkList::new();
    assert_eq!(concat(&list.snapshot(0)), Vec::<u64>::new());
    for i in 0..6u64 {
        list.push(i);
    }
    assert_eq!(concat(&list.snapshot(6)), Vec::<u64>::new());
    let past = list.snapshot(7);
    assert_eq!(past.len(), 0);
    let far_past = list.snapshot(1000);
    assert_eq!(far_past.len(), 0);
}

#[test]
fn full_chunks_are_shared_whole() {
    let list: ChunkList<u64> = ChunkList::new();
    for i in 0..9u64 {
        list.push(i);
    }
    let snap = list.snapshot(1);
    assert_eq!(snap.len(), 3);
    assert_eq!(*snap[0], vec![1, 2, 3]);
    assert_eq!(*snap[1], vec![4, 5, 6, 7]);
    assert_eq!(*snap[2], vec![8]);
    assert_eq!(concat(&snap), (1..9u64).collect::<Vec<u64>>());
}

#[test]
fn inner_append_all_concatenates() {
    let mut inner: ChunkListInner<u64> = ChunkListInner::new();
    inner.push(1);
    inner.append_all(&vec![2, 3, 4, 5, 6]);
    assert_eq!(inner.len(), 6);
    assert_eq!(concat(&inner.snapshot(0)), vec![1, 2, 3, 4, 5, 6]);
    assert_eq!(concat(&inner.snapshot(3)), vec![4, 5, 6]);
}

#[test]
fn append_vec_equals_repeated_pushes() {
    let batched: ChunkList<u64> = ChunkList::new();
    batched.push(1);
    batched.append_vec(vec![2, 3, 4, 5, 6, 7]);
    let single: ChunkList<u64> = ChunkList::new();
    for i in 1..8u64 {
        single.push(i);
    }
    assert_eq!(batched.len(), single.len());
    assert_eq!(concat(&batched.snapshot(0)), concat(&single.snapshot(0)));
    batched.append_vec(Vec::new());
    assert_eq!(batched.len(), 7);
}
