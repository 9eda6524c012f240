//! Merging ascending postings.

use osmflat_ext::query::union;
use osmflat_ext::Ref;

fn union_oracle(lists: &[&[Ref]]) -> Vec<u64> {
    let mut out: Vec<u64> = lists.iter().flat_map(|l| l.iter().copied()).collect();
    out.sort_unstable();
    out.dedup();
    out
}

#[test]
fn union_of_nothing_is_empty() {
    assert_eq!(union(&[]).len(), 0);
    let empty: Vec<Ref> = vec![];
    assert_eq!(union(&[&empty, &empty]).len(), 0);
}

#[test]
fn union_single_list_passes_through() {
    let a: Vec<Ref> = vec![2, 5, 9];
    assert_eq!(union(&[&a]), vec![2, 5, 9]);
}

#[test]
fn union_merges_ascending_and_dedups() {
    let a: Vec<Ref> = vec![1, 3, 5];
    let b: Vec<Ref> = vec![2, 3, 6];
    let c: Vec<Ref> = vec![5, 7];
    let empty: Vec<Ref> = vec![];
    assert_eq!(union(&[&a, &b, &c, &empty]), vec![1, 2, 3, 5, 6, 7]);
}

#[test]
fn union_is_lazy_prefix() {
    let a: Vec<Ref> = vec![1, 4, 8];
    let b: Vec<Ref> = vec![2, 4, 9];
    assert_eq!(
        union(&[&a, &b]).into_iter().take(3).collect::<Vec<_>>(),
        vec![1, 2, 4]
    );
}

#[test]
fn union_matches_sort_dedup_oracle() {
    // Deterministic pseudo-random ascending lists with heavy overlap.
    let mut state = 0x9e3779b97f4a7c15u64;
    let mut next = move || {
        state ^= state << 13;
        state ^= state >> 7;
        state ^= state << 17;
        state
    };
    let lists: Vec<Vec<Ref>> = (0..7)
        .map(|_| {
            let len = (next() % 40) as usize;
            let mut vals: Vec<u64> = (0..len).map(|_| next() % 64).collect();
            vals.sort_unstable();
            vals.dedup();
            vals
        })
        .collect();
    let slices: Vec<&[Ref]> = lists.iter().map(Vec::as_slice).collect();
    assert_eq!(
        union(&slices),
        union_oracle(&slices),
        "union diverged from sort-dedup oracle"
    );
}
