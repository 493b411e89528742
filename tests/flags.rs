use std::collections::HashMap;

use miratope_core::abs::{Abstract, Element};
use miratope_core::builder::AbstractBuilder;
use miratope_core::factorial;
use miratope_core::flag_iter::FlagIter;
use miratope_core::oriented::OrientedFlagIter;
use miratope_core::rank::Rank;

fn element(mut subs: Vec<usize>) -> Element {
    subs.sort();
    Element { subs, sups: Vec::new() }
}

fn build_nullitope() -> Abstract {
    let mut b = AbstractBuilder::new();
    b.push_single();
    b.build()
}

fn build_point() -> Abstract {
    let mut b = AbstractBuilder::new();
    b.push_single();
    b.push_vertices(1);
    b.build()
}

fn build_dyad() -> Abstract {
    let mut b = AbstractBuilder::new();
    b.push_single();
    b.push_vertices(2);
    b.push_max();
    b.build()
}

fn build_polygon(n: usize) -> Abstract {
    let mut b = AbstractBuilder::new();
    b.push_single();
    b.push_vertices(n);
    b.push((0..n).map(|i| element(vec![i, (i + 1) % n])).collect());
    b.push_max();
    b.build()
}

/// The simplex of rank `rank`: its elements are the subsets of `rank + 1`
/// points.
fn build_simplex(rank: isize) -> Abstract {
    let mut b = AbstractBuilder::new();
    b.push_single();
    if rank < 0 {
        return b.build();
    }
    let points = (rank + 1) as usize;
    let mut index: HashMap<usize, usize> = HashMap::new();
    index.insert(0, 0);
    for size in 1..=points {
        let masks: Vec<usize> = (0..(1usize << points))
            .filter(|m| m.count_ones() as usize == size)
            .collect();
        let mut list = Vec::new();
        for m in &masks {
            let subs = (0..points)
                .filter(|p| m & (1 << p) != 0)
                .map(|p| index[&(m & !(1 << p))])
                .collect();
            list.push(element(subs));
        }
        index.clear();
        for (i, m) in masks.iter().enumerate() {
            index.insert(*m, i);
        }
        b.push(list);
    }
    b.build()
}

/// The hypercube of rank `rank`: its elements are the faces of the unit
/// cube, written as vectors over {0, 1, *} (here 0, 1, 2).
fn build_hypercube(rank: isize) -> Abstract {
    let mut b = AbstractBuilder::new();
    b.push_single();
    if rank < 0 {
        return b.build();
    }
    let n = rank as usize;
    let mut all: Vec<Vec<u8>> = vec![vec![]];
    for _ in 0..n {
        let mut next = Vec::new();
        for v in &all {
            for d in 0..3u8 {
                let mut w = v.clone();
                w.push(d);
                next.push(w);
            }
        }
        all = next;
    }
    let mut index: HashMap<Vec<u8>, usize> = HashMap::new();
    for stars in 0..=n {
        let faces: Vec<Vec<u8>> = all
            .iter()
            .filter(|v| v.iter().filter(|&&d| d == 2).count() == stars)
            .cloned()
            .collect();
        let mut list = Vec::new();
        for f in &faces {
            if stars == 0 {
                list.push(element(vec![0]));
                continue;
            }
            let mut subs = Vec::new();
            for p in 0..n {
                if f[p] == 2 {
                    for d in 0..2u8 {
                        let mut g = f.clone();
                        g[p] = d;
                        subs.push(index[&g]);
                    }
                }
            }
            list.push(element(subs));
        }
        index.clear();
        for (i, f) in faces.iter().enumerate() {
            index.insert(f.clone(), i);
        }
        b.push(list);
    }
    b.build()
}

fn build_orthoplex(rank: isize) -> Abstract {
    build_hypercube(rank).dual()
}

/// Checks that a structure has the expected number of flags, counted both
/// by the full enumeration and by the oriented traversal.
fn check_flag_count(polytope: &Abstract, expected: usize) {
    let mut flags = FlagIter::new(polytope);
    let mut flag_count = 0;
    while flags.next().is_some() {
        flag_count += 1;
    }
    assert_eq!(expected, flag_count, "Expected {} flags, found {}.", expected, flag_count);

    let mut events = OrientedFlagIter::new(polytope);
    let mut flag_count = 0;
    while events.filter_flags().is_some() {
        flag_count += 1;
    }
    assert_eq!(expected, flag_count, "Expected {} oriented flags, found {}.", expected, flag_count);
}

#[test]
fn nullitope() {
    check_flag_count(&build_nullitope(), 0)
}

#[test]
fn point() {
    check_flag_count(&build_point(), 1)
}

#[test]
fn dyad() {
    check_flag_count(&build_dyad(), 2)
}

#[test]
fn polygon() {
    for n in 2..=10 {
        check_flag_count(&build_polygon(n), 2 * n);
    }
}

#[test]
fn simplex() {
    for n in 0..=7 {
        check_flag_count(&build_simplex(Rank::from_usize(n).into_isize()), factorial(n + 1) as usize);
    }
}

#[test]
fn hypercube() {
    for n in 0..=7 {
        check_flag_count(
            &build_hypercube(Rank::new(n as isize).into_isize()),
            (1 << n) * factorial(n) as usize,
        );
    }
}

#[test]
fn orthoplex() {
    for n in 0..=7 {
        check_flag_count(
            &build_orthoplex(Rank::new(n as isize).into_isize()),
            (1 << n) * factorial(n) as usize,
        );
    }
}
