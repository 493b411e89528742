use std::collections::HashMap;

use miratope_core::abs::{common, Abstract, Element};
use miratope_core::builder::{AbstractBuilder, AbstractBuilderRev};
use miratope_core::flag::{Flag, Orientation, OrientedFlag};
use miratope_core::flag_iter::FlagIter;
use miratope_core::flag_set::FlagSet;
use miratope_core::oriented::{FlagChanges, FlagEvent, FlagNext, OrientedFlagIter};
use miratope_core::rank::Rank;

fn element(mut subs: Vec<usize>) -> Element {
    subs.sort();
    Element { subs, sups: Vec::new() }
}

fn square_polygon(n: usize) -> Abstract {
    let mut b = AbstractBuilder::new();
    b.push_single();
    b.push_vertices(n);
    b.push((0..n).map(|i| element(vec![i, (i + 1) % n])).collect());
    b.push_max();
    b.build()
}

/// The cube, with faces written as vectors over {0, 1, *}.
fn cube() -> Abstract {
    let n = 3;
    let mut all: Vec<Vec<u8>> = vec![vec![]];
    for _ in 0..n {
        let mut next = Vec::new();
        for v in &all {
            for d in 0..3u8 {
                let mut w = v.clone();
                w.push(d);
                next.push(w);
            }
        }
        all = next;
    }
    let mut b = AbstractBuilder::new();
    b.push_single();
    let mut index: HashMap<Vec<u8>, usize> = HashMap::new();
    for stars in 0..=n {
        let faces: Vec<Vec<u8>> =
            all.iter().filter(|v| v.iter().filter(|&&d| d == 2).count() == stars).cloned().collect();
        let mut list = Vec::new();
        for f in &faces {
            if stars == 0 {
                list.push(element(vec![0]));
                continue;
            }
            let mut subs = Vec::new();
            for p in 0..n {
                if f[p] == 2 {
                    for d in 0..2u8 {
                        let mut g = f.clone();
                        g[p] = d;
                        subs.push(index[&g]);
                    }
                }
            }
            list.push(element(subs));
        }
        index.clear();
        for (i, f) in faces.iter().enumerate() {
            index.insert(f.clone(), i);
        }
        b.push(list);
    }
    b.build()
}

/// The hemicube: the cube with opposite faces identified. It is not
/// orientable.
fn hemicube() -> Abstract {
    let mut b = AbstractBuilder::new();
    b.push_single();
    b.push_vertices(4);
    b.push(vec![
        element(vec![0, 1]),
        element(vec![0, 2]),
        element(vec![0, 3]),
        element(vec![1, 2]),
        element(vec![1, 3]),
        element(vec![2, 3]),
    ]);
    b.push(vec![element(vec![0, 1, 4, 5]), element(vec![0, 2, 3, 5]), element(vec![1, 2, 3, 4])]);
    b.push_max();
    b.build()
}

fn all_flags(p: &Abstract) -> Vec<Flag> {
    let mut it = FlagIter::new(p);
    let mut out = Vec::new();
    while let Some(f) = it.next() {
        out.push(f);
    }
    out
}

#[test]
fn built_structures_are_valid() {
    assert!(square_polygon(4).is_valid());
    assert!(cube().is_valid());
    assert!(hemicube().is_valid());
    assert!(cube().dual().is_valid());
}

#[test]
fn invalid_structures_are_rejected() {
    // An edge with three vertices breaks the diamond property.
    let mut b = AbstractBuilder::new();
    b.push_single();
    b.push_vertices(3);
    b.push(vec![element(vec![0, 1, 2])]);
    b.push_max();
    assert!(!b.build().is_valid());

    // Unsorted subelements.
    let mut b = AbstractBuilder::new();
    b.push_single();
    b.push_vertices(3);
    b.push(vec![
        Element { subs: vec![1, 0], sups: vec![] },
        Element { subs: vec![1, 2], sups: vec![] },
        Element { subs: vec![0, 2], sups: vec![] },
    ]);
    b.push_max();
    assert!(!b.build().is_valid());

    // No elements at all.
    assert!(!AbstractBuilder::new().build().is_valid());
}

#[test]
fn common_elements() {
    assert_eq!(common(&vec![1, 3, 5, 7], &vec![0, 3, 4, 7, 9]), vec![3, 7]);
    assert_eq!(common(&vec![1, 2], &vec![3, 4]), Vec::<usize>::new());
    assert_eq!(common(&vec![], &vec![3, 4]), Vec::<usize>::new());
}

#[test]
fn first_flag_and_entries() {
    let p = square_polygon(4);
    let f = p.first_flag().unwrap();
    assert_eq!(f, Flag(vec![0, 0]));
    assert_eq!(f.get_or_zero(Rank::new(-1)), 0);
    assert_eq!(f.get_or_zero(Rank::new(1)), 0);
    assert_eq!(Flag(vec![3, 2]).get_or_zero(Rank::new(0)), 3);
    assert_eq!(Flag(vec![3, 2]).get_or_zero(Rank::new(2)), 0);
    assert!(AbstractBuilder::new().build().first_flag().is_none());
}

#[test]
fn flag_change_on_square() {
    let p = square_polygon(4);
    // Vertex 0 of edge 0 (0-1) becomes vertex 1; edge 0 at vertex 0 becomes edge 3 (3-0).
    assert_eq!(Flag(vec![0, 0]).change(&p, 0), Flag(vec![1, 0]));
    assert_eq!(Flag(vec![0, 0]).change(&p, 1), Flag(vec![0, 3]));
    let mut f = Flag(vec![1, 0]);
    f.change_mut(&p, 0);
    assert_eq!(f, Flag(vec![0, 0]));
}

#[test]
fn flag_change_involution() {
    let p = cube();
    for f in all_flags(&p) {
        for r in 0..3 {
            let g = f.change(&p, r);
            assert_ne!(g, f);
            assert_eq!(g.change(&p, r), f);
        }
    }
}

#[test]
fn orientation_flips_once_per_change() {
    let p = cube();
    let f = OrientedFlag::from(p.first_flag().unwrap());
    assert_eq!(f.orientation, Orientation::Even);
    assert_eq!(Orientation::Even.flip(), Orientation::Odd);
    assert_eq!(Orientation::Odd.flip(), Orientation::Even);
    assert_eq!(Orientation::default(), Orientation::Even);
    for r in 0..3 {
        let g = f.change(&p, r);
        assert_eq!(g.orientation, Orientation::Odd);
        let h = g.change(&p, r);
        assert_eq!(h.orientation, Orientation::Even);
        assert_eq!(h.flag, f.flag);
    }
}

#[test]
fn enumeration_is_repeatable() {
    let p = cube();
    let first = all_flags(&p);
    let second = all_flags(&p);
    assert_eq!(first.len(), 48);
    assert_eq!(first, second);
    for i in 1..first.len() {
        assert_ne!(first[i - 1], first[i]);
    }
}

#[test]
fn orientable_polygons_report_no_conflict() {
    for n in 2..=8 {
        let p = square_polygon(n);
        let mut it = OrientedFlagIter::new(&p);
        let mut flags = 0;
        while let Some(event) = it.next() {
            assert!(!event.non_orientable());
            flags += 1;
        }
        assert_eq!(flags, 2 * n);
    }
    let p = cube();
    let mut it = OrientedFlagIter::new(&p);
    while let Some(event) = it.next() {
        assert!(!event.non_orientable());
    }
}

#[test]
fn hemicube_is_not_orientable() {
    let p = hemicube();
    let mut it = OrientedFlagIter::new(&p);
    let mut conflicts = 0;
    let mut flags = 0;
    while let Some(event) = it.next() {
        if event.non_orientable() {
            conflicts += 1;
        } else {
            assert!(event.flag().is_some());
            flags += 1;
        }
    }
    assert_eq!(conflicts, 1);
    assert_eq!(flags, 24);
    assert_eq!(all_flags(&p).len(), 24);
}

#[test]
fn seed_comes_first() {
    let p = cube();
    let seed = OrientedFlag { flag: Flag(vec![3, 5, 2]).change(&p, 0), orientation: Orientation::Odd };
    let expected = seed.flag.change(&p, 0).change(&p, 0);
    let mut it = OrientedFlagIter::with_flags(&p, FlagChanges(vec![0, 1]), seed);
    match it.next() {
        Some(FlagEvent::Flag(f)) => {
            assert_eq!(f.flag, expected);
            assert_eq!(f.orientation, Orientation::Odd);
        }
        _ => panic!("the seed flag must come first"),
    }
    let empty = AbstractBuilder::new();
    let mut b = empty;
    b.push_single();
    let nullitope = b.build();
    assert!(OrientedFlagIter::new(&nullitope).next().is_none());
    assert!(OrientedFlagIter::empty(&nullitope).next().is_none());
}

#[test]
fn flag_changes_and_subsets() {
    let all = FlagChanges::all(Rank::new(3));
    assert_eq!(all.0, vec![0, 1, 2]);
    let subsets: Vec<Vec<usize>> = all.subsets().into_iter().map(|s| s.0).collect();
    assert_eq!(subsets, vec![vec![1, 2], vec![0, 2], vec![0, 1]]);
    assert!(FlagChanges::all(Rank::new(0)).0.is_empty());
}

#[test]
fn flag_orbits() {
    let p = cube();
    let seed = p.first_flag().unwrap();
    let facet = seed.0[2];
    let set = FlagSet::with_flags(&p, FlagChanges(vec![0, 1]), Flag(seed.0.clone()));
    // The flags of one square face.
    assert_eq!(set.len(), 8);
    assert!(!set.is_empty());
    assert_eq!(set.flags[0], seed);
    for f in &set.flags {
        assert_eq!(f.0[2], facet);
    }
    for i in 0..set.flags.len() {
        for j in 0..i {
            assert_ne!(set.flags[i], set.flags[j]);
        }
    }
    let whole = FlagSet::new(&p);
    assert_eq!(whole.len(), 48);
}

#[test]
fn flag_orbit_decomposition() {
    let p = cube();
    let whole = FlagSet::new(&p);
    let subsets = whole.subsets(&p);
    let count = |changes: Vec<usize>| subsets.iter().filter(|s| s.flag_changes.0 == changes).count();
    // Without change 0: vertex figures; without 1: edges; without 2: faces.
    assert_eq!(count(vec![1, 2]), 8);
    assert_eq!(count(vec![0, 2]), 12);
    assert_eq!(count(vec![0, 1]), 6);
    assert_eq!(subsets.len(), 26);
    for s in &subsets {
        let size = s.len();
        match s.flag_changes.0.as_slice() {
            [1, 2] => assert_eq!(size, 6),
            [0, 2] => assert_eq!(size, 4),
            [0, 1] => assert_eq!(size, 8),
            _ => panic!("unexpected flag changes"),
        }
    }
}

#[test]
fn top_down_builder() {
    // A triangle, from the maximal element down.
    let mut b = AbstractBuilderRev::new();
    b.push_max();
    b.push(vec![
        Element { subs: vec![], sups: vec![0] },
        Element { subs: vec![], sups: vec![0] },
        Element { subs: vec![], sups: vec![0] },
    ]);
    b.push(vec![
        Element { subs: vec![], sups: vec![0, 2] },
        Element { subs: vec![], sups: vec![0, 1] },
        Element { subs: vec![], sups: vec![1, 2] },
    ]);
    b.push(vec![Element { subs: vec![], sups: vec![0, 1, 2] }]);
    let p = b.build();
    assert!(p.is_valid());
    assert_eq!(p.ranks.len(), 4);
    assert_eq!(p.ranks[1][0].sups, vec![0, 2]);
    assert_eq!(p.ranks[2][0].subs, vec![0, 1]);
    assert_eq!(all_flags(&p).len(), 6);
}

#[test]
fn orientability() {
    assert!(square_polygon(5).orientable());
    assert!(cube().orientable());
    assert!(cube().dual().orientable());
    assert!(!hemicube().orientable());
    let mut b = AbstractBuilder::new();
    b.push_single();
    assert!(b.build().orientable());
}

#[test]
fn orbit_comparison() {
    let p = cube();
    let seed = p.first_flag().unwrap();
    let face = FlagSet::with_flags(&p, FlagChanges(vec![0, 1]), Flag(seed.0.clone()));
    // The same face, reached from another of its flags.
    let other_seed = seed.change(&p, 0).change(&p, 1);
    let same_face = FlagSet::with_flags(&p, FlagChanges(vec![0, 1]), other_seed);
    assert!(face.same_orbit(&same_face));
    assert!(same_face.same_orbit(&face));
    // Another face.
    let across = seed.change(&p, 2);
    let other_face = FlagSet::with_flags(&p, FlagChanges(vec![0, 1]), across);
    assert!(!face.same_orbit(&other_face));
    // Other flag changes.
    let edge = FlagSet::with_flags(&p, FlagChanges(vec![0, 2]), Flag(seed.0.clone()));
    assert!(!face.same_orbit(&edge));
    assert_eq!(edge.len(), 4);
}

#[test]
fn stepping_a_fresh_traversal() {
    let p = square_polygon(4);
    let seed = OrientedFlag { flag: p.first_flag().unwrap(), orientation: Orientation::Odd };
    let mut it = OrientedFlagIter::with_flags(&p, FlagChanges::all(Rank::new(2)), seed);
    // The first step changes the seed at rank 0: vertex 0 of edge 0 becomes vertex 1.
    match it.try_next() {
        FlagNext::New(FlagEvent::Flag(f)) => {
            assert_eq!(f.flag, Flag(vec![1, 0]));
            assert_eq!(f.orientation, Orientation::Even);
        }
        _ => panic!("the first step finds a new flag"),
    }
    let mut new_flags = 1;
    let mut steps = 1;
    loop {
        match it.try_next() {
            FlagNext::New(FlagEvent::Flag(f)) => {
                assert_ne!(f.flag, Flag(vec![0, 0]));
                new_flags += 1;
            }
            FlagNext::New(FlagEvent::NonOrientable) => panic!("a polygon is orientable"),
            FlagNext::Repeat => {}
            FlagNext::Done => break,
        }
        steps += 1;
    }
    // The orbit has 8 flags; each has both changes applied once, and the
    // seed itself is left to `next`.
    assert_eq!(new_flags, 7);
    assert_eq!(steps, 16);
    assert!(matches!(it.try_next(), FlagNext::Done));
    match it.next() {
        Some(FlagEvent::Flag(f)) => {
            assert_eq!(f.flag, Flag(vec![0, 0]));
            assert_eq!(f.orientation, Orientation::Odd);
        }
        _ => panic!("next hands out the seed first"),
    }
    assert!(it.next().is_none());
}

#[test]
fn one_change_traversal() {
    // With a single flag change the orbit has two flags: two steps, then done.
    let p = square_polygon(4);
    let mut it = OrientedFlagIter::with_flags(&p, FlagChanges(vec![1]), OrientedFlag::from(p.first_flag().unwrap()));
    assert!(matches!(it.try_next(), FlagNext::New(FlagEvent::Flag(_))));
    assert!(matches!(it.try_next(), FlagNext::Repeat));
    assert!(matches!(it.try_next(), FlagNext::Done));
}

#[test]
fn checked_constructors() {
    let good = cube();
    assert!(FlagIter::try_new(&good).is_some());
    assert!(OrientedFlagIter::try_new(&good).is_some());
    let mut b = AbstractBuilder::new();
    b.push_single();
    b.push_vertices(3);
    b.push(vec![element(vec![0, 1, 2])]);
    b.push_max();
    let bad = b.build();
    assert!(FlagIter::try_new(&bad).is_none());
    assert!(OrientedFlagIter::try_new(&bad).is_none());
}

#[test]
fn nullitope_flag_set() {
    let mut b = AbstractBuilder::new();
    b.push_single();
    let nullitope = b.build();
    let set = FlagSet::new(&nullitope);
    assert!(set.is_empty());
    assert!(set.subsets(&nullitope).is_empty());
}

#[test]
fn sub_orbits_are_disjoint() {
    let p = cube();
    let subsets = FlagSet::new(&p).subsets(&p);
    for a in 0..subsets.len() {
        for b in 0..a {
            if subsets[a].flag_changes.0 == subsets[b].flag_changes.0 {
                for f in &subsets[a].flags {
                    assert!(!subsets[b].flags.contains(f));
                }
            }
        }
    }
    // Grouped by the left-out change, in order.
    let firsts: Vec<Vec<usize>> = subsets.iter().map(|s| s.flag_changes.0.clone()).collect();
    let mut sorted = firsts.clone();
    sorted.sort_by_key(|c| if c == &vec![1, 2] { 0 } else if c == &vec![0, 2] { 1 } else { 2 });
    assert_eq!(firsts, sorted);
}
