use std::cmp::Ordering;
use std::collections::HashSet;

use rustfst_minimize::acyclic::AcyclicMinimizer;
use rustfst_minimize::comparator::StateComparator;
use rustfst_minimize::comparator::StateIlabelHasher;
use rustfst_minimize::connect::connect;
use rustfst_minimize::cyclic::cyclic_minimize;
use rustfst_minimize::cyclic::pre_partition;
use rustfst_minimize::cyclic::reverse_sorted;
use rustfst_minimize::cyclic::TrsIterCollected;
use rustfst_minimize::depth::fst_depth;
use rustfst_minimize::depth::DepthError;
use rustfst_minimize::fst::FstState;
use rustfst_minimize::fst::Tr;
use rustfst_minimize::fst::VectorFst;
use rustfst_minimize::fst::WEIGHT_ONE;
use rustfst_minimize::fst::WEIGHT_ZERO;
use rustfst_minimize::merge::merge_states;
use rustfst_minimize::minimize::acceptor_minimize;
use rustfst_minimize::minimize::minimize;
use rustfst_minimize::minimize::minimize_default;
use rustfst_minimize::minimize::MinimizeError;
use rustfst_minimize::partition::Partition;
use rustfst_minimize::properties::check_acceptor;
use rustfst_minimize::properties::check_acyclic;
use rustfst_minimize::properties::check_i_deterministic;
use rustfst_minimize::properties::check_unweighted;
use rustfst_minimize::queue::LifoQueue;
use rustfst_minimize::tr_ops::tr_sort_ilabel;
use rustfst_minimize::tr_ops::tr_unique;

fn tr(label: usize, next: usize) -> Tr {
    Tr { ilabel: label, olabel: label, weight: WEIGHT_ONE, nextstate: next }
}

fn state(is_final: bool, trs: Vec<Tr>) -> FstState {
    FstState { final_weight: if is_final { Some(WEIGHT_ONE) } else { None }, trs }
}

fn fst_of(states: Vec<FstState>) -> VectorFst {
    VectorFst { states, start: Some(0) }
}

/// Runs a deterministic acceptor on a word.
fn accepts(fst: &VectorFst, word: &[usize]) -> bool {
    let mut s = match fst.start {
        Some(s) => s,
        None => return false,
    };
    for &l in word {
        match fst.states[s].trs.iter().find(|t| t.ilabel == l) {
            Some(t) => s = t.nextstate,
            None => return false,
        }
    }
    fst.states[s].final_weight.is_some()
}

/// Two branches `a c` and `b c` whose tails are equivalent.
fn two_branches() -> VectorFst {
    fst_of(vec![
        state(false, vec![tr(1, 1), tr(2, 2)]),
        state(false, vec![tr(3, 3)]),
        state(false, vec![tr(3, 4)]),
        state(true, vec![]),
        state(true, vec![]),
    ])
}

/// Words over {1, 2} that end with 1, with a redundant copy of the start state.
fn ends_with_one() -> VectorFst {
    fst_of(vec![
        state(false, vec![tr(1, 1), tr(2, 2)]),
        state(true, vec![tr(1, 1), tr(2, 2)]),
        state(false, vec![tr(1, 1), tr(2, 0)]),
    ])
}

#[test]
fn test_minimize_acyclic_merges_tails() {
    let mut f = two_branches();
    assert_eq!(minimize_default(&mut f), Ok(()));
    assert_eq!(f.states.len(), 3);
    assert_eq!(f.start, Some(0));
    assert_eq!(f.states[0].trs, vec![tr(1, 1), tr(2, 1)]);
    assert_eq!(f.states[1].trs, vec![tr(3, 2)]);
    assert_eq!(f.states[2].trs, vec![]);
    assert_eq!(f.states[2].final_weight, Some(WEIGHT_ONE));
    assert!(accepts(&f, &[1, 3]));
    assert!(accepts(&f, &[2, 3]));
    assert!(!accepts(&f, &[1]));
}

#[test]
fn test_minimize_cyclic_loop() {
    let mut f = fst_of(vec![state(true, vec![tr(1, 1)]), state(true, vec![tr(1, 0)])]);
    assert_eq!(minimize(&mut f, false), Ok(()));
    assert_eq!(f.states.len(), 1);
    assert_eq!(f.states[0].trs, vec![tr(1, 0)]);
    assert_eq!(f.states[0].final_weight, Some(WEIGHT_ONE));
}

#[test]
fn test_minimize_keeps_language() {
    let input = ends_with_one();
    let mut f = ends_with_one();
    assert_eq!(minimize(&mut f, false), Ok(()));
    assert_eq!(f.states.len(), 2);
    let words: Vec<Vec<usize>> = vec![
        vec![],
        vec![1],
        vec![2],
        vec![2, 1],
        vec![1, 2],
        vec![2, 2, 2, 1],
        vec![1, 1, 2, 2],
        vec![2, 1, 2, 1],
    ];
    for w in words.iter() {
        assert_eq!(accepts(&f, w), accepts(&input, w));
    }
}

#[test]
fn test_minimize_twice_changes_nothing() {
    let mut f = ends_with_one();
    assert_eq!(minimize(&mut f, false), Ok(()));
    let once = f.states.len();
    let trs_once: Vec<Vec<Tr>> = f.states.iter().map(|s| s.trs.clone()).collect();
    assert_eq!(minimize(&mut f, false), Ok(()));
    assert_eq!(f.states.len(), once);
    let trs_twice: Vec<Vec<Tr>> = f.states.iter().map(|s| s.trs.clone()).collect();
    assert_eq!(trs_once, trs_twice);
}

#[test]
fn test_minimize_refuses_nondeterministic() {
    let mut f = fst_of(vec![
        state(false, vec![tr(1, 1), tr(1, 2)]),
        state(true, vec![]),
        state(true, vec![]),
    ]);
    assert_eq!(minimize(&mut f, false), Err(MinimizeError::NonDeterministic));
    assert_eq!(minimize_default(&mut f), Err(MinimizeError::NonDeterministic));
    assert_eq!(f.states.len(), 3);
}

#[test]
fn test_minimize_nondeterministic_allowed() {
    let mut f = fst_of(vec![
        state(false, vec![tr(1, 1), tr(1, 2)]),
        state(true, vec![]),
        state(true, vec![]),
    ]);
    assert_eq!(minimize(&mut f, true), Ok(()));
    assert_eq!(f.states.len(), 2);
    assert_eq!(f.states[0].trs, vec![tr(1, 1)]);
    assert!(accepts(&f, &[1]));
}

#[test]
fn test_minimize_weighted_unsupported() {
    let mut f = fst_of(vec![
        state(false, vec![Tr { ilabel: 1, olabel: 1, weight: 5, nextstate: 1 }]),
        state(true, vec![]),
    ]);
    assert_eq!(minimize(&mut f, false), Err(MinimizeError::Unsupported));
    assert_eq!(f.states[0].trs[0].weight, 5);
}

#[test]
fn test_minimize_transducer_unsupported() {
    let mut f = fst_of(vec![
        state(false, vec![Tr { ilabel: 1, olabel: 2, weight: WEIGHT_ONE, nextstate: 1 }]),
        state(true, vec![]),
    ]);
    assert_eq!(minimize_default(&mut f), Err(MinimizeError::Unsupported));
}

#[test]
fn test_acceptor_minimize_refuses_transducer() {
    let mut f = fst_of(vec![
        state(false, vec![Tr { ilabel: 1, olabel: 2, weight: WEIGHT_ONE, nextstate: 1 }]),
        state(true, vec![]),
    ]);
    assert_eq!(acceptor_minimize(&mut f, true), Err(MinimizeError::NotUnweightedAcceptor));
    assert_eq!(f.states.len(), 2);
}

#[test]
fn test_acceptor_minimize_cyclic_path_on_acyclic_input() {
    let mut f = two_branches();
    assert_eq!(acceptor_minimize(&mut f, false), Ok(()));
    assert_eq!(f.states.len(), 3);
    assert!(accepts(&f, &[1, 3]));
    assert!(accepts(&f, &[2, 3]));
}

#[test]
fn test_acceptor_minimize_empty_language() {
    let mut f = fst_of(vec![state(false, vec![tr(1, 1)]), state(false, vec![])]);
    assert_eq!(acceptor_minimize(&mut f, true), Ok(()));
    assert_eq!(f.states.len(), 0);
    assert_eq!(f.start, None);
}

#[test]
fn test_fst_depth_heights() {
    let f = fst_of(vec![
        state(false, vec![tr(1, 1), tr(2, 2)]),
        state(false, vec![tr(1, 2)]),
        state(true, vec![]),
    ]);
    let mut acc = HashSet::new();
    let mut full = HashSet::new();
    let mut heights: Vec<i32> = Vec::new();
    assert_eq!(fst_depth(&f, 0, &mut acc, &mut full, &mut heights), Ok(()));
    assert_eq!(heights, vec![2, 1, 0]);
    assert_eq!(full.len(), 3);
    assert_eq!(acc.len(), 3);
}

#[test]
fn test_fst_depth_from_inner_state() {
    let f = fst_of(vec![
        state(false, vec![tr(1, 1)]),
        state(false, vec![tr(1, 2)]),
        state(true, vec![]),
    ]);
    let mut acc = HashSet::new();
    let mut full = HashSet::new();
    let mut heights: Vec<i32> = Vec::new();
    assert_eq!(fst_depth(&f, 1, &mut acc, &mut full, &mut heights), Ok(()));
    assert_eq!(heights, vec![-1, 1, 0]);
    assert!(!full.contains(&0));
}

#[test]
fn test_acyclic_minimizer_partition() {
    let mut f = two_branches();
    let m = AcyclicMinimizer::new(&mut f);
    let p = m.get_partition();
    assert_eq!(p.num_classes(), 3);
    assert_eq!(p.get_class_id(3), p.get_class_id(4));
    assert_eq!(p.get_class_id(1), p.get_class_id(2));
    assert_ne!(p.get_class_id(0), p.get_class_id(1));
    assert_ne!(p.get_class_id(1), p.get_class_id(3));
    assert_eq!(f.states.len(), 5);
}

#[test]
fn test_acyclic_minimizer_keeps_distinct_tails() {
    let mut f = fst_of(vec![
        state(false, vec![tr(1, 1), tr(2, 2)]),
        state(false, vec![tr(3, 3)]),
        state(false, vec![tr(4, 3)]),
        state(true, vec![]),
    ]);
    let p = AcyclicMinimizer::new(&mut f).get_partition();
    assert_eq!(p.num_classes(), 4);
    assert_ne!(p.get_class_id(1), p.get_class_id(2));
}

#[test]
fn test_state_comparator_orders() {
    let f = fst_of(vec![
        state(true, vec![]),
        state(false, vec![tr(1, 0)]),
        state(false, vec![tr(2, 0)]),
        state(false, vec![tr(1, 0)]),
    ]);
    let p = Partition::from_class_ids(&vec![0, 0, 0, 0], 1);
    let c = StateComparator { fst: &f, partition: p };
    assert_eq!(c.compare(1, 1), Some(Ordering::Equal));
    assert_eq!(c.compare(1, 3), Some(Ordering::Equal));
    assert_eq!(c.compare(1, 2), Some(Ordering::Less));
    assert_eq!(c.compare(2, 1), Some(Ordering::Greater));
    assert_eq!(c.compare(0, 1), Some(Ordering::Less));
    assert_eq!(c.compare(1, 0), Some(Ordering::Greater));
}

#[test]
fn test_state_comparator_uses_classes() {
    let f = fst_of(vec![
        state(true, vec![]),
        state(true, vec![]),
        state(false, vec![tr(1, 0)]),
        state(false, vec![tr(1, 1)]),
    ]);
    let same = StateComparator { fst: &f, partition: Partition::from_class_ids(&vec![0, 0, 1, 1], 2) };
    assert_eq!(same.compare(2, 3), Some(Ordering::Equal));
    let apart = StateComparator { fst: &f, partition: Partition::from_class_ids(&vec![0, 1, 2, 2], 3) };
    assert_eq!(apart.compare(2, 3), Some(Ordering::Less));
    assert_eq!(apart.compare(3, 2), Some(Ordering::Greater));
}

#[test]
fn test_state_ilabel_hasher_value() {
    let f = fst_of(vec![state(false, vec![tr(3, 0), tr(3, 0), tr(5, 0)]), state(false, vec![])]);
    let h = StateIlabelHasher::new(&f);
    let p1: usize = 7603;
    let p2: usize = 433024223;
    let r1 = p1.wrapping_mul(p2).wrapping_add(3);
    let r2 = p1.wrapping_mul(r1).wrapping_add(5);
    assert_eq!(h.get_hash(0), r2);
    assert_eq!(h.get_hash(1), p2);
}

#[test]
fn test_state_ilabel_hasher_ignores_destinations() {
    let f = fst_of(vec![
        state(false, vec![tr(1, 0), tr(2, 1)]),
        state(true, vec![tr(1, 1), tr(2, 0)]),
        state(false, vec![tr(2, 1), tr(1, 1)]),
    ]);
    let h = StateIlabelHasher::new(&f);
    assert_eq!(h.get_hash(0), h.get_hash(1));
    assert_ne!(h.get_hash(0), h.get_hash(2));
}

#[test]
fn test_partition_split_and_finalize() {
    let mut p = Partition::from_class_ids(&vec![0, 1, 0, 1], 2);
    assert_eq!(p.num_elements(), 4);
    assert_eq!(p.num_classes(), 2);
    assert_eq!(p.get_class_size(0), 2);
    assert_eq!(p.iter(0), vec![0, 2]);
    let mut q = LifoQueue::new();
    p.split_on(2);
    p.finalize_split(&mut q);
    assert_eq!(p.num_classes(), 3);
    assert_eq!(p.get_class_id(2), 2);
    assert_eq!(p.get_class_id(0), 0);
    assert_eq!(p.get_class_id(1), 1);
    assert_eq!(q.head(), Some(2));
}

#[test]
fn test_partition_finalize_moves_smaller_side() {
    let mut p = Partition::from_class_ids(&vec![0, 0, 0], 1);
    let mut q = LifoQueue::new();
    p.split_on(0);
    p.split_on(1);
    p.finalize_split(&mut q);
    assert_eq!(p.num_classes(), 2);
    assert_eq!(p.get_class_id(0), 0);
    assert_eq!(p.get_class_id(1), 0);
    assert_eq!(p.get_class_id(2), 1);
    assert_eq!(q.head(), Some(1));
}

#[test]
fn test_partition_finalize_without_split() {
    let mut p = Partition::from_class_ids(&vec![0, 0], 1);
    let mut q = LifoQueue::new();
    p.split_on(0);
    p.split_on(1);
    p.finalize_split(&mut q);
    assert_eq!(p.num_classes(), 1);
    assert!(q.is_empty());
}

#[test]
fn test_partition_add_and_move() {
    let mut p = Partition::from_class_ids(&vec![0, 0, 0], 1);
    let c = p.add_class();
    assert_eq!(c, 1);
    assert_eq!(p.get_class_size(1), 0);
    p.move_element(2, 1);
    assert_eq!(p.get_class_id(2), 1);
    assert_eq!(p.get_class_size(0), 2);
    assert_eq!(p.iter(1), vec![2]);
}

#[test]
fn test_lifo_queue_order() {
    let mut q = LifoQueue::new();
    assert!(q.is_empty());
    assert_eq!(q.head(), None);
    q.enqueue(4);
    q.enqueue(7);
    assert_eq!(q.head(), Some(7));
    q.dequeue();
    assert_eq!(q.head(), Some(4));
    q.dequeue();
    assert!(q.is_empty());
    q.dequeue();
    assert!(q.is_empty());
}

#[test]
fn test_connect_removes_useless_states() {
    let mut f = fst_of(vec![
        state(false, vec![tr(1, 1), tr(2, 2)]),
        state(true, vec![]),
        state(false, vec![]),
        state(true, vec![tr(1, 1)]),
    ]);
    connect(&mut f);
    assert_eq!(f.states.len(), 2);
    assert_eq!(f.start, Some(0));
    assert_eq!(f.states[0].trs, vec![tr(1, 1)]);
    assert_eq!(f.states[1].final_weight, Some(WEIGHT_ONE));
}

#[test]
fn test_connect_without_start() {
    let mut f = VectorFst { states: vec![state(true, vec![])], start: None };
    connect(&mut f);
    assert_eq!(f.states.len(), 0);
    assert_eq!(f.start, None);
}

#[test]
fn test_tr_sort_is_stable() {
    let mut f = fst_of(vec![state(
        true,
        vec![tr(2, 0), Tr { ilabel: 1, olabel: 9, weight: WEIGHT_ONE, nextstate: 0 }, tr(1, 0), tr(0, 0)],
    )]);
    tr_sort_ilabel(&mut f);
    assert_eq!(
        f.states[0].trs,
        vec![tr(0, 0), Tr { ilabel: 1, olabel: 9, weight: WEIGHT_ONE, nextstate: 0 }, tr(1, 0), tr(2, 0)]
    );
}

#[test]
fn test_tr_unique_removes_repeats() {
    let mut f = fst_of(vec![
        state(true, vec![tr(2, 1), tr(1, 1), tr(2, 1), tr(1, 0)]),
        state(true, vec![]),
    ]);
    tr_unique(&mut f);
    assert_eq!(f.states[0].trs, vec![tr(1, 0), tr(1, 1), tr(2, 1)]);
}

#[test]
fn test_properties() {
    let f = ends_with_one();
    assert!(check_acceptor(&f));
    assert!(check_unweighted(&f));
    assert!(check_i_deterministic(&f));
    assert!(!check_acyclic(&f));
    let g = two_branches();
    assert!(check_acyclic(&g));
    let h = fst_of(vec![state(false, vec![Tr { ilabel: 1, olabel: 1, weight: 3, nextstate: 1 }]), state(true, vec![])]);
    assert!(!check_unweighted(&h));
    let z = fst_of(vec![state(false, vec![Tr { ilabel: 1, olabel: 1, weight: WEIGHT_ZERO, nextstate: 0 }])]);
    assert!(check_unweighted(&z));
    assert!(!check_acyclic(&z));
}

#[test]
fn test_pre_partition_classes() {
    let f = fst_of(vec![
        state(false, vec![tr(1, 1)]),
        state(true, vec![tr(1, 1)]),
        state(false, vec![tr(1, 0)]),
        state(true, vec![]),
        state(false, vec![tr(2, 0)]),
    ]);
    let mut p = Partition::from_class_ids(&vec![], 0);
    let mut q = LifoQueue::new();
    pre_partition(&f, &mut p, &mut q);
    assert_eq!(p.num_classes(), 4);
    assert_eq!(p.get_class_id(0), 0);
    assert_eq!(p.get_class_id(1), 1);
    assert_eq!(p.get_class_id(2), 0);
    assert_eq!(p.get_class_id(3), 2);
    assert_eq!(p.get_class_id(4), 3);
    assert_eq!(q.head(), Some(3));
}

#[test]
fn test_cyclic_minimize_partition() {
    let f = ends_with_one();
    let p = cyclic_minimize(&f);
    assert_eq!(p.num_classes(), 2);
    assert_eq!(p.get_class_id(0), p.get_class_id(2));
    assert_ne!(p.get_class_id(0), p.get_class_id(1));
}

#[test]
fn test_reverse_sorted_lists() {
    let f = fst_of(vec![
        state(false, vec![tr(2, 1), tr(1, 1)]),
        state(true, vec![tr(1, 1)]),
    ]);
    let r = reverse_sorted(&f);
    assert_eq!(r[0], vec![]);
    assert_eq!(r[1], vec![tr(1, 0), tr(1, 1), tr(2, 0)]);
}

#[test]
fn test_trs_iter_collected() {
    let trs = vec![tr(1, 0), tr(2, 0)];
    let mut it = TrsIterCollected { idx: 0, trs: &trs };
    assert!(!it.done());
    assert_eq!(it.peek(), Some(&tr(1, 0)));
    it.next();
    assert_eq!(it.peek(), Some(&tr(2, 0)));
    it.next();
    assert!(it.done());
    assert_eq!(it.peek(), None);
}

#[test]
fn test_merge_states_quotient() {
    let mut f = two_branches();
    let p = Partition::from_class_ids(&vec![0, 1, 1, 2, 2], 3);
    merge_states(p, &mut f);
    assert_eq!(f.states.len(), 3);
    assert_eq!(f.states[0].trs, vec![tr(1, 1), tr(2, 1)]);
    assert_eq!(f.states[1].trs, vec![tr(3, 2), tr(3, 2)]);
}

/// A cycle through two equivalent states whose transitions are listed in
/// the given orders.
fn cycle_with_twins(second: Vec<Tr>) -> VectorFst {
    fst_of(vec![
        state(false, vec![tr(1, 1), tr(2, 2)]),
        state(false, vec![tr(3, 3), tr(4, 3)]),
        state(false, second),
        state(true, vec![tr(5, 0)]),
    ])
}

#[test]
fn test_minimize_cyclic_sorted_merges_equivalent_states() {
    let mut f = cycle_with_twins(vec![tr(3, 3), tr(4, 3)]);
    assert_eq!(minimize_default(&mut f), Ok(()));
    assert_eq!(f.states.len(), 3);
    for w in [vec![1, 3], vec![2, 4], vec![1, 4, 5, 2, 3], vec![1], vec![3]] {
        assert_eq!(accepts(&f, &w), accepts(&cycle_with_twins(vec![tr(3, 3), tr(4, 3)]), &w));
    }
}

#[test]
fn test_minimize_cyclic_unsorted_merges_equivalent_states() {
    let mut f = cycle_with_twins(vec![tr(4, 3), tr(3, 3)]);
    assert_eq!(minimize_default(&mut f), Ok(()));
    assert_eq!(f.states.len(), 3);
    let n_trs: usize = f.states.iter().map(|s| s.trs.len()).sum();
    assert_eq!(n_trs, 5);
    assert!(accepts(&f, &[2, 3, 5, 1, 4]));
}

#[test]
fn test_acceptor_minimize_flag_gives_same_size() {
    let acyclic_twins = || {
        fst_of(vec![
            state(false, vec![tr(1, 1), tr(2, 2)]),
            state(false, vec![tr(4, 3), tr(5, 3)]),
            state(false, vec![tr(5, 3), tr(4, 3)]),
            state(true, vec![]),
        ])
    };
    let mut g1 = acyclic_twins();
    let mut g2 = acyclic_twins();
    assert_eq!(acceptor_minimize(&mut g1, true), Ok(()));
    assert_eq!(acceptor_minimize(&mut g2, false), Ok(()));
    assert_eq!(g1.states.len(), 3);
    assert_eq!(g2.states.len(), 3);
}

/// Runs an acceptor, deterministic or not, on a word.
fn nfa_accepts(fst: &VectorFst, word: &[usize]) -> bool {
    let mut current: HashSet<usize> = HashSet::new();
    match fst.start {
        Some(s) => {
            current.insert(s);
        },
        None => return false,
    }
    for &l in word {
        let mut next = HashSet::new();
        for &s in current.iter() {
            for t in fst.states[s].trs.iter() {
                if t.ilabel == l {
                    next.insert(t.nextstate);
                }
            }
        }
        current = next;
    }
    current.iter().any(|&s| fst.states[s].final_weight.is_some())
}

#[test]
fn test_minimize_nondeterministic_keeps_unequal_states_apart() {
    // 0 -2-> 1, 0 -3-> 2; 1 -1-> 5, 1 -1-> 6; 2 -1-> 5; 5 -5-> 4 -6-> 3; 6 -5-> 3.
    // States 1 and 2 accept different words and stay apart.
    let input = || {
        fst_of(vec![
            state(false, vec![tr(2, 1), tr(3, 2)]),
            state(false, vec![tr(1, 5), tr(1, 6)]),
            state(false, vec![tr(1, 5)]),
            state(true, vec![]),
            state(false, vec![tr(6, 3)]),
            state(false, vec![tr(5, 4)]),
            state(false, vec![tr(5, 3)]),
        ])
    };
    let mut f = input();
    assert_eq!(minimize(&mut f, true), Ok(()));
    assert_eq!(f.states.len(), 7);
    for w in [vec![2, 1, 5], vec![3, 1, 5], vec![3, 1, 5, 6], vec![2, 1, 5, 6]] {
        assert_eq!(nfa_accepts(&f, &w), nfa_accepts(&input(), &w));
    }
    assert!(!nfa_accepts(&f, &[3, 1, 5]));
}

#[test]
fn test_minimize_nondeterministic_keeps_language() {
    // a = 1, b = 2, l = 3, x = 10, y = 11.
    let input = || {
        fst_of(vec![
            state(false, vec![tr(10, 3), tr(11, 4)]),
            state(false, vec![tr(2, 2)]),
            state(true, vec![]),
            state(false, vec![tr(3, 5), tr(3, 6)]),
            state(false, vec![tr(3, 5)]),
            state(false, vec![tr(1, 2)]),
            state(false, vec![tr(1, 1)]),
        ])
    };
    let mut f = input();
    assert_eq!(minimize(&mut f, true), Ok(()));
    assert!(!nfa_accepts(&f, &[11, 3, 1, 2]));
    for w in [vec![10, 3, 1], vec![10, 3, 1, 2], vec![11, 3, 1], vec![11, 3, 1, 2], vec![10, 3]] {
        assert_eq!(nfa_accepts(&f, &w), nfa_accepts(&input(), &w));
    }
}

#[test]
fn test_state_comparator_transitive() {
    let f = fst_of(vec![
        state(true, vec![]),
        state(false, vec![tr(1, 0)]),
        state(false, vec![tr(2, 0)]),
        state(false, vec![tr(3, 0)]),
    ]);
    let c = StateComparator { fst: &f, partition: Partition::from_class_ids(&vec![0, 1, 1, 1], 2) };
    assert_eq!(c.compare(1, 2), Some(Ordering::Less));
    assert_eq!(c.compare(2, 3), Some(Ordering::Less));
    assert_eq!(c.compare(1, 3), Some(Ordering::Less));
    assert_eq!(c.compare(3, 1), Some(Ordering::Greater));
}

#[test]
fn test_minimize_keeps_determinism() {
    let mut f = two_branches();
    assert_eq!(minimize_default(&mut f), Ok(()));
    assert!(check_i_deterministic(&f));
    let mut g = cycle_with_twins(vec![tr(3, 3), tr(4, 3)]);
    assert_eq!(minimize_default(&mut g), Ok(()));
    assert!(check_i_deterministic(&g));
}

#[test]
fn test_minimize_zero_weight_transition_can_break_determinism() {
    let zero_tr = Tr { ilabel: 3, olabel: 3, weight: WEIGHT_ZERO, nextstate: 3 };
    let mut f = fst_of(vec![
        state(false, vec![tr(1, 1), tr(2, 2)]),
        state(false, vec![zero_tr]),
        state(false, vec![tr(3, 3)]),
        state(true, vec![]),
    ]);
    assert_eq!(minimize_default(&mut f), Ok(()));
    assert_eq!(f.states.len(), 3);
    assert!(!check_i_deterministic(&f));
}

#[test]
fn test_minimize_twice_acyclic_changes_nothing() {
    let mut f = two_branches();
    assert_eq!(minimize_default(&mut f), Ok(()));
    let trs_once: Vec<Vec<Tr>> = f.states.iter().map(|s| s.trs.clone()).collect();
    let finals_once: Vec<Option<u64>> = f.states.iter().map(|s| s.final_weight).collect();
    let start_once = f.start;
    assert_eq!(minimize_default(&mut f), Ok(()));
    let trs_twice: Vec<Vec<Tr>> = f.states.iter().map(|s| s.trs.clone()).collect();
    let finals_twice: Vec<Option<u64>> = f.states.iter().map(|s| s.final_weight).collect();
    assert_eq!(trs_once, trs_twice);
    assert_eq!(finals_once, finals_twice);
    assert_eq!(start_once, f.start);
}

#[test]
fn test_minimize_twice_unsorted_cyclic_changes_nothing() {
    let mut f = cycle_with_twins(vec![tr(4, 3), tr(3, 3)]);
    assert_eq!(minimize_default(&mut f), Ok(()));
    assert_eq!(f.states.len(), 3);
    let trs_once: Vec<Vec<Tr>> = f.states.iter().map(|s| s.trs.clone()).collect();
    assert_eq!(minimize_default(&mut f), Ok(()));
    let trs_twice: Vec<Vec<Tr>> = f.states.iter().map(|s| s.trs.clone()).collect();
    assert_eq!(trs_once, trs_twice);
}

#[test]
fn test_state_comparator_missing_state() {
    let f = fst_of(vec![state(true, vec![]), state(false, vec![tr(1, 0)])]);
    let c = StateComparator { fst: &f, partition: Partition::from_class_ids(&vec![0, 1], 2) };
    assert_eq!(c.compare(0, 5), None);
    assert_eq!(c.compare(5, 1), None);
    assert_eq!(c.compare(5, 5), Some(Ordering::Equal));
}

#[test]
fn test_merge_states_with_empty_class() {
    let mut f = two_branches();
    let p = Partition::from_class_ids(&vec![0, 2, 2, 3, 3], 5);
    merge_states(p, &mut f);
    assert_eq!(f.states.len(), 3);
    assert_eq!(f.states[0].trs, vec![tr(1, 1), tr(2, 1)]);
    assert_eq!(f.states[1].trs, vec![tr(3, 2), tr(3, 2)]);
}

#[test]
fn test_fst_depth_missing_state() {
    let f = two_branches();
    let mut acc = HashSet::new();
    let mut full = HashSet::new();
    let mut heights: Vec<i32> = Vec::new();
    assert_eq!(fst_depth(&f, 9, &mut acc, &mut full, &mut heights), Err(DepthError::NoSuchState));
    assert_eq!(acc.len(), 1);
    assert!(acc.contains(&9));
    assert!(full.is_empty());
    assert_eq!(heights, vec![-1; 10]);
}

#[test]
fn test_fst_depth_cycle_elsewhere() {
    // 0 -> 1 -> 2, and a cycle 3 <-> 4 that 0 does not reach.
    let f = fst_of(vec![
        state(false, vec![tr(1, 1)]),
        state(false, vec![tr(1, 2)]),
        state(true, vec![]),
        state(false, vec![tr(1, 4)]),
        state(true, vec![tr(1, 3)]),
    ]);
    let mut acc = HashSet::new();
    let mut full = HashSet::new();
    let mut heights: Vec<i32> = Vec::new();
    assert_eq!(fst_depth(&f, 0, &mut acc, &mut full, &mut heights), Ok(()));
    assert_eq!(heights, vec![2, 1, 0]);
    assert_eq!(full.len(), 3);
}

#[test]
fn test_minimize_zero_final_keeps_empty_states_apart() {
    let zero_final = FstState { final_weight: Some(WEIGHT_ZERO), trs: vec![] };
    let mut f = fst_of(vec![
        state(false, vec![tr(1, 1), tr(2, 2)]),
        state(false, vec![tr(3, 3)]),
        state(false, vec![tr(4, 3)]),
        zero_final,
    ]);
    assert_eq!(minimize_default(&mut f), Ok(()));
    assert_eq!(f.states.len(), 4);
}

#[test]
fn test_state_ilabel_hasher_ignores_repeats() {
    let f = fst_of(vec![
        state(false, vec![tr(3, 0), tr(3, 0), tr(5, 0)]),
        state(false, vec![tr(3, 0), tr(5, 0)]),
    ]);
    let h = StateIlabelHasher::new(&f);
    assert_eq!(h.get_hash(0), h.get_hash(1));
}
