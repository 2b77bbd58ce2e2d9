use sorting_network::gen::{gen_batcher, gen_bitonic, gen_bubble_max, gen_bubble_min, gen_oddeven, gen_pairwise};
use sorting_network::parse::parse_network;
use sorting_network::result::{JobProgress, JobResult};
use sorting_network::session::{verify_network, Phase, Verifier};

fn run(n: usize, cmp: Vec<(usize, usize)>) -> JobResult {
    verify_network(n, cmp).result()
}

fn run_text(text: &str) -> JobResult {
    let (n, _m, cmp) = parse_network(text).unwrap();
    run(n, cmp)
}

fn count_unused(r: &JobResult) -> usize {
    r.get_unused().iter().filter(|&&u| u).count()
}

#[test]
fn trivial_two_wires_sort() {
    let r = run_text("2 1\n1\n2\n");
    assert!(r.is_sorting_network());
    assert_eq!(count_unused(&r), 0);
    assert_eq!(r.progress, 2);
    assert_eq!(r.progress_all, 2);
}

#[test]
fn bubble_three_sorts() {
    let r = run_text("3 3\n1 2 1\n2 3 2\n");
    assert!(r.is_sorting_network());
    assert_eq!(count_unused(&r), 0);
}

#[test]
fn redundant_pair_network() {
    let r = run_text("4 6\n1 3 1 2 3 1\n2 4 3 4 4 2\n");
    // After (0,2) and (1,3) wire 0 holds the minimum and wire 3 the maximum,
    // so the trailing (2,3) and (0,1) never swap, and wires 1 and 2 stay unordered.
    assert_eq!(r.used, vec![true, true, true, true, false, false]);
    assert_eq!(count_unused(&r), 2);
    assert!(!r.is_sorting_network());
    assert_eq!(r.get_unsorted_adjacent(), vec![1]);
    assert_eq!(r.get_unsorted_allpairs(), vec![(1, 2)]);
}

#[test]
fn broken_network_reports_pairs() {
    let r = run_text("4 2\n1 3\n2 4\n");
    assert!(!r.is_sorting_network());
    assert_ne!(r.unsorted[0] & (1 << 2), 0);
    assert_eq!(r.get_unsorted_adjacent(), vec![1]);
    assert!(r.get_unsorted_allpairs().contains(&(0, 2)));
    assert!(!r.get_unsorted_allpairs().contains(&(0, 1)));
    assert_eq!(count_unused(&r), 0);
}

#[test]
fn odd_even_transposition_five() {
    let cmp = gen_oddeven(5);
    assert_eq!(
        cmp,
        vec![(0, 1), (2, 3), (1, 2), (3, 4), (0, 1), (2, 3), (1, 2), (3, 4), (0, 1), (2, 3)]
    );
    let r = run(5, cmp);
    assert!(r.is_sorting_network());
    assert_eq!(count_unused(&r), 0);
}

#[test]
fn cancel_after_first_progress() {
    let mut v = Verifier::new(16, gen_bitonic(16));
    assert!(matches!(v.step(false), Some(JobProgress::Progress(_))));
    assert!(matches!(v.step(true), Some(JobProgress::Cancel)));
    assert!(v.step(true).is_none());
    assert!(v.step(false).is_none());
    assert!(matches!(v.phase_now(), Phase::Cancelled));
}

#[test]
fn classic_generators_sort() {
    for n in 2..=8 {
        for cmp in [gen_bubble_max(n), gen_bubble_min(n), gen_oddeven(n), gen_bitonic(n), gen_batcher(n), gen_pairwise(n)] {
            assert!(cmp.iter().all(|&(a, b)| a < b && b < n));
            assert!(run(n, cmp).is_sorting_network(), "n = {}", n);
        }
    }
}

#[test]
fn sixteen_wire_bitonic_sorts() {
    let r = run(16, gen_bitonic(16));
    assert!(r.is_sorting_network());
    assert_eq!(r.progress, r.progress_all);
}

#[test]
fn missing_comparator_breaks_sorting() {
    let mut cmp = gen_oddeven(6);
    cmp.pop();
    let r = run(6, cmp);
    assert!(!r.is_sorting_network());
    assert!(!r.get_unsorted_adjacent().is_empty());
    for i in r.get_unsorted_adjacent() {
        assert!(r.get_unsorted_allpairs().contains(&(i, i + 1)));
    }
}

#[test]
fn empty_network_leaves_everything_unsorted() {
    let r = run_text("3 0\n\n\n");
    assert!(!r.is_sorting_network());
    assert_eq!(r.get_unsorted_allpairs(), vec![(0, 1), (0, 2), (1, 2)]);
    assert_eq!(r.get_unsorted_adjacent(), vec![0, 1]);
}

#[test]
fn messages_follow_the_plan() {
    let mut v = Verifier::new(4, vec![(0, 1), (2, 3), (0, 2), (1, 3), (1, 2)]);
    let mut kinds = Vec::new();
    while !matches!(v.phase_now(), Phase::Done) {
        if let Some(m) = v.step(false) {
            kinds.push(match m {
                JobProgress::Progress(_) => 'P',
                JobProgress::Log(_) => 'L',
                JobProgress::Done => 'D',
                JobProgress::Cancel => 'C',
            });
        }
    }
    assert!(v.step(false).is_none());
    assert_eq!(kinds.first(), Some(&'P'));
    assert_eq!(kinds.last(), Some(&'D'));
    assert_eq!(kinds[kinds.len() - 2], 'P');
    assert_eq!(kinds.iter().filter(|&&k| k == 'D').count(), 1);
    assert!(!kinds.contains(&'C'));
    assert!(matches!(v.phase_now(), Phase::Done));
    assert!(v.result().is_sorting_network());
}

#[test]
fn runs_are_deterministic() {
    let cmp = gen_batcher(7);
    let a = verify_network(7, cmp.clone());
    let b = verify_network(7, cmp);
    assert_eq!(a.result().used, b.result().used);
    assert_eq!(a.result().unsorted, b.result().unsorted);
    for root in 0..7 {
        assert_eq!(a.states_of(root), b.states_of(root));
    }
}

#[test]
fn used_only_grows() {
    let mut v = Verifier::new(6, gen_pairwise(6));
    let mut prev = v.result().used;
    while !matches!(v.phase_now(), Phase::Done) {
        v.step(false);
        let now = v.result().used;
        for (p, q) in prev.iter().zip(now.iter()) {
            assert!(!p || *q);
        }
        prev = now;
    }
}

#[test]
fn removing_an_unused_comparator_keeps_the_verdict() {
    let cmp = vec![(0, 1), (2, 3), (0, 2), (1, 3), (2, 3), (0, 1), (1, 2)];
    let r = run(4, cmp.clone());
    assert!(r.is_sorting_network());
    let unused = r.get_unused();
    assert!(unused.iter().any(|&u| u));
    let kept: Vec<(usize, usize)> = cmp.iter().zip(unused.iter()).filter(|(_, &u)| !u).map(|(&c, _)| c).collect();
    assert_eq!(run(4, kept).is_sorting_network(), r.is_sorting_network());
}

/// Runs the network on every 0/1 input: which comparators ever swap, and
/// which pairs of wires ever end up out of order.
fn brute_force(n: usize, cmp: &[(usize, usize)]) -> (Vec<bool>, [u64; 64]) {
    let mut used = vec![false; cmp.len()];
    let mut unsorted = [0u64; 64];
    for x in 0..(1u64 << n) {
        let mut v = x;
        for (k, &(a, b)) in cmp.iter().enumerate() {
            if (v >> a) & 1 == 1 && (v >> b) & 1 == 0 {
                v ^= (1 << a) | (1 << b);
                used[k] = true;
            }
        }
        for i in 0..n {
            for j in i + 1..n {
                if (v >> i) & 1 == 1 && (v >> j) & 1 == 0 {
                    unsorted[i] |= 1 << j;
                }
            }
        }
    }
    (used, unsorted)
}

fn pseudo_random_network(n: usize, m: usize, seed: u64) -> Vec<(usize, usize)> {
    let mut s = seed;
    let mut cmp = Vec::new();
    while cmp.len() < m {
        s = s.wrapping_mul(6364136223846793005).wrapping_add(1442695040888963407);
        let a = ((s >> 33) % n as u64) as usize;
        let b = ((s >> 17) % n as u64) as usize;
        if a < b {
            cmp.push((a, b));
        } else if b < a {
            cmp.push((b, a));
        }
    }
    cmp
}

#[test]
fn agrees_with_exhaustive_simulation() {
    let mut cases: Vec<(usize, Vec<(usize, usize)>)> = Vec::new();
    for n in 2..=7 {
        cases.push((n, gen_bitonic(n)));
        cases.push((n, gen_batcher(n)));
        cases.push((n, gen_pairwise(n)));
        let mut broken = gen_oddeven(n);
        broken.remove(broken.len() / 2);
        cases.push((n, broken));
        for seed in 0..6u64 {
            cases.push((n, pseudo_random_network(n, 3 * n, seed * 7 + n as u64)));
        }
    }
    for (n, cmp) in cases {
        let (used, unsorted) = brute_force(n, &cmp);
        let r = run(n, cmp.clone());
        assert_eq!(r.used, used, "used bits of {:?}", cmp);
        assert_eq!(r.unsorted, unsorted, "unsorted map of {:?}", cmp);
        assert_eq!(r.is_sorting_network(), unsorted.iter().all(|&u| u == 0));
    }
}

#[test]
fn cancel_between_scan_and_sort() {
    let mut v = Verifier::new(4, vec![(0, 1), (2, 3), (0, 2), (1, 3), (1, 2)]);
    // Run until a comparator job has scanned and waits for its sort.
    loop {
        let before = v.result().progress;
        let m = v.step(false);
        if m.is_none() {
            assert!(v.result().progress > before);
            break;
        }
    }
    assert!(matches!(v.step(true), Some(JobProgress::Cancel)));
    assert!(v.step(false).is_none());
    assert!(matches!(v.phase_now(), Phase::Cancelled));
}
