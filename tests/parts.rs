use sorting_network::dsu::DsuBySize;
use sorting_network::exec::{apply_cmp_job, check_unsorted, combine_states, dedup_sorted};
use sorting_network::gen::triangular_indices;
use sorting_network::ids::{GreetArgs, SortingNetworkVerifyId};
use sorting_network::layout::{gen_svg_pos, SvgPos};
use sorting_network::parse::parse_network;
use sorting_network::plan::{verify_strategy, CeEntry, VerifyJob};
use sorting_network::result::JobResult;

#[test]
fn dsu_unites_smaller_under_larger() {
    let mut d = DsuBySize::new(5);
    assert_eq!(d.len(), 5);
    assert!(!d.equiv(0, 1));
    assert!(d.unite(0, 1));
    assert!(d.equiv(0, 1));
    assert_eq!(d.size(1), 2);
    assert!(d.unite(2, 0));
    assert_eq!(d.root(2), d.root(0));
    assert_eq!(d.root(2), 0);
    assert_eq!(d.root_size(1), (0, 3));
    assert!(!d.unite(1, 2));
    assert_eq!(d.size(4), 1);
    assert_eq!(d.root(4), 4);
}

#[test]
fn plan_applies_each_comparator_once() {
    let cmp = vec![(0, 1), (2, 3), (0, 2), (1, 3), (1, 2)];
    let plan = verify_strategy(4, &cmp);
    let mut seen = vec![0; cmp.len()];
    let mut combines = 0;
    for job in &plan {
        match job {
            VerifyJob::Cmp { cmp_part, .. } => {
                for e in cmp_part {
                    assert_eq!(cmp[e.cei], (e.a, e.b));
                    seen[e.cei] += 1;
                }
            }
            VerifyJob::Combine { root_master, root_slave } => {
                assert_ne!(root_master, root_slave);
                combines += 1;
            }
        }
    }
    assert_eq!(seen, vec![1; cmp.len()]);
    assert_eq!(combines, 3);
    assert!(matches!(plan[0], VerifyJob::Combine { .. }));
}

#[test]
fn plan_keeps_comparators_on_a_wire_in_order() {
    let cmp = vec![(0, 1), (0, 1), (1, 2)];
    let plan = verify_strategy(3, &cmp);
    let order: Vec<usize> = plan
        .iter()
        .flat_map(|j| match j {
            VerifyJob::Cmp { cmp_part, .. } => cmp_part.iter().map(|e| e.cei).collect::<Vec<_>>(),
            VerifyJob::Combine { .. } => vec![],
        })
        .collect();
    assert_eq!(order, vec![0, 1, 2]);
}

#[test]
fn cmp_job_branches_and_sorts() {
    // Wires 0 and 1 both free: the comparator branches into "both 0" and
    // "wire 1 is 1", in ascending order.
    let mut used = vec![false];
    let out = apply_cmp_job(&vec![(3, 3)], &vec![CeEntry { cei: 0, a: 0, b: 1 }], &mut used);
    assert_eq!(out, vec![(1, 3), (3, 0)]);
    assert_eq!(used, vec![true]);
}

#[test]
fn cmp_job_forced_swap_and_no_op() {
    let mut used = vec![false, false];
    // Wire 0 holds 1, wire 1 holds 0: a certain swap.
    let out = apply_cmp_job(&vec![(2, 1)], &vec![CeEntry { cei: 1, a: 0, b: 1 }], &mut used);
    assert_eq!(out, vec![(1, 2)]);
    assert_eq!(used, vec![false, true]);
    // Already ordered: nothing happens.
    let out = apply_cmp_job(&vec![(1, 2)], &vec![CeEntry { cei: 0, a: 0, b: 1 }], &mut used);
    assert_eq!(out, vec![(1, 2)]);
    assert_eq!(used, vec![false, true]);
}

#[test]
fn cmp_job_output_is_sorted_and_unique() {
    let mut used = vec![false];
    let states = vec![(5, 0), (1, 4), (5, 0), (0, 5)];
    let out = apply_cmp_job(&states, &vec![CeEntry { cei: 0, a: 0, b: 2 }], &mut used);
    assert_eq!(out, vec![(0, 5), (1, 4), (5, 0)]);
    assert_eq!(used, vec![false]);
}

#[test]
fn dedup_drops_repeats() {
    assert_eq!(dedup_sorted(&vec![(0, 1), (0, 1), (0, 2), (3, 0), (3, 0)]), vec![(0, 1), (0, 2), (3, 0)]);
    assert_eq!(dedup_sorted(&vec![]), vec![]);
}

#[test]
fn combine_is_the_pairwise_union() {
    let master = vec![(1, 0), (0, 1)];
    let slave = vec![(4, 0), (0, 4)];
    assert_eq!(combine_states(&master, &slave), vec![(5, 0), (4, 1), (1, 4), (0, 5)]);
}

#[test]
fn check_unsorted_marks_higher_zero_wires() {
    let mut u = [0u64; 64];
    // Wire 0 may be 1 while wires 1 and 2 may be 0.
    check_unsorted(&mut u, &[(0b110, 0b001)]);
    assert_eq!(u[0], 0b110);
    assert_eq!(u[1], 0);
    // A zero below a one is not out of order.
    check_unsorted(&mut u, &[(0b001, 0b010)]);
    assert_eq!(u[1], 0);
}

#[test]
fn parse_reads_a_network() {
    let (n, m, cmp) = parse_network("4 2\n1 3\n2 4\n").unwrap();
    assert_eq!((n, m), (4, 2));
    assert_eq!(cmp, vec![(0, 1), (2, 3)]);
    let (n, m, cmp) = parse_network("  2   1 extra\r\n+1\n 2").unwrap();
    assert_eq!((n, m, cmp), (2, 1, vec![(0, 1)]));
}

#[test]
fn parse_rejects_bad_text() {
    assert_eq!(parse_network("").unwrap_err(), "empty input");
    assert_eq!(parse_network("\n").unwrap_err(), "missing n");
    assert_eq!(parse_network("x 1\n1\n2\n").unwrap_err(), "parseint failed n");
    assert_eq!(parse_network("1 1\n1\n2\n").unwrap_err(), "invalid n");
    assert_eq!(parse_network("65 1\n1\n2\n").unwrap_err(), "invalid n");
    assert_eq!(parse_network("2\n1\n2\n").unwrap_err(), "missing m");
    assert_eq!(parse_network("2 -1\n1\n2\n").unwrap_err(), "parseint failed m");
    assert_eq!(parse_network("2 1\n").unwrap_err(), "missing a");
    assert_eq!(parse_network("2 1\n1a\n2\n").unwrap_err(), "parseint failed a");
    assert_eq!(parse_network("2 1\n1\n").unwrap_err(), "missing a");
    assert_eq!(parse_network("2 1\n1\n2b\n").unwrap_err(), "parseint failed b");
    assert_eq!(parse_network("2 2\n1\n2\n").unwrap_err(), "invalid input");
    assert_eq!(parse_network("2 1\n0\n2\n").unwrap_err(), "invalid input");
    assert_eq!(parse_network("2 1\n1\n3\n").unwrap_err(), "invalid input");
    assert_eq!(parse_network("2 1\n2\n1\n").unwrap_err(), "invalid comparators");
    assert_eq!(parse_network("2 1\n1\n1\n").unwrap_err(), "invalid comparators");
    assert_eq!(parse_network("2 1\n99999999999999999999999\n2\n").unwrap_err(), "parseint failed a");
    assert_eq!(parse_network("3 0\n\n").unwrap_err(), "missing a");
}

#[test]
fn result_getters() {
    let mut r = JobResult::new(&[(0, 1), (1, 2)]);
    assert_eq!(r.progress_all, u64::MAX);
    assert!(r.is_sorting_network());
    assert_eq!(r.get_unused(), vec![true, true]);
    r.used[1] = true;
    assert_eq!(r.get_unused(), vec![true, false]);
    r.unsorted[2] = (1 << 3) | (1 << 5);
    r.unsorted[0] = 1 << 7;
    assert!(!r.is_sorting_network());
    assert_eq!(r.get_unsorted_allpairs(), vec![(0, 7), (2, 3), (2, 5)]);
    assert_eq!(r.get_unsorted_adjacent(), vec![2]);
    assert_eq!(r.get_unsorted_bitmap()[2], 40);
    let s = r.snapshot();
    assert_eq!(s.used, r.used);
    assert_eq!(s.unsorted, r.unsorted);
}

#[test]
fn verify_id_wraps() {
    let mut id = SortingNetworkVerifyId::default();
    assert_eq!(id.inc(), 1);
    id.set(u32::MAX);
    assert_eq!(id.get(), u32::MAX);
    assert_eq!(id.inc(), 0);
    let args = GreetArgs { name: "x".to_string() };
    assert_eq!(args.name, "x");
}

#[test]
fn triangle_rows() {
    assert_eq!(triangular_indices(0), (0, 0));
    assert_eq!(triangular_indices(1), (1, 0));
    assert_eq!(triangular_indices(2), (1, 1));
    assert_eq!(triangular_indices(3), (2, 0));
    assert_eq!(triangular_indices(5), (2, 2));
    assert_eq!(triangular_indices(6), (3, 0));
}

#[test]
fn layout_packs_layers() {
    let p = gen_svg_pos(4, &[(0, 1), (2, 3), (0, 2), (1, 3), (1, 2)]);
    assert_eq!(p.d, 3);
    assert_eq!(p.height, 100);
    assert_eq!(p.x_pos, vec![35, 35, 70, 81, 116]);
    assert_eq!(p.width, 151);
    let q = SvgPos::new(3, &[(1, 0), (0, 2)]);
    assert_eq!(q.d, 0);
    assert_eq!(q.x_pos, vec![35, 46]);
    assert_eq!(q.width, 81);
}

#[test]
fn plan_for_two_separate_pairs() {
    let plan = verify_strategy(4, &[(0, 1), (2, 3)]);
    let shape: Vec<String> = plan
        .iter()
        .map(|j| match j {
            VerifyJob::Cmp { root, cmp_part } => {
                let entries: Vec<String> = cmp_part.iter().map(|e| format!("{}:{}-{}", e.cei, e.a, e.b)).collect();
                format!("cmp {} [{}]", root, entries.join(","))
            }
            VerifyJob::Combine { root_master, root_slave } => format!("combine {} {}", root_master, root_slave),
        })
        .collect();
    assert_eq!(shape, vec!["combine 0 1", "cmp 0 [0:0-1]", "combine 2 3", "cmp 2 [1:2-3]"]);
}

#[test]
fn empty_network_gets_empty_plan() {
    assert!(verify_strategy(5, &[]).is_empty());
}

#[test]
fn parse_checks_ranges_before_order() {
    assert_eq!(parse_network("3 2\n2 0\n1 2\n").unwrap_err(), "invalid input");
    assert_eq!(parse_network("3 2\n2 1\n1 3\n").unwrap_err(), "invalid comparators");
}
