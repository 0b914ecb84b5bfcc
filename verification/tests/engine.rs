//! The swap loop's decisions, driven by scripted timer reports.

use vyges_vt_swap::engine::{
    flavor_position, is_untouchable, label_instance, next_slowdown_from, slowdown_of,
    speedup_of, timing_candidates, Action, Phase, Swapper,
};
use vyges_vt_swap::job::{parse_cfg, Objective, VtCfg};

fn s(x: &str) -> String {
    x.to_string()
}

fn insts(v: &[(&str, &str)]) -> Vec<(String, String)> {
    v.iter().map(|(a, b)| (s(a), s(b))).collect()
}

fn swap(i: &str, o: &str, n: &str) -> (String, String, String) {
    (s(i), s(o), s(n))
}

fn cfg(text: &str) -> VtCfg {
    parse_cfg(text).unwrap()
}

fn path() -> Vec<String> {
    vec![s("a"), s("u1/A"), s("u1/Y"), s("u2/A"), s("u2/Y"), s("y")]
}

#[test]
fn leakage_swaps_every_instance_that_keeps_timing() {
    let c = cfg("group: INV INV_HVT\nobjective: leakage\neffort: high\n");
    let (mut sw, a) = Swapper::new(c);
    assert!(matches!(a, Action::Observe));
    let a = sw.observe(true, &path(), insts(&[("u1", "INV"), ("u2", "INV")]));
    match a {
        Action::Try(m) => assert_eq!(m, swap("u1", "INV", "INV_HVT")),
        _ => panic!("expected a trial of u1"),
    }
    match sw.tried(true) {
        Action::Try(m) => assert_eq!(m, swap("u2", "INV", "INV_HVT")),
        _ => panic!("expected a trial of u2"),
    }
    assert!(matches!(sw.tried(true), Action::Finish));
    assert_eq!(*sw.changed(), vec![swap("u1", "INV", "INV_HVT"), swap("u2", "INV", "INV_HVT")]);
    assert_eq!(sw.sped_up(), 0);
    assert!(matches!(sw.phase(), Phase::Done));
}

#[test]
fn leakage_keeps_cells_when_trials_fail() {
    let c = cfg("group: INV INV_HVT\nobjective: leakage\neffort: high\n");
    let (mut sw, _) = Swapper::new(c);
    assert!(matches!(sw.observe(true, &path(), insts(&[("u1", "INV"), ("u2", "INV")])), Action::Try(_)));
    assert!(matches!(sw.tried(false), Action::Try(_)));
    assert!(matches!(sw.tried(false), Action::Finish));
    assert!(sw.changed().is_empty());
}

#[test]
fn leakage_pass_needs_met_setup() {
    let c = cfg("group: INV INV_HVT\n");
    let (mut sw, _) = Swapper::new(c);
    assert!(matches!(sw.observe(false, &path(), insts(&[("u1", "INV")])), Action::Finish));
    assert!(sw.changed().is_empty());
}

#[test]
fn dont_touch_leaves_nothing_to_try() {
    let c = cfg("group: INV INV_HVT\nobjective: leakage\neffort: high\ndont_touch: u1 u2\n");
    let (mut sw, _) = Swapper::new(c);
    assert!(matches!(sw.observe(true, &path(), insts(&[("u1", "INV"), ("u2", "INV")])), Action::Finish));
    assert!(sw.changed().is_empty());
}

#[test]
fn leakage_skips_slowest_and_unknown_cells() {
    let c = cfg("group: INV INV_HVT\n");
    let (mut sw, _) = Swapper::new(c);
    let a = sw.observe(true, &path(), insts(&[("u0", "BUF"), ("u1", "INV_HVT"), ("u2", "INV")]));
    match a {
        Action::Try(m) => assert_eq!(m, swap("u2", "INV", "INV_HVT")),
        _ => panic!("expected a trial of u2"),
    }
    match sw.phase() {
        Phase::Trying { at, .. } => assert_eq!(*at, 2),
        _ => panic!("expected the trying phase"),
    }
}

#[test]
fn timing_speeds_up_the_worst_path_then_recovers_leakage() {
    let c = cfg("group: INV INV_HVT\nobjective: timing\neffort: high\n");
    let (mut sw, a) = Swapper::new(c);
    assert!(matches!(a, Action::Observe));
    assert!(matches!(sw.phase(), Phase::Timing { moves: 0 }));
    let hvt = insts(&[("u1", "INV_HVT"), ("u2", "INV_HVT")]);
    match sw.observe(false, &path(), hvt) {
        Action::Score(c) => {
            assert_eq!(c, vec![swap("u1", "INV_HVT", "INV"), swap("u2", "INV_HVT", "INV")])
        }
        _ => panic!("expected candidates"),
    }
    match sw.scored(Some(1)) {
        Action::Commit(m) => assert_eq!(m, swap("u2", "INV_HVT", "INV")),
        _ => panic!("expected a commit"),
    }
    // setup is met now: the timing pass ends and the leakage pass starts
    let now = insts(&[("u1", "INV_HVT"), ("u2", "INV")]);
    match sw.observe(true, &path(), now) {
        Action::Try(m) => assert_eq!(m, swap("u2", "INV", "INV_HVT")),
        _ => panic!("expected a leakage trial"),
    }
    assert!(matches!(sw.tried(false), Action::Finish));
    assert_eq!(*sw.changed(), vec![swap("u2", "INV_HVT", "INV")]);
    assert_eq!(sw.sped_up(), 1);
}

#[test]
fn timing_stops_when_no_move_helps() {
    let c = cfg("group: INV INV_HVT\nobjective: timing\n");
    let (mut sw, _) = Swapper::new(c);
    let hvt = insts(&[("u1", "INV_HVT"), ("u2", "INV_HVT")]);
    assert!(matches!(sw.observe(false, &path(), hvt.clone()), Action::Score(_)));
    assert!(matches!(sw.scored(None), Action::Observe));
    assert!(matches!(sw.phase(), Phase::LeakStart));
    assert!(matches!(sw.observe(false, &path(), hvt), Action::Finish));
    assert!(sw.changed().is_empty());
}

#[test]
fn timing_stops_at_the_effort_budget() {
    let mut c = cfg("group: A B C D\nobjective: timing\n");
    c.effort = 1;
    let (mut sw, _) = Swapper::new(c);
    let p = vec![s("u1/Y")];
    assert!(matches!(sw.observe(false, &p, insts(&[("u1", "D")])), Action::Score(_)));
    assert!(matches!(sw.scored(Some(0)), Action::Commit(_)));
    // one move spent: still violating, so the loop ends without a leakage pass
    assert!(matches!(sw.observe(false, &p, insts(&[("u1", "C")])), Action::Finish));
    assert_eq!(*sw.changed(), vec![swap("u1", "D", "C")]);
}

#[test]
fn timing_on_a_met_design_goes_straight_to_leakage() {
    let c = cfg("group: INV INV_HVT\nobjective: timing\n");
    let (mut sw, _) = Swapper::new(c);
    assert!(matches!(sw.observe(true, &path(), insts(&[("u1", "INV")])), Action::Try(_)));
}

#[test]
fn candidates_follow_the_path_once_per_instance() {
    let c = cfg("group: X_LVT X X_HVT\ndont_touch: u3\n");
    let is = insts(&[("u1", "X_HVT"), ("u2", "X_LVT"), ("u3", "X"), ("u4", "X")]);
    let labels = vec![s("in"), s("u4/A"), s("u1/A"), s("u4/Y"), s("u2/A"), s("u3/A"), s("u9/A"), s("u1/Y")];
    assert_eq!(
        timing_candidates(&c, &is, &labels),
        vec![swap("u4", "X", "X_LVT"), swap("u1", "X_HVT", "X")]
    );
}

#[test]
fn helpers() {
    let c = cfg("group: A B\ngroup: C A D\n");
    // a cell listed twice takes its last place
    assert_eq!(flavor_position(&c.groups, &s("A")), Some((1, 1)));
    assert_eq!(flavor_position(&c.groups, &s("B")), Some((0, 1)));
    assert_eq!(flavor_position(&c.groups, &s("E")), None);
    assert_eq!(speedup_of(&c, &insts(&[("u", "A")]), &s("u")), Some(swap("u", "A", "C")));
    assert_eq!(slowdown_of(&c, &(s("u"), s("A"))), Some(swap("u", "A", "D")));
    assert_eq!(slowdown_of(&c, &(s("u"), s("D"))), None);
    assert_eq!(speedup_of(&c, &insts(&[("v", "A")]), &s("u")), None);
    assert!(is_untouchable(&vec![s("clk_*"), s("u9")], "clk_x"));
    assert!(!is_untouchable(&vec![s("clk_*"), s("u9")], "u1"));
    assert_eq!(label_instance(&s("u1/Y")), Some(s("u1")));
    assert_eq!(label_instance(&s("a/b/c")), Some(s("a")));
    assert_eq!(label_instance(&s("y")), None);
    let is = insts(&[("x", "B"), ("y", "A"), ("z", "A")]);
    assert_eq!(next_slowdown_from(&c, &is, 0), Some((1, swap("y", "A", "D"))));
    assert_eq!(next_slowdown_from(&c, &is, 2), Some((2, swap("z", "A", "D"))));
    assert_eq!(next_slowdown_from(&c, &is, 3), None);
    assert_eq!(c.objective, Objective::Leakage);
}

#[test]
fn leakage_climbs_to_the_highest_vt_that_holds() {
    let c = cfg("group: X_LVT X X_HVT\n");
    let (mut sw, _) = Swapper::new(c);
    let a = sw.observe(true, &path(), insts(&[("u1", "X_LVT"), ("u2", "X_LVT")]));
    match a {
        Action::Try(m) => assert_eq!(m, swap("u1", "X_LVT", "X")),
        _ => panic!("expected a trial of u1"),
    }
    // kept: u1 tries the next flavor up
    match sw.tried(true) {
        Action::Try(m) => assert_eq!(m, swap("u1", "X", "X_HVT")),
        _ => panic!("expected a second trial of u1"),
    }
    // kept again: u1 is on the slowest flavor, so u2 is next
    match sw.tried(true) {
        Action::Try(m) => assert_eq!(m, swap("u2", "X_LVT", "X")),
        _ => panic!("expected a trial of u2"),
    }
    // refused: u2 stays, and nothing is left
    assert!(matches!(sw.tried(false), Action::Finish));
    assert_eq!(
        *sw.changed(),
        vec![swap("u1", "X_LVT", "X"), swap("u1", "X", "X_HVT")]
    );
}
