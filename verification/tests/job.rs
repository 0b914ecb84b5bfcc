//! The vt-swap keys of a job file.

use vyges_vt_swap::job::{effort_of, key_of, objective_of, parse_cfg, read_entry, KeyKind, Objective, Pending};

fn strings(v: &[&str]) -> Vec<String> {
    v.iter().map(|s| s.to_string()).collect()
}

#[test]
fn cfg_of_a_leakage_job() {
    let c = parse_cfg("group: INV INV_HVT\nobjective: leakage\neffort: high\n").unwrap();
    assert_eq!(c.groups, vec![strings(&["INV", "INV_HVT"])]);
    assert_eq!(c.objective, Objective::Leakage);
    assert_eq!(c.effort, 500);
    assert!(c.dont_touch.is_empty());
}

#[test]
fn cfg_defaults() {
    let c = parse_cfg("").unwrap();
    assert!(c.groups.is_empty());
    assert_eq!(c.objective, Objective::Leakage);
    assert_eq!(c.effort, 100);
    assert!(c.dont_touch.is_empty());
    // timing keys of the underlying .sta job are ignored
    let c = parse_cfg("design: top\nnetlist: top.v\nclock: clk 1.2\n").unwrap();
    assert!(c.groups.is_empty());
    assert_eq!(c.effort, 100);
}

#[test]
fn cfg_effort_words() {
    assert_eq!(parse_cfg("effort: low").unwrap().effort, 20);
    assert_eq!(parse_cfg("effort: medium").unwrap().effort, 100);
    assert_eq!(parse_cfg("effort:high").unwrap().effort, 500);
    assert_eq!(parse_cfg("effort: HIGH\n").unwrap().effort, 500);
}

#[test]
fn cfg_keys_and_values_are_case_insensitive() {
    let c = parse_cfg("OBJECTIVE: Timing\nGroup: INV INV_HVT\n").unwrap();
    assert_eq!(c.objective, Objective::Timing);
    // flavor names keep their case
    assert_eq!(c.groups, vec![strings(&["INV", "INV_HVT"])]);
}

#[test]
fn cfg_groups_repeat_and_small_groups_are_dropped() {
    let c = parse_cfg(
        "group: INV_LVT INV INV_HVT\ngroup: NAND2\ngroup:   NAND2_LVT\tNAND2  NAND2_HVT  \n",
    )
    .unwrap();
    assert_eq!(
        c.groups,
        vec![
            strings(&["INV_LVT", "INV", "INV_HVT"]),
            strings(&["NAND2_LVT", "NAND2", "NAND2_HVT"])
        ]
    );
}

#[test]
fn cfg_comments_and_blank_lines() {
    let c = parse_cfg("# a job\n\n  group: A B # C D\n#group: X Y\nobjective: timing # fast\n")
        .unwrap();
    assert_eq!(c.groups, vec![strings(&["A", "B"])]);
    assert_eq!(c.objective, Objective::Timing);
}

#[test]
fn cfg_dont_touch_lists_accumulate() {
    let c = parse_cfg("dont_touch: clk_* *scan*\ndont_touch: u1,u2 , ,u3\n").unwrap();
    assert_eq!(c.dont_touch, strings(&["clk_*", "*scan*", "u1", "u2", "u3"]));
    let c = parse_cfg("group: INV INV_HVT\nobjective: leakage\neffort: high\ndont_touch: u1 u2\n")
        .unwrap();
    assert_eq!(c.dont_touch, strings(&["u1", "u2"]));
}

#[test]
fn cfg_crlf_lines() {
    let c = parse_cfg("group: INV INV_HVT\r\nobjective: timing\r\neffort: low\r\n").unwrap();
    assert_eq!(c.groups, vec![strings(&["INV", "INV_HVT"])]);
    assert_eq!(c.objective, Objective::Timing);
    assert_eq!(c.effort, 20);
}

#[test]
fn cfg_later_lines_win() {
    let c = parse_cfg("objective: timing\nobjective: leakage\neffort: low\neffort: high\n").unwrap();
    assert_eq!(c.objective, Objective::Leakage);
    assert_eq!(c.effort, 500);
}

#[test]
fn cfg_value_after_first_colon() {
    // the key is what comes before the first ':'
    let c = parse_cfg("dont_touch: a:b c\n").unwrap();
    assert_eq!(c.dont_touch, strings(&["a:b", "c"]));
}

#[test]
fn cfg_bad_objective() {
    let e = parse_cfg("objective: speed\n").unwrap_err();
    assert_eq!(e, "objective must be leakage|timing, got \"speed\"");
    // the value is reported lowercased
    let e = parse_cfg("objective: Fast \"x\"").unwrap_err();
    assert_eq!(e, "objective must be leakage|timing, got \"fast \\\"x\\\"\"");
    // an empty objective is refused too
    let e = parse_cfg("objective:").unwrap_err();
    assert_eq!(e, "objective must be leakage|timing, got \"\"");
}

#[test]
fn cfg_bad_effort() {
    let e = parse_cfg("effort: max\n").unwrap_err();
    assert_eq!(e, "effort must be low|medium|high, got \"max\"");
    let e = parse_cfg("effort: High Enough\n").unwrap_err();
    assert_eq!(e, "effort must be low|medium|high, got \"high enough\"");
}

#[test]
fn cfg_bad_objective_reported_before_bad_effort() {
    let e = parse_cfg("effort: max\nobjective: speed\nobjective: nope\n").unwrap_err();
    assert_eq!(e, "objective must be leakage|timing, got \"speed\"");
    // a bad effort that is corrected later is fine
    assert_eq!(parse_cfg("effort: max\neffort: low\n").unwrap().effort, 20);
}

#[test]
fn key_and_value_words() {
    assert_eq!(key_of("group"), KeyKind::Group);
    assert_eq!(key_of("objective"), KeyKind::Objective);
    assert_eq!(key_of("effort"), KeyKind::Effort);
    assert_eq!(key_of("dont_touch"), KeyKind::DontTouch);
    assert_eq!(key_of("Group"), KeyKind::Other);
    assert_eq!(key_of("lib"), KeyKind::Other);
    assert_eq!(objective_of("leakage"), Some(Objective::Leakage));
    assert_eq!(objective_of("timing"), Some(Objective::Timing));
    assert_eq!(objective_of("area"), None);
    assert_eq!(effort_of("low"), Some(20));
    assert_eq!(effort_of("medium"), Some(100));
    assert_eq!(effort_of("high"), Some(500));
    assert_eq!(effort_of("Low"), None);
}

#[test]
fn cfg_lines_of_other_keys_change_nothing() {
    let base = "group: A B\neffort: low";
    let c0 = parse_cfg(base).unwrap();
    for extra in ["lib: cells.lib", "LIB: x", "just words", "# group: C D", "clock: 10 # group: E F"] {
        let c = parse_cfg(&format!("{base}\n{extra}")).unwrap();
        assert_eq!(c.groups, c0.groups);
        assert_eq!(c.objective, c0.objective);
        assert_eq!(c.effort, c0.effort);
        assert_eq!(c.dont_touch, c0.dont_touch);
    }
    // a refusal stays a refusal
    assert_eq!(
        parse_cfg("objective: area\nlib: x").unwrap_err(),
        parse_cfg("objective: area").unwrap_err()
    );
}

#[test]
fn cfg_upper_case_key_reads_as_lower_case() {
    let a = parse_cfg("GROUP: A B\nDONT_TOUCH: u1*\nEFFORT: High").unwrap();
    let b = parse_cfg("group: A B\ndont_touch: u1*\neffort: high").unwrap();
    assert_eq!(a.groups, b.groups);
    assert_eq!(a.dont_touch, b.dont_touch);
    assert_eq!(a.effort, 500);
    assert_eq!(b.effort, 500);
}

#[test]
fn read_entry_applies_one_entry() {
    let mut p = Pending::new();
    assert!(read_entry(&mut p, "group", "INV  INV_HVT", "inv  inv_hvt".to_string()).is_ok());
    assert_eq!(p.groups, vec![strings(&["INV", "INV_HVT"])]);
    assert!(read_entry(&mut p, "group", "BUF", "buf".to_string()).is_ok());
    assert_eq!(p.groups.len(), 1);
    assert!(read_entry(&mut p, "objective", "Timing", "timing".to_string()).is_ok());
    assert_eq!(p.objective, Objective::Timing);
    assert!(read_entry(&mut p, "effort", "HIGH", "high".to_string()).is_ok());
    assert_eq!(p.effort_word, "high");
    assert!(read_entry(&mut p, "dont_touch", "u1*, u2", "u1*, u2".to_string()).is_ok());
    assert_eq!(p.dont_touch, strings(&["u1*", "u2"]));
    assert!(read_entry(&mut p, "lib", "x.lib", "x.lib".to_string()).is_ok());
    assert_eq!(read_entry(&mut p, "objective", "Area", "area".to_string()), Err("area".to_string()));
    assert_eq!(p.objective, Objective::Timing);
}

#[test]
fn cfg_single_flavor_group_is_dropped() {
    let c = parse_cfg("group: INV\ngroup: A B C").unwrap();
    assert_eq!(c.groups, vec![strings(&["A", "B", "C"])]);
}

#[test]
fn cfg_mixed_case_keys_and_values() {
    let c = parse_cfg("GrOuP: x y\nObJeCtIvE: TIMING\neFFort: Low").unwrap();
    assert_eq!(c.groups, vec![strings(&["x", "y"])]);
    assert_eq!(c.objective, Objective::Timing);
    assert_eq!(c.effort, 20);
}
