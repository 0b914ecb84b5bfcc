//! Glob matching of `dont_touch` patterns.

use vyges_vt_swap::job::glob_match;

#[test]
fn globs() {
    assert!(glob_match("clk_*", "clk_a"));
    assert!(glob_match("*_reg", "x_reg"));
    assert!(glob_match("*scan*", "u_scan_0"));
    assert!(!glob_match("u1", "u2"));
}

#[test]
fn glob_exact_without_star() {
    assert!(glob_match("u1", "u1"));
    assert!(!glob_match("u1", "u10"));
    assert!(!glob_match("u1", ""));
    assert!(glob_match("", ""));
}

#[test]
fn glob_lone_star_matches_everything() {
    assert!(glob_match("*", ""));
    assert!(glob_match("*", "anything"));
    assert!(glob_match("**", "x"));
}

#[test]
fn glob_prefix_and_suffix() {
    assert!(glob_match("clk_*", "clk_"));
    assert!(!glob_match("clk_*", "xclk_a"));
    assert!(glob_match("*_reg", "_reg"));
    assert!(!glob_match("*_reg", "x_reg2"));
    assert!(!glob_match("*_reg", "reg"));
}

#[test]
fn glob_infix_trims_every_outer_star() {
    assert!(glob_match("**scan**", "u_scan_0"));
    assert!(!glob_match("*scan*", "u_sca_n"));
    assert!(glob_match("*scan*", "scan"));
    // a star in the middle is a literal character
    assert!(glob_match("*a*b*", "xa*by"));
    assert!(!glob_match("*a*b*", "xaby"));
    assert!(!glob_match("a*b", "axb"));
    assert!(glob_match("a*b", "a*b"));
}
