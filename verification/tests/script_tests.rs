//! The script grammar: labels, directions and conditions.

use mzp::ir::eval;
use mzp::peg::ParseState;
use mzp::script::{script_grammar, R_CONDITION, R_DIRECTION, R_LABEL, R_PROGRAM};

fn st_chars(s: &str) -> Vec<char> {
    s.chars().collect()
}

fn st_parse(rule: usize, input: &str) -> bool {
    let g = script_grammar();
    let mut p = ParseState::new(st_chars(input));
    let fuel = p.input.len() as u64 + 64;
    eval(&g, &g[rule], &mut p, fuel) && p.eoi()
}

#[test]
fn test_label() {
    assert!(st_parse(R_LABEL, "foo"));
    assert!(st_parse(R_LABEL, ".loop"));
    assert!(st_parse(R_LABEL, "foo.loop"));
    assert!(st_parse(R_LABEL, "ns~foo"));
    assert!(st_parse(R_LABEL, "ns~.loop"));

    assert!(!st_parse(R_LABEL, "foo."));
    assert!(!st_parse(R_LABEL, "foo.bar.baz"));
    assert!(!st_parse(R_LABEL, "foo~bar~baz"));
    assert!(!st_parse(R_LABEL, "~foo"));
}

#[test]
fn parse_test_direction() {
    assert!(st_parse(R_DIRECTION, "n"));
    assert!(st_parse(R_DIRECTION, "north"));
    assert!(st_parse(R_DIRECTION, "rndp rndne"));
    assert!(st_parse(R_DIRECTION, "opp   seek"));
    assert!(st_parse(R_DIRECTION, "cw cw cw flow"));
}

#[test]
fn parse_test_condition() {
    assert!(st_parse(R_CONDITION, "alligned"));
    assert!(st_parse(R_CONDITION, "blocked seek"));
    assert!(st_parse(R_CONDITION, "not blocked rndp seek"));
    assert!(st_parse(R_CONDITION, "any red lion"));
    assert!(st_parse(R_CONDITION, "any bear"));
}

#[test]
fn whole_scripts_parse() {
    assert!(st_parse(R_PROGRAM, ":touch\n#send .loop\n:.loop\n#end"));
    assert!(st_parse(R_PROGRAM, ":@\n#send @f\n:@\n#send @b\n#end"));
    assert!(st_parse(R_PROGRAM, "#send all:@b"));
    assert!(st_parse(R_PROGRAM, "plain text line\n#give gems 5 #end"));
    assert!(st_parse(R_PROGRAM, "/n?seek#walk flow"));
}
