//! The whole label pipeline over a board, end to end.

use mzp::chunks::parse_stat_labels;
use mzp::diag::{Context, Level};
use mzp::resolve::process_labels;
use mzp::world::{Board, Stat};

fn pl_chars(s: &str) -> Vec<char> {
    s.chars().collect()
}

fn pl_str(v: &Vec<char>) -> String {
    v.iter().collect()
}

fn pl_stat(code: &str) -> Stat {
    Stat {
        x: 1,
        y: 1,
        x_step: 0,
        y_step: 0,
        cycle: 3,
        p1: 2,
        p2: 0,
        p3: 0,
        follower: -1,
        leader: -1,
        under_element: 0,
        under_color: 0,
        instruction_pointer: 0,
        bind_index: 0,
        code: pl_chars(code),
    }
}

fn pl_board(codes: &[&str]) -> Board {
    Board {
        name: pl_chars("board"),
        terrain: vec![(0u8, 0u8); 1500],
        max_shots: 255,
        is_dark: false,
        board_n: 0,
        board_s: 0,
        board_w: 0,
        board_e: 0,
        reenter_when_zapped: false,
        message: vec![],
        enter_x: 1,
        enter_y: 1,
        time_limit: 0,
        stats: codes.iter().map(|c| pl_stat(c)).collect(),
    }
}

fn pl_run(codes: &[&str]) -> (Option<Vec<String>>, Vec<(Level, String)>) {
    let board = pl_board(codes);
    let mut ctx = Context::new();
    let out = process_labels(&board, &mut ctx);
    let msgs = ctx
        .into_messages()
        .into_iter()
        .map(|m| (m.level, m.message.iter().collect::<String>()))
        .collect();
    (
        out.map(|b| b.stats.iter().map(|s| pl_str(&s.code)).collect()),
        msgs,
    )
}

#[test]
fn scenario_local_shortcut() {
    // one stat: the `.loop` shortcut resolves through its `touch` section
    let (out, msgs) = pl_run(&[":touch\n#send .loop\n:.loop\n#end"]);
    assert_eq!(msgs.len(), 0);
    let out = out.expect("no errors, so the board is rewritten");
    assert_eq!(out, vec![":touch\n#send loop\n:loop\n#end".to_string()]);
}

#[test]
fn scenario_anonymous_wiring() {
    let (out, msgs) = pl_run(&[":@\n#send @f\n:@\n#send @b\n#end"]);
    assert_eq!(msgs.len(), 0);
    let out = out.expect("no errors");
    // two distinct short names; the forward send points at the second
    // label, the backward send also points at the second label
    assert_eq!(out, vec![":_\n#send a\n:a\n#send a\n#end".to_string()]);
}

#[test]
fn scenario_reserved_name() {
    let (out, msgs) = pl_run(&[":foo\n:touch\n#end"]);
    assert_eq!(msgs.len(), 0);
    let out = out.expect("no errors");
    assert_eq!(out, vec![":foo\n:touch\n#end".to_string()]);
}

#[test]
fn scenario_recipient_of_anonymous() {
    let (out, msgs) = pl_run(&["#send all:@b"]);
    assert!(out.is_none());
    assert_eq!(msgs[0].0, Level::Error);
    assert_eq!(msgs[0].1, "message targets not allowed for anonymous labels");
    // the dangling backward reference is reported as well
    assert!(msgs
        .iter()
        .any(|m| m.1 == "backward reference needs an anonymous label"));
}

#[test]
fn scenario_recipient_of_local() {
    let (out, msgs) = pl_run(&["#send all:.loop"]);
    assert!(out.is_none());
    assert!(msgs
        .iter()
        .any(|m| m.0 == Level::Error && m.1 == "message targets not supported for local labels"));
}

#[test]
fn local_definition_with_section_name() {
    let (out, msgs) = pl_run(&[":touch.foo\n#end"]);
    assert!(out.is_none());
    assert!(msgs
        .iter()
        .any(|m| m.0 == Level::Error
            && m.1 == "local label definitions cannot specify a section name"));
}

#[test]
fn backward_reference_without_definition() {
    let (out, msgs) = pl_run(&["#send @b\n#end"]);
    assert!(out.is_none());
    assert!(msgs
        .iter()
        .any(|m| m.0 == Level::Error && m.1 == "backward reference needs an anonymous label"));
}

#[test]
fn forward_reference_without_definition() {
    let (out, msgs) = pl_run(&["#send @f\n#end"]);
    assert!(out.is_none());
    assert!(msgs
        .iter()
        .any(|m| m.0 == Level::Error && m.1 == "forward reference needs an anonymous label"));
}

#[test]
fn local_disambiguation_across_sections() {
    // two `touch` sections each define `.foo`: they get distinct prefixes
    let (out, msgs) = pl_run(&[":touch\n:.foo\n:touch\n:.foo\n#end"]);
    assert_eq!(msgs.len(), 0);
    let out = out.expect("no errors");
    let code = &out[0];
    let lines: Vec<&str> = code.split('\n').collect();
    // the two locals resolved to different names
    assert_ne!(lines[1], lines[3]);
}

#[test]
fn namespaces_are_separate_scopes() {
    let (out, msgs) = pl_run(&[":@\n:ns~@\n#send @b\n#send ns~@b\n#end"]);
    assert_eq!(msgs.len(), 0);
    let out = out.expect("no errors");
    let lines: Vec<String> = out[0].split('\n').map(|s| s.to_string()).collect();
    // the namespace markers are rewritten away; the plain backward send
    // names the first label, the namespaced one names the second
    assert_eq!(format!(":{}", &lines[2][6..]), lines[0]);
    assert_eq!(format!(":{}", &lines[3][6..]), lines[1]);
    assert_ne!(lines[2], lines[3]);
}

#[test]
fn anonymous_names_reused_across_stats() {
    let (out, msgs) = pl_run(&[":@\n#send @b\n#end", ":@\n#send @b\n#end"]);
    assert_eq!(msgs.len(), 0);
    let out = out.expect("no errors");
    assert_eq!(out[0], out[1]);
}

#[test]
fn chunks_reproduce_input() {
    let inputs = [
        ":touch\n#send .loop\n:.loop\n#end",
        "#send all:foo\nplain text\n/n/n?s",
        "",
        "no labels here at all",
        ":@\n#send @f",
    ];
    for input in inputs {
        let mut ctx = Context::new();
        let chunks = parse_stat_labels(&pl_chars(input), &mut ctx);
        let mut joined = String::new();
        for c in &chunks {
            match c {
                mzp::chunks::Chunk::Verbatim(v) => joined.push_str(&pl_str(v)),
                mzp::chunks::Chunk::Label { raw, .. } => joined.push_str(&pl_str(raw)),
            }
        }
        assert_eq!(joined, input);
    }
}

#[test]
fn label_chunks_carry_their_spans() {
    // every label chunk points at the exact characters it was written
    // with, and the spans come in source order without overlap
    let input = ":touch\n#send ns~.loop\n:@\n#send all:foo";
    let mut ctx = Context::new();
    let chunks = parse_stat_labels(&pl_chars(input), &mut ctx);
    let text = pl_chars(input);
    let mut prev_end = 0usize;
    let mut labels = 0usize;
    for c in &chunks {
        if let mzp::chunks::Chunk::Label { raw, name, .. } = c {
            assert!(prev_end <= name.span_start);
            assert!(name.span_start <= name.span_end && name.span_end <= text.len());
            assert_eq!(raw, &text[name.span_start..name.span_end].to_vec());
            prev_end = name.span_end;
            labels += 1;
        }
    }
    // `:touch`, `ns~.loop`, `:@`, and `foo`
    assert_eq!(labels, 4);
}

#[test]
fn unparsable_script_is_left_verbatim() {
    // a line starting with `#` that is no command fails the grammar; the
    // script is kept as one verbatim chunk and a warning is recorded
    let (out, msgs) = pl_run(&["#notacommandatall !!"]);
    assert!(msgs.iter().any(|m| m.0 == Level::Warning));
    let out = out.expect("warnings do not gate the rewrite");
    assert_eq!(out[0], "#notacommandatall !!");
}

#[test]
fn trailing_characters_warn() {
    let (out, msgs) = pl_run(&["#die junk\n#end"]);
    assert!(msgs
        .iter()
        .any(|m| m.0 == Level::Warning && m.1 == "trailing characters at end of line"));
    assert!(out.is_some());
}

#[test]
fn rich_format_shows_breadcrumbs() {
    let board = pl_board(&["#send all:@b"]);
    let mut world = mzp::world::World {
        ammo: 0,
        gems: 0,
        keys: vec![false; 7],
        health: 100,
        starting_board: 0,
        torches: 0,
        torch_cycles: 0,
        energizer_cycles: 0,
        score: 0,
        world_name: vec![],
        flags: vec![vec![]; 10],
        time: 0,
        time_ticks: 0,
        locked: false,
        boards: vec![],
    };
    world.boards.push(pl_board(&["#send all:@b"]));
    let base = Context::new();
    let with_file = base.with_file_path(&pl_chars("test.zzt"));
    let mut ctx = with_file.with_board(0);
    let _ = process_labels(&board, &mut ctx);
    let msgs = ctx.into_messages();
    assert!(msgs.len() >= 1);
    let text = msgs[0].rich_format(&world);
    assert!(text.starts_with("error: message targets not allowed for anonymous labels"));
    assert!(text.contains(" => test.zzt -> board -> stat (1,1) -> line 1:7"));
    assert!(text.contains("^^^"));
}
