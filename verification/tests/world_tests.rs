//! The binary world container: a round trip through bytes.

use mzp::world::{Board, Stat, World};

fn wd_stat(code: &str) -> Stat {
    Stat {
        x: 3,
        y: 4,
        x_step: 1,
        y_step: -1,
        cycle: 3,
        p1: 2,
        p2: 0,
        p3: 9,
        follower: -1,
        leader: -1,
        under_element: 15,
        under_color: 7,
        instruction_pointer: 0,
        bind_index: 0,
        code: code.chars().collect(),
    }
}

fn wd_world() -> World {
    World {
        ammo: 12,
        gems: 34,
        keys: vec![true, false, true, false, false, false, true],
        health: 100,
        starting_board: 0,
        torches: 2,
        torch_cycles: 0,
        energizer_cycles: 0,
        score: 999,
        world_name: b"DEMO".to_vec(),
        flags: vec![vec![]; 10],
        time: 0,
        time_ticks: 0,
        locked: false,
        boards: vec![],
    }
}

#[test]
fn world_round_trip() {
    let mut world = wd_world();
    world.boards.push(wd_world_board());
    let bytes = world.to_bytes().expect("should serialise");
    assert!(bytes.len() >= 512);
    assert_eq!(&bytes[0..2], &[0xff, 0xff]);
    let back = World::from_bytes(&bytes).expect("should parse");
    assert_eq!(back.ammo, 12);
    assert_eq!(back.gems, 34);
    assert_eq!(back.keys, vec![true, false, true, false, false, false, true]);
    assert_eq!(back.score, 999);
    assert_eq!(back.world_name, b"DEMO".to_vec());
    assert_eq!(back.boards.len(), 1);
    let b = &back.boards[0];
    assert_eq!(b.name.iter().collect::<String>(), "First board");
    assert_eq!(b.terrain.len(), 1500);
    assert_eq!(b.stats.len(), 2);
    assert_eq!(b.stats[0].code.iter().collect::<String>(), ":touch\n#end");
    assert_eq!(b.stats[1].code.iter().collect::<String>(), "plain text");
    assert_eq!(b.stats[0].x, 3);
    assert_eq!(b.stats[1].under_element, 15);
}

fn wd_world_board() -> Board {
    let mut terrain = vec![(0u8, 0u8); 1500];
    // a few runs of different tiles, to exercise the run-length coder
    for i in 0..60 {
        terrain[i] = (21, 0x0e);
    }
    terrain[100] = (4, 0x1f);
    Board {
        name: "First board".chars().collect(),
        terrain,
        max_shots: 255,
        is_dark: false,
        board_n: 0,
        board_s: 0,
        board_w: 0,
        board_e: 0,
        reenter_when_zapped: true,
        message: b"hi".to_vec(),
        enter_x: 30,
        enter_y: 12,
        time_limit: -1,
        stats: vec![wd_stat(":touch\n#end"), wd_stat("plain text")],
    }
}

#[test]
fn stat_record_layout() {
    // the fixed fields sit at their documented offsets, little-endian,
    // with the script byte count at offset 23 and the script at 33
    let bytes = wd_stat("AB").to_bytes().expect("should serialise");
    assert_eq!(bytes.len(), 35);
    assert_eq!(&bytes[0..2], &[3, 4]); // x, y
    assert_eq!(&bytes[2..4], &[1, 0]); // x_step
    assert_eq!(&bytes[4..6], &[0xFF, 0xFF]); // y_step == -1
    assert_eq!(&bytes[6..8], &[3, 0]); // cycle
    assert_eq!(&bytes[8..11], &[2, 0, 9]); // p1, p2, p3
    assert_eq!(&bytes[23..25], &[2, 0]); // script byte count
    assert_eq!(&bytes[33..35], b"AB"); // the script itself
}

#[test]
fn world_header_layout() {
    // the magic, the board count less one and the ammo counter sit at
    // the head of the 512-byte header
    let mut world = wd_world();
    world.boards.push(wd_world_board());
    let bytes = world.to_bytes().expect("should serialise");
    assert_eq!(&bytes[0..2], &[0xFF, 0xFF]);
    assert_eq!(&bytes[2..4], &[0, 0]); // one board
    assert_eq!(&bytes[4..6], &[12, 0]); // ammo
}

#[test]
fn stat_without_script_binds() {
    let mut st = wd_stat("ignored");
    st.bind_index = -2;
    let bytes = st.to_bytes().expect("should serialise");
    assert_eq!(bytes.len(), 33);
}

#[test]
fn bad_worlds_are_rejected() {
    assert!(World::from_bytes(&vec![0u8; 10]).is_err());
    assert!(World::from_bytes(&vec![0u8; 600]).is_err());
    let mut board = wd_world_board();
    board.terrain.pop();
    assert!(board.to_bytes().is_err());
}
