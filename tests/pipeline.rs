use fuckbrain::ast::{to_tokens, Node};
use fuckbrain::cfg::{build, Block, Instr, Routine, Terminator, TAPE_LEN};
use fuckbrain::compile;
use fuckbrain::machine::{run, Event, Halt, Outcome};
use fuckbrain::parse::{parse, ParseError};
use fuckbrain::token::filter;

fn exec(src: &str, input: &[u8], fuel: u64) -> Outcome {
    let routine = compile(src.as_bytes()).expect("well bracketed");
    run(&routine, input, fuel)
}

#[test]
fn filter_keeps_only_symbols_in_order() {
    assert_eq!(filter(b"a+b [-]\nc. # >,<"), b"+[-].>,<".to_vec());
    assert_eq!(filter(b"hello world"), Vec::<u8>::new());
    assert_eq!(filter(b""), Vec::<u8>::new());
}

#[test]
fn filter_twice_equals_once() {
    let src = "comment + [ - ] text . , < > \u{e9}";
    let once = filter(src.as_bytes());
    let twice = filter(&once);
    assert_eq!(once, twice);
    assert_eq!(once, b"+[-].,<>".to_vec());
}

#[test]
fn parse_builds_nested_loops() {
    let p = parse(b"+[->[<]].").unwrap();
    assert_eq!(
        p,
        vec![
            Node::Add,
            Node::Loop(vec![Node::Sub, Node::Right, Node::Loop(vec![Node::Left])]),
            Node::Write,
        ]
    );
}

#[test]
fn parse_then_flatten_gives_tokens_back() {
    for src in ["", "+-<>,.", "[]", "[[[]]]", "+[->[<]].", "[-][+]>[<,.]"] {
        let p = parse(src.as_bytes()).unwrap();
        assert_eq!(to_tokens(&p), src.as_bytes().to_vec());
    }
}

#[test]
fn unmatched_brackets_fail() {
    assert_eq!(parse(b"["), Err(ParseError::UnmatchedOpen(0)));
    assert_eq!(parse(b"]"), Err(ParseError::UnmatchedClose(0)));
    assert_eq!(parse(b"[[]"), Err(ParseError::UnmatchedOpen(0)));
    assert_eq!(parse(b"[]]["), Err(ParseError::UnmatchedClose(2)));
    assert_eq!(parse(b"+[[-]"), Err(ParseError::UnmatchedOpen(1)));
    assert!(compile(b"x [ y").is_err());
}

#[test]
fn empty_program_is_entry_and_return() {
    let r = build(&vec![]);
    assert_eq!(
        r,
        Routine { blocks: vec![Block { instrs: vec![], term: Terminator::Return }] }
    );
    let out = run(&r, &[], 10);
    assert_eq!(out.halt, Halt::Returned);
    assert_eq!(out.trace, vec![]);
    assert_eq!(out.ptr, 0);
    assert_eq!(out.tape.len(), TAPE_LEN);
    assert!(out.tape.iter().all(|&b| b == 0));
}

#[test]
fn loop_lowers_to_test_body_exit() {
    let r = compile(b"+[-]>").unwrap();
    let test = Terminator::Branch { nonzero: 1, zero: 2 };
    assert_eq!(
        r.blocks,
        vec![
            Block { instrs: vec![Instr::CellInc], term: test },
            Block { instrs: vec![Instr::CellDec], term: test },
            Block { instrs: vec![Instr::PtrInc], term: Terminator::Return },
        ]
    );
}

#[test]
fn nested_loops_get_nested_block_pairs() {
    let r = compile(b"[>[<]]").unwrap();
    assert_eq!(r.blocks.len(), 5);
    assert_eq!(r.blocks[0].term, Terminator::Branch { nonzero: 1, zero: 2 });
    assert_eq!(r.blocks[1].instrs, vec![Instr::PtrInc]);
    assert_eq!(r.blocks[1].term, Terminator::Branch { nonzero: 3, zero: 4 });
    assert_eq!(r.blocks[3].instrs, vec![Instr::PtrDec]);
    assert_eq!(r.blocks[3].term, Terminator::Branch { nonzero: 3, zero: 4 });
    assert_eq!(r.blocks[4].term, Terminator::Branch { nonzero: 1, zero: 2 });
    assert_eq!(r.blocks[2].term, Terminator::Return);
}

#[test]
fn increment_wraps_from_255_to_0() {
    let up = "+".repeat(255);
    let out = exec(&up, &[], 10);
    assert_eq!(out.tape[0], 255);
    let out = exec(&format!("{}+", up), &[], 10);
    assert_eq!(out.halt, Halt::Returned);
    assert_eq!(out.tape[0], 0);
}

#[test]
fn decrement_wraps_from_0_to_255() {
    let out = exec("-", &[], 10);
    assert_eq!(out.halt, Halt::Returned);
    assert_eq!(out.tape[0], 255);
}

#[test]
fn clear_loop_zeroes_any_nonzero_cell() {
    for v in 1..=255usize {
        let src = format!("{}[-]", "+".repeat(v));
        let out = exec(&src, &[], 300);
        assert_eq!(out.halt, Halt::Returned);
        assert_eq!(out.tape[0], 0);
    }
}

#[test]
fn four_increments_then_output_prints_four() {
    let out = exec("+ + + + .", &[], 10);
    assert_eq!(out.halt, Halt::Returned);
    assert_eq!(out.trace, vec![Event::Output(4)]);
}

#[test]
fn input_then_output_echoes_the_byte() {
    let out = exec(", .", &[65], 10);
    assert_eq!(out.halt, Halt::Returned);
    assert_eq!(out.trace, vec![Event::Input(65), Event::Output(65)]);
}

#[test]
fn nested_empty_loop_spins_on_nonzero_cell() {
    let out = exec("+[[]-]", &[], 1000);
    assert_eq!(out.halt, Halt::OutOfFuel);
    assert_eq!(out.tape[0], 1);
}

#[test]
fn nested_loop_skipped_on_zero_cell() {
    let out = exec("[[]-]", &[], 10);
    assert_eq!(out.halt, Halt::Returned);
    assert_eq!(out.tape[0], 0);
}

#[test]
fn loop_output_follows_execution_order() {
    let out = exec("+++[.-]", &[], 100);
    assert_eq!(out.halt, Halt::Returned);
    assert_eq!(out.trace, vec![Event::Output(3), Event::Output(2), Event::Output(1)]);
}

#[test]
fn moving_left_of_the_tape_halts() {
    let out = exec(">+<<", &[], 10);
    assert_eq!(out.halt, Halt::PointerOutOfRange);
    assert_eq!(out.ptr, 0);
    assert_eq!(out.tape[1], 1);
}

#[test]
fn moving_right_of_the_tape_halts() {
    let out = exec("+[>+]", &[], 100_000);
    assert_eq!(out.halt, Halt::PointerOutOfRange);
    assert_eq!(out.ptr, TAPE_LEN - 1);
}

#[test]
fn reading_past_the_input_halts() {
    let out = exec(",.,", &[7], 10);
    assert_eq!(out.halt, Halt::InputExhausted);
    assert_eq!(out.trace, vec![Event::Input(7), Event::Output(7)]);
}

#[test]
fn endless_loop_runs_out_of_fuel() {
    let out = exec("+[]", &[], 50);
    assert_eq!(out.halt, Halt::OutOfFuel);
}

#[test]
fn branch_to_missing_block_halts() {
    let r = Routine {
        blocks: vec![Block { instrs: vec![], term: Terminator::Branch { nonzero: 9, zero: 9 } }],
    };
    let out = run(&r, &[], 10);
    assert_eq!(out.halt, Halt::BadBlock);
}
