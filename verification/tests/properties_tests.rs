use brainrust::llvm_runner::LlvmState;
use brainrust::parser::parse;
use brainrust::runner::State;
use brainrust::structs::OpStream;

fn interpreter_cells(text: &[u8], optimize: bool, width: isize) -> Vec<u8> {
    let ops = parse(text).unwrap();
    let mut stream = OpStream { ops };
    if optimize {
        stream.optimize();
    }
    let mut state = State::new(vec![], vec![]);
    assert!(state.run(stream.get()));
    let mut cells = Vec::new();
    let back = state.index;
    let mut i: isize = 0;
    while i < width {
        cells.push(state.cell_at(i - back));
        i += 1;
    }
    cells
}

fn interpreter_output(text: &[u8], input: Vec<u8>, optimize: bool) -> Vec<u8> {
    let ops = parse(text).unwrap();
    let mut stream = OpStream { ops };
    if optimize {
        stream.optimize();
    }
    let mut state = State::new(input, vec![]);
    state.run(stream.get());
    state.output
}

fn native_output(text: &[u8], input: Vec<u8>) -> Vec<u8> {
    let ops = parse(text).unwrap();
    let stream = OpStream { ops };
    let mut state = LlvmState::new(input, vec![], false);
    assert!(state.run(stream.get()));
    state.output
}

#[test]
fn test_optimized_tape_matches_unoptimized() {
    // pure add/move/loop programs leave the same tape with and without the
    // optimizer
    for text in [
        &b"++[>+++<-]"[..],
        &b"+++++[->++<]>[-<+>]"[..],
        &b">>++++[<++++[<+>-]>-]"[..],
        &b"++[>+<--]"[..],
    ] {
        let plain = interpreter_cells(text, false, 8);
        let optimized = interpreter_cells(text, true, 8);
        assert_eq!(plain, optimized);
    }
}

#[test]
fn test_backends_agree_on_output() {
    // for transfer-free trees, the interpreter (optimized or not) and the
    // graph backend write the same bytes
    for (text, input) in [
        (&b"++[>+++<-]>."[..], vec![]),
        (&b">+++[<++>-]<."[..], vec![]),
        (&b"+++.>."[..], vec![]),
        (&b",.,."[..], vec![7u8, 9u8]),
        (&b",[.,]"[..], vec![3u8, 2u8, 1u8]),
    ] {
        let plain = interpreter_output(text, input.clone(), false);
        let optimized = interpreter_output(text, input.clone(), true);
        let native = native_output(text, input);
        assert_eq!(plain, optimized);
        assert_eq!(plain, native);
    }
}

#[test]
fn test_native_new_zero_tape() {
    let state = LlvmState::new(vec![], vec![], true);
    assert_eq!(30000, state.memory.len());
    assert!(state.memory.iter().all(|c| *c == 0));
    assert!(state.optimize);
}

#[test]
fn test_native_early_exit_on_eof() {
    // the add before the failing read still took effect; the compiled
    // function returns through its early-exit path
    let mut state = LlvmState::new(vec![], vec![], false);
    let ops = parse(b"+,.").unwrap();
    let stream = OpStream { ops };
    assert!(state.run(stream.get()));
    assert_eq!(1, state.memory[0]);
    assert_eq!(Vec::<u8>::new(), state.output);
}

#[test]
fn test_native_wraps_cursor_at_tape_edge() {
    // the fixed tape wraps an out-of-range cursor into range: the register
    // value -1 reinterpreted as unsigned and reduced modulo 30000 is 21615
    let mut state = LlvmState::new(vec![], vec![], false);
    let ops = parse(b"<+++").unwrap();
    let stream = OpStream { ops };
    assert!(state.run(stream.get()));
    assert_eq!(3, state.memory[21615]);
}

#[test]
fn test_transfer_scales_by_iteration_count() {
    // cell0 = 20 reaches zero in five passes of -4; each pass adds 3 at
    // offset 2, so cell2 gains 15
    let mut state = State::new(vec![], vec![]);
    state.set_cell(0, 20);
    state.step(&brainrust::structs::Op::Transfer(252, vec![(2, 3)]));
    assert_eq!(0, state.cell_at(0));
    assert_eq!(15, state.cell_at(2));
}
