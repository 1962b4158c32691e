use brainrust::runner::State;
use brainrust::structs::Op::{Add, In, Loop, Mov, Out, Transfer};
use brainrust::structs::OpStream;

#[test]
fn test_state_index() {
    let mut state = State::new(vec![], vec![]);
    state.set_cell(0, 23);
    state.set_cell(5, 42);
    assert_eq!(23, state.cell_at(0));
    state.index = 5;
    assert_eq!(42, state.cell_at(0));
}

#[test]
fn test_state_index_mut() {
    let mut state = State::new(vec![], vec![]);
    state.set_cell(0, 23);
    assert_eq!(Some(&23), state.memory.get(&state.index));
    state.index = 5;
    state.set_cell(0, 42);
    assert_eq!(Some(&42), state.memory.get(&state.index));
}

#[test]
fn test_state_run() {
    let mut state = State::new(vec![], vec![]);
    let result = state.run(&vec![Add(1), Add(1)]);
    assert_eq!(true, result);
    assert_eq!(2, state.cell_at(0));
}

#[test]
fn test_state_run_stop() {
    let mut state = State::new(vec![], vec![]);
    let result = state.run(&vec![Add(1), In]);
    assert_eq!(false, result);
    assert_eq!(1, state.cell_at(0));
}

#[test]
fn test_state_run_nested_stop() {
    let mut state = State::new(vec![], vec![]);
    state.set_cell(0, 1);
    let result = state.run(&vec![Loop(OpStream { ops: vec![Add(1), In] })]);
    assert_eq!(false, result);
    assert_eq!(2, state.cell_at(0));
}

#[test]
fn test_state_step_add() {
    let mut state = State::new(vec![], vec![]);
    state.step(&Add(23));
    assert_eq!(23, state.cell_at(0));
    state.step(&Add(42));
    assert_eq!(65, state.cell_at(0));
    state.step(&Add(190));
    assert_eq!(255, state.cell_at(0));
}

#[test]
fn test_state_step_mov() {
    let mut state = State::new(vec![], vec![]);
    state.step(&Mov(1));
    assert_eq!(1, state.index);
    state.step(&Mov(42));
    assert_eq!(43, state.index);
    state.step(&Mov(-1));
    assert_eq!(42, state.index);
}

#[test]
fn test_state_step_loop() {
    let mut state = State::new(vec![], vec![]);
    state.set_cell(0, 23);
    state.step(&Loop(OpStream { ops: vec![Add(1)] }));
    assert_eq!(0, state.cell_at(0));
}

#[test]
fn test_state_step_transfer() {
    let mut state = State::new(vec![], vec![]);
    state.set_cell(0, 15);
    state.set_cell(1, 7);
    state.step(&Transfer(5, vec![(1, 2)]));
    assert_eq!(0, state.cell_at(0));
    assert_eq!(1, state.cell_at(1));
}

#[test]
fn test_state_step_transfer_noiteration() {
    let mut state = State::new(vec![], vec![]);
    state.set_cell(0, 0);
    state.step(&Transfer(5, vec![(1, 2)]));
    assert_eq!(0, state.cell_at(0));
}

#[test]
fn test_state_step_input() {
    let mut state = State::new(vec![23u8], vec![]);
    let result = state.step(&In);
    assert_eq!(true, result);
    assert_eq!(23, state.cell_at(0));
}

#[test]
fn test_state_step_input_eof() {
    let mut state = State::new(vec![], vec![]);
    let result = state.step(&In);
    assert_eq!(false, result);
}

#[test]
fn test_state_step_output() {
    let mut state = State::new(vec![], vec![]);
    state.set_cell(0, 42);
    state.step(&Out);
    assert_eq!(vec![42u8], state.output);
}

#[test]
fn test_state_negative_cursor() {
    // the tape is unbounded on both sides: cells left of the start hold
    // zero and can be written
    let mut state = State::new(vec![], vec![]);
    state.step(&Mov(-3));
    assert_eq!(-3, state.index);
    assert_eq!(0, state.cell_at(0));
    state.step(&Add(9));
    assert_eq!(9, state.cell_at(0));
    state.step(&Mov(3));
    assert_eq!(9, state.cell_at(-3));
}
