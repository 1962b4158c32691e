use brainrust::structs::Op::{Add, Loop, Mov, Transfer};
use brainrust::structs::OpStream;

#[test]
fn test_opstream_optimize() {
    let mut opstream = OpStream {
        ops: vec![
            Add(0),
            Mov(0),
            Mov(1),
            Mov(1),
            Add(0x01),
            Add(0xff),
            Add(0xff),
            Mov(1),
            Mov(-1),
            Loop(OpStream {
                ops: vec![Add(0), Mov(2), Mov(3), Mov(0)],
            }),
        ],
    };
    opstream.optimize();

    assert_eq!(
        opstream,
        OpStream {
            ops: vec![Mov(2), Add(0xff), Loop(OpStream { ops: vec![Mov(5)] })]
        }
    );
}

#[test]
fn test_opstream_optimize_transfer() {
    let mut opstream = OpStream {
        ops: vec![Loop(OpStream {
            ops: vec![Add(0x01), Mov(3), Add(0xff), Mov(-3)],
        })],
    };
    opstream.optimize();

    assert_eq!(
        opstream,
        OpStream {
            ops: vec![Transfer(1, vec![(3, 255)])]
        }
    );
}

#[test]
fn test_optimize_fuses_adjacent_adds() {
    let mut opstream = OpStream {
        ops: vec![Add(1), Add(1)],
    };
    opstream.optimize();
    assert_eq!(opstream, OpStream { ops: vec![Add(2)] });
}

#[test]
fn test_optimize_fuses_adjacent_movs() {
    let mut opstream = OpStream {
        ops: vec![Mov(1), Mov(1)],
    };
    opstream.optimize();
    assert_eq!(opstream, OpStream { ops: vec![Mov(2)] });
}

#[test]
fn test_optimize_drops_cancelling_adds() {
    let mut opstream = OpStream {
        ops: vec![Add(1), Add(255)],
    };
    opstream.optimize();
    assert_eq!(opstream, OpStream { ops: vec![] });
}

#[test]
fn test_optimize_twice_is_once() {
    let mut once = OpStream {
        ops: vec![
            Add(3),
            Mov(0),
            Loop(OpStream {
                ops: vec![Add(1), Mov(2), Add(5), Mov(-2), Add(255)],
            }),
            Mov(4),
            Mov(-4),
        ],
    };
    once.optimize();
    let mut twice = OpStream {
        ops: vec![
            Add(3),
            Mov(0),
            Loop(OpStream {
                ops: vec![Add(1), Mov(2), Add(5), Mov(-2), Add(255)],
            }),
            Mov(4),
            Mov(-4),
        ],
    };
    twice.optimize();
    twice.optimize();
    assert_eq!(once, twice);
}

#[test]
fn test_optimize_empty_loop_becomes_stalling_transfer() {
    // an empty loop spins forever on a non-zero cell; its closed form is a
    // transfer with counter delta zero and no targets
    let mut opstream = OpStream {
        ops: vec![Loop(OpStream { ops: vec![] })],
    };
    opstream.optimize();
    assert_eq!(
        opstream,
        OpStream {
            ops: vec![Transfer(0, vec![])]
        }
    );
}

#[test]
fn test_optimize_keeps_moving_loop() {
    // net displacement is non-zero, so the loop is not convertible
    let mut opstream = OpStream {
        ops: vec![Loop(OpStream {
            ops: vec![Add(255), Mov(1)],
        })],
    };
    opstream.optimize();
    assert_eq!(
        opstream,
        OpStream {
            ops: vec![Loop(OpStream {
                ops: vec![Add(255), Mov(1)]
            })]
        }
    );
}

#[test]
fn test_optimize_transfer_targets_ascending() {
    // targets come out in ascending offset order whatever the body's order
    let mut opstream = OpStream {
        ops: vec![Loop(OpStream {
            ops: vec![
                Mov(2),
                Add(7),
                Mov(-3),
                Add(3),
                Mov(1),
                Add(255),
            ],
        })],
    };
    opstream.optimize();
    assert_eq!(
        opstream,
        OpStream {
            ops: vec![Transfer(255, vec![(-1, 3), (2, 7)])]
        }
    );
}
