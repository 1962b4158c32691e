//! The parser: one left-to-right pass over the program bytes with a
//! bracket-matching stack, tracking a 1-based line and column for error
//! reports.
//!
//! The scan is specified by [`p_scan`]; `parse` is proved to return exactly
//! the tree (or the error message) that the specification denotes.

use vstd::prelude::*;

use vstd::string::StringExecFns;

use crate::structs::{
    lemma_ops_view_push, op_view, ops_view, Op, OpStream, SOp,
};

verus! {

/// The scanner's state: the bodies of the loops still open (outermost
/// first), the instructions of the innermost one, and the position of the
/// next byte.
pub ghost struct PState {
    pub stack: Seq<Seq<SOp>>,
    pub cur: Seq<SOp>,
    pub line: u64,
    pub col: u64,
}

/// A syntax error: a closing bracket with no opening one, or an opening
/// bracket never closed, each at a 1-based line and column.
pub ghost enum PErr {
    Stray(u64, u64),
    Missing(u64, u64),
}

/// Increment a position counter; it pins at the largest representable
/// value rather than wrap.
pub open spec fn sat_inc(x: u64) -> u64 {
    if x == u64::MAX {
        x
    } else {
        (x + 1) as u64
    }
}

/// The scanner's starting state: nothing open, line 1, column 1.
pub open spec fn p_init() -> PState {
    PState { stack: Seq::empty(), cur: Seq::empty(), line: 1, col: 1 }
}

/// Consume one byte: the six instruction characters build the tree, the
/// brackets open and close loops, anything else is a comment; a newline
/// advances the line, anything else the column. A stray closing bracket
/// reports the position it stands at.
pub open spec fn p_char(st: PState, c: u8) -> Result<PState, PErr> {
    let line2 = if c == 10 {
        sat_inc(st.line)
    } else {
        st.line
    };
    let col2 = if c == 10 {
        1u64
    } else {
        sat_inc(st.col)
    };
    if c == 43 {  // '+'
        Ok(PState { cur: st.cur.push(SOp::Add(1)), line: line2, col: col2, ..st })
    } else if c == 45 {  // '-'
        Ok(PState { cur: st.cur.push(SOp::Add(255)), line: line2, col: col2, ..st })
    } else if c == 62 {  // '>'
        Ok(PState { cur: st.cur.push(SOp::Mov(1)), line: line2, col: col2, ..st })
    } else if c == 60 {  // '<'
        Ok(PState { cur: st.cur.push(SOp::Mov(-1isize)), line: line2, col: col2, ..st })
    } else if c == 46 {  // '.'
        Ok(PState { cur: st.cur.push(SOp::Out), line: line2, col: col2, ..st })
    } else if c == 44 {  // ','
        Ok(PState { cur: st.cur.push(SOp::In), line: line2, col: col2, ..st })
    } else if c == 91 {  // '['
        Ok(PState { stack: st.stack.push(st.cur), cur: Seq::empty(), line: line2, col: col2 })
    } else if c == 93 {  // ']'
        if st.stack.len() == 0 {
            Err(PErr::Stray(st.line, st.col))
        } else {
            Ok(
                PState {
                    stack: st.stack.drop_last(),
                    cur: st.stack.last().push(SOp::Loop(st.cur)),
                    line: line2,
                    col: col2,
                },
            )
        }
    } else {
        Ok(PState { line: line2, col: col2, ..st })
    }
}

/// The scanner's state after the first `i` bytes of the text.
pub open spec fn p_scan(text: Seq<u8>, i: int) -> Result<PState, PErr>
    decreases i,
{
    if i <= 0 {
        Ok(p_init())
    } else {
        match p_scan(text, i - 1) {
            Err(e) => Err(e),
            Ok(st) => p_char(st, text[i - 1]),
        }
    }
}

/// What parsing the whole text denotes: the instructions gathered at the
/// top level, or the first stray closing bracket, or — when loops stay
/// open at the end — a missing bracket reported at the final position.
pub open spec fn parse_s(text: Seq<u8>) -> Result<Seq<SOp>, PErr> {
    match p_scan(text, text.len() as int) {
        Err(e) => Err(e),
        Ok(st) => if st.stack.len() == 0 {
            Ok(st.cur)
        } else {
            Err(PErr::Missing(st.line, st.col))
        },
    }
}

/// The decimal digits of `n`, most significant first.
pub open spec fn dec_str(n: nat) -> Seq<char>
    decreases n,
{
    let d = digit_char(n % 10);
    if n < 10 {
        seq![d]
    } else {
        dec_str(n / 10).push(d)
    }
}

/// The character of one decimal digit.
pub open spec fn digit_char(d: nat) -> char {
    if d == 0 {
        '0'
    } else if d == 1 {
        '1'
    } else if d == 2 {
        '2'
    } else if d == 3 {
        '3'
    } else if d == 4 {
        '4'
    } else if d == 5 {
        '5'
    } else if d == 6 {
        '6'
    } else if d == 7 {
        '7'
    } else if d == 8 {
        '8'
    } else {
        '9'
    }
}

/// The rendered position, as the error messages carry it.
pub open spec fn pos_str(line: u64, col: u64) -> Seq<char> {
    "line "@ + dec_str(line as nat) + ", column "@ + dec_str(col as nat)
}

/// The message text of a syntax error.
pub open spec fn err_msg(e: PErr) -> Seq<char> {
    match e {
        PErr::Stray(line, col) => "Stray ] at "@ + pos_str(line, col),
        PErr::Missing(line, col) => "Missing ] at "@ + pos_str(line, col),
    }
}

/// An error found after `i` bytes is the scan's final answer.
proof fn lemma_p_scan_err(text: Seq<u8>, i: int, j: int)
    requires
        0 <= i <= j,
        p_scan(text, i) is Err,
    ensures
        p_scan(text, j) == p_scan(text, i),
    decreases j - i,
{
    if j > i {
        lemma_p_scan_err(text, i, j - 1);
    }
}

/// The view of a stack of instruction vectors, element by element.
pub open spec fn stacks_view(s: Seq<Vec<Op>>) -> Seq<Seq<SOp>>
    decreases s.len(),
{
    if s.len() == 0 {
        Seq::empty()
    } else {
        stacks_view(s.drop_last()).push(ops_view(s.last()@))
    }
}

/// Viewing a stack commutes with push and pop.
proof fn lemma_stacks_view_push(s: Seq<Vec<Op>>, x: Vec<Op>)
    ensures
        stacks_view(s.push(x)) == stacks_view(s).push(ops_view(x@)),
{
    assert(s.push(x).drop_last() =~= s);
}

/// The view of a non-empty stack keeps its length, last element and front.
proof fn lemma_stacks_view_drop_last(s: Seq<Vec<Op>>)
    requires
        s.len() > 0,
    ensures
        stacks_view(s).len() == s.len(),
        stacks_view(s.drop_last()) == stacks_view(s).drop_last(),
        stacks_view(s).last() == ops_view(s.last()@),
    decreases s.len(),
{
    if s.drop_last().len() > 0 {
        lemma_stacks_view_drop_last(s.drop_last());
    }
    assert(stacks_view(s).drop_last() =~= stacks_view(s.drop_last()));
}

/// The empty stack has the empty view.
proof fn lemma_stacks_view_len(s: Seq<Vec<Op>>)
    ensures
        stacks_view(s).len() == s.len(),
    decreases s.len(),
{
    if s.len() > 0 {
        lemma_stacks_view_len(s.drop_last());
    }
}

/// Append one decimal digit's character.
fn append_digit(s: &mut String, d: u8)
    requires
        d < 10,
    ensures
        final(s)@ == old(s)@.push(digit_char(d as nat)),
{
    let t: &str = if d == 0 {
        "0"
    } else if d == 1 {
        "1"
    } else if d == 2 {
        "2"
    } else if d == 3 {
        "3"
    } else if d == 4 {
        "4"
    } else if d == 5 {
        "5"
    } else if d == 6 {
        "6"
    } else if d == 7 {
        "7"
    } else if d == 8 {
        "8"
    } else {
        "9"
    };
    proof {
        reveal_strlit("0");
        reveal_strlit("1");
        reveal_strlit("2");
        reveal_strlit("3");
        reveal_strlit("4");
        reveal_strlit("5");
        reveal_strlit("6");
        reveal_strlit("7");
        reveal_strlit("8");
        reveal_strlit("9");
        assert(old(s)@ + t@ =~= old(s)@.push(digit_char(d as nat)));
    }
    s.append(t);
}

/// Append `n` in decimal.
fn append_dec(s: &mut String, n: u64)
    ensures
        final(s)@ == old(s)@ + dec_str(n as nat),
    decreases n,
{
    if n >= 10 {
        append_dec(s, n / 10);
    }
    append_digit(s, (n % 10) as u8);
    proof {
        if n < 10 {
            assert(old(s)@.push(digit_char((n % 10) as nat)) =~= old(s)@ + dec_str(n as nat));
        } else {
            assert((old(s)@ + dec_str((n / 10) as nat)).push(digit_char((n % 10) as nat)) =~= old(
                s,
            )@ + dec_str(n as nat));
        }
    }
}

/// Render a syntax error's message: the given lead-in, then the position.
fn msg_with_pos(prefix: &str, line: u64, col: u64) -> (r: String)
    ensures
        r@ == prefix@ + pos_str(line, col),
{
    let mut s = String::new();
    s.append(prefix);
    s.append("line ");
    append_dec(&mut s, line);
    s.append(", column ");
    append_dec(&mut s, col);
    proof {
        assert(s@ =~= prefix@ + pos_str(line, col));
    }
    s
}

/// Parse program bytes into an instruction tree, or report the first
/// bracket error with its 1-based line and column, as [`parse_s`] says.
pub fn parse(text: &[u8]) -> (r: Result<Vec<Op>, String>)
    ensures
        match parse_s(text@) {
            Ok(v) => r is Ok && ops_view(r->Ok_0@) == v,
            Err(e) => r is Err && r->Err_0@ == err_msg(e),
        },
{
    let mut stack: Vec<Vec<Op>> = Vec::new();
    let mut current: Vec<Op> = Vec::new();
    let mut line: u64 = 1;
    let mut col: u64 = 1;
    let mut i: usize = 0;
    while i < text.len()
        invariant
            i <= text@.len(),
            p_scan(text@, i as int) == Ok::<PState, PErr>(
                PState {
                    stack: stacks_view(stack@),
                    cur: ops_view(current@),
                    line: line,
                    col: col,
                },
            ),
        decreases text@.len() - i,
    {
        let c = text[i];
        let ghost st = PState {
            stack: stacks_view(stack@),
            cur: ops_view(current@),
            line: line,
            col: col,
        };
        match c {
            43 => {
                proof {
                    lemma_ops_view_push(current@, Op::Add(0x01));
                }
                current.push(Op::Add(0x01));
            },
            45 => {
                proof {
                    lemma_ops_view_push(current@, Op::Add(0xff));
                }
                current.push(Op::Add(0xff));
            },
            62 => {
                proof {
                    lemma_ops_view_push(current@, Op::Mov(1));
                }
                current.push(Op::Mov(1));
            },
            60 => {
                proof {
                    lemma_ops_view_push(current@, Op::Mov(-1isize));
                }
                current.push(Op::Mov(-1isize));
            },
            46 => {
                proof {
                    lemma_ops_view_push(current@, Op::Out);
                }
                current.push(Op::Out);
            },
            44 => {
                proof {
                    lemma_ops_view_push(current@, Op::In);
                }
                current.push(Op::In);
            },
            91 => {
                proof {
                    lemma_stacks_view_push(stack@, current);
                }
                stack.push(current);
                current = Vec::new();
            },
            93 => {
                let ghost stack0 = stack@;
                let ghost cur0 = current@;
                match stack.pop() {
                    None => {
                        proof {
                            lemma_stacks_view_len(stack@);
                            assert(p_scan(text@, i as int + 1) == Err::<PState, PErr>(
                                PErr::Stray(line, col),
                            ));
                            lemma_p_scan_err(text@, i as int + 1, text@.len() as int);
                        }
                        return Err(msg_with_pos("Stray ] at ", line, col));
                    },
                    Some(prev) => {
                        let node = Op::Loop(OpStream { ops: current });
                        proof {
                            lemma_stacks_view_drop_last(stack0);
                            lemma_ops_view_push(prev@, node);
                        }
                        current = prev;
                        current.push(node);
                    },
                }
            },
            _ => {},
        }
        if c == 10 {
            if line != u64::MAX {
                line = line + 1;
            }
            col = 1;
        } else {
            if col != u64::MAX {
                col = col + 1;
            }
        }
        i = i + 1;
    }
    proof {
        lemma_stacks_view_len(stack@);
    }
    if stack.len() == 0 {
        Ok(current)
    } else {
        Err(msg_with_pos("Missing ] at ", line, col))
    }
}

} // verus!
