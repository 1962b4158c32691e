use brainrust::parser::parse;
use brainrust::structs::Op::{Add, In, Loop, Mov, Out};
use brainrust::structs::OpStream;

#[test]
fn test_parse() {
    let input = b"+>-[+.,]+<";
    assert_eq!(
        parse(input),
        Ok(vec![
            Add(0x01),
            Mov(1),
            Add(0xff),
            Loop(OpStream {
                ops: vec![Add(1), Out, In]
            }),
            Add(0x01),
            Mov(-1)
        ])
    );
}

#[test]
fn test_parse_empty() {
    assert_eq!(parse(b""), Ok(vec![]));
}

#[test]
fn test_parse_stray() {
    // a stray closing bracket on the third line, third column
    let input = b"++\n++\n++]\n";
    assert_eq!(parse(input), Err("Stray ] at line 3, column 3".into()));
}

#[test]
fn test_parse_incomplete() {
    // a loop opened on the first line and never closed; the report points
    // at the position after the final newline
    let input = b"[\n-\n-\n";
    assert_eq!(parse(input), Err("Missing ] at line 4, column 1".into()));
}

#[test]
fn test_parse_tree_shape() {
    assert_eq!(
        parse(b"+-[+.,]+"),
        Ok(vec![
            Add(1),
            Add(255),
            Loop(OpStream {
                ops: vec![Add(1), Out, In]
            }),
            Add(1)
        ])
    );
}

#[test]
fn test_parse_ignores_comments() {
    assert_eq!(parse(b"a + b - c"), Ok(vec![Add(1), Add(255)]));
}

#[test]
fn test_parse_stray_wide_column() {
    // a column past nine, so the report carries a two-digit number
    let input = b"++++++++++]";
    assert_eq!(parse(input), Err("Stray ] at line 1, column 11".into()));
}

#[test]
fn test_parse_nested_loops() {
    assert_eq!(
        parse(b"[[-]>]"),
        Ok(vec![Loop(OpStream {
            ops: vec![
                Loop(OpStream {
                    ops: vec![Add(255)]
                }),
                Mov(1)
            ]
        })])
    );
}
