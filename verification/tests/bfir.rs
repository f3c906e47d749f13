use bfc::bfir::AstNode::{Increment, Loop, PointerIncrement, Read, Write};
use bfc::bfir::{parse, Combine, Position};


#[test]
fn bfir_parse_increment() {
    assert_eq!(
        parse("+").unwrap(),
        [Increment {
            amount: 1,
            offset: 0,
            position: Some(Position { start: 0, end: 0 }),
        }]
    );
    assert_eq!(
        parse("++").unwrap(),
        [
            Increment {
                amount: 1,
                offset: 0,
                position: Some(Position { start: 0, end: 0 }),
            },
            Increment {
                amount: 1,
                offset: 0,
                position: Some(Position { start: 1, end: 1 }),
            }
        ]
    );
}

#[test]
fn bfir_parse_decrement() {
    assert_eq!(
        parse("-").unwrap(),
        [Increment {
            amount: -1,
            offset: 0,
            position: Some(Position { start: 0, end: 0 }),
        }]
    );
}

#[test]
fn bfir_parse_pointer_increment() {
    assert_eq!(
        parse(">").unwrap(),
        [PointerIncrement {
            amount: 1,
            position: Some(Position { start: 0, end: 0 }),
        }]
    );
}

#[test]
fn bfir_parse_pointer_decrement() {
    assert_eq!(
        parse("<").unwrap(),
        [PointerIncrement {
            amount: -1,
            position: Some(Position { start: 0, end: 0 }),
        }]
    );
}

#[test]
fn bfir_parse_read() {
    assert_eq!(
        parse(",").unwrap(),
        [Read {
            position: Some(Position { start: 0, end: 0 })
        }]
    );
}

#[test]
fn bfir_parse_write() {
    assert_eq!(
        parse(".").unwrap(),
        [Write {
            position: Some(Position { start: 0, end: 0 })
        }]
    );
}

#[test]
fn parse_empty_loop() {
    let expected = [Loop {
        body: vec![],
        position: Some(Position { start: 0, end: 1 }),
    }];
    assert_eq!(parse("[]").unwrap(), expected);
}

#[test]
fn parse_simple_loop() {
    let loop_body = vec![Increment {
        amount: 1,
        offset: 0,
        position: Some(Position { start: 1, end: 1 }),
    }];
    let expected = [Loop {
        body: loop_body,
        position: Some(Position { start: 0, end: 2 }),
    }];
    assert_eq!(parse("[+]").unwrap(), expected);
}

#[test]
fn parse_complex_loop() {
    let loop_body = vec![
        Read {
            position: Some(Position { start: 2, end: 2 }),
        },
        Increment {
            amount: 1,
            offset: 0,
            position: Some(Position { start: 3, end: 3 }),
        },
    ];
    let expected = [
        Write {
            position: Some(Position { start: 0, end: 0 }),
        },
        Loop {
            body: loop_body,
            position: Some(Position { start: 1, end: 4 }),
        },
        Increment {
            amount: -1,
            offset: 0,
            position: Some(Position { start: 5, end: 5 }),
        },
    ];
    assert_eq!(parse(".[,+]-").unwrap(), expected);
}

#[test]
fn parse_unbalanced_loop() {
    assert!(parse("[").is_err());
    assert!(parse("]").is_err());
    assert!(parse("][").is_err());
    assert!(parse("[][").is_err());
}

#[test]
fn bfir_parse_comment() {
    assert_eq!(parse("foo! ").unwrap(), []);
}

#[test]
fn test_combine_pos() {
    let pos1 = Some(Position { start: 1, end: 2 });
    let pos2 = Some(Position { start: 3, end: 4 });

    assert_eq!(pos1.combine(pos2), Some(Position { start: 1, end: 4 }));
}

#[test]
fn test_combine_order() {
    let pos1 = Some(Position { start: 3, end: 4 });
    let pos2 = Some(Position { start: 1, end: 2 });

    assert_eq!(pos1.combine(pos2), Some(Position { start: 1, end: 4 }));
}

#[test]
fn test_combine_pos_not_consecutive() {
    let pos1 = Some(Position { start: 1, end: 2 });
    let pos2 = Some(Position { start: 4, end: 5 });

    assert_eq!(pos1.combine(pos2), Some(Position { start: 4, end: 5 }));
}

#[test]
fn test_combine_pos_overlap() {
    let pos1 = Some(Position { start: 1, end: 1 });
    let pos2 = Some(Position { start: 1, end: 3 });

    assert_eq!(pos1.combine(pos2), Some(Position { start: 1, end: 3 }));
}
