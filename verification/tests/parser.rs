use brainfuck::parser::{link_brackets, parse, tokenize, ParseError};
use brainfuck::BfOp;
use brainfuck::BfOp::{Comma, Dot, Gt, LBracket, Lt, Minus, Plus, RBracket};

const HELLO: &str = "++++++++[>++++[>++>+++>+++>+<<<<-]>+>+>->>+[<]<-]>>.>---.+++++++..+++.>>.<-.<.+++.------.--------.>>+.>++.";

fn ops_of(code: &str) -> Vec<BfOp> {
    parse(code).expect("the source is a program").ops().to_vec()
}

fn error_of(code: &str) -> ParseError {
    parse(code).expect_err("the source is no program")
}

#[test]
fn from_byte_knows_the_eight_characters() {
    assert_eq!(BfOp::from_byte(b'>'), Some(Gt));
    assert_eq!(BfOp::from_byte(b'<'), Some(Lt));
    assert_eq!(BfOp::from_byte(b'+'), Some(Plus));
    assert_eq!(BfOp::from_byte(b'-'), Some(Minus));
    assert_eq!(BfOp::from_byte(b'.'), Some(Dot));
    assert_eq!(BfOp::from_byte(b','), Some(Comma));
    assert_eq!(BfOp::from_byte(b'['), Some(LBracket(0)));
    assert_eq!(BfOp::from_byte(b']'), Some(RBracket(0)));
}

#[test]
fn from_byte_rejects_every_other_byte() {
    let mut known = 0;
    for b in 0..=255u8 {
        if BfOp::from_byte(b).is_some() {
            known += 1;
            assert!(b"><+-.,[]".contains(&b));
        }
    }
    assert_eq!(known, 8);
}

#[test]
fn tokenize_keeps_instructions_in_order() {
    assert_eq!(
        tokenize(b"a>b<c+d-e.f,g[h]i"),
        vec![Gt, Lt, Plus, Minus, Dot, Comma, LBracket(0), RBracket(0)]
    );
    assert_eq!(tokenize(b""), vec![]);
    assert_eq!(tokenize(b"no instructions here"), vec![]);
}

#[test]
fn link_brackets_overwrites_whatever_the_brackets_carried() {
    let program = link_brackets(vec![LBracket(7), Plus, RBracket(9)]).unwrap();
    assert_eq!(program.ops(), &[LBracket(2), Plus, RBracket(0)]);
}

#[test]
fn link_brackets_reports_unmatched_brackets() {
    assert_eq!(
        link_brackets(vec![RBracket(0)]).unwrap_err(),
        ParseError::UnmatchedRightBracket
    );
    assert_eq!(
        link_brackets(vec![LBracket(0)]).unwrap_err(),
        ParseError::UnmatchedLeftBracket
    );
}

#[test]
fn parse_maps_each_character() {
    assert_eq!(ops_of("><+-.,"), vec![Gt, Lt, Plus, Minus, Dot, Comma]);
}

#[test]
fn lone_left_bracket_is_unmatched() {
    assert_eq!(error_of("["), ParseError::UnmatchedLeftBracket);
}

#[test]
fn lone_right_bracket_is_unmatched() {
    assert_eq!(error_of("]"), ParseError::UnmatchedRightBracket);
}

#[test]
fn single_pair_is_resolved_to_each_other() {
    assert_eq!(ops_of("[]"), vec![LBracket(1), RBracket(0)]);
}

#[test]
fn nested_and_adjacent_pairs() {
    assert_eq!(
        ops_of("[[]][]"),
        vec![
            LBracket(3),
            LBracket(2),
            RBracket(1),
            RBracket(0),
            LBracket(5),
            RBracket(4)
        ]
    );
    assert_eq!(
        ops_of("+[-[>]<]."),
        vec![
            Plus,
            LBracket(7),
            Minus,
            LBracket(5),
            Gt,
            RBracket(3),
            Lt,
            RBracket(1),
            Dot
        ]
    );
}

#[test]
fn closing_before_opening_is_an_unmatched_right_bracket() {
    assert_eq!(error_of("]["), ParseError::UnmatchedRightBracket);
    assert_eq!(error_of("[]]"), ParseError::UnmatchedRightBracket);
    assert_eq!(error_of("+]+[+"), ParseError::UnmatchedRightBracket);
}

#[test]
fn right_bracket_wins_over_a_left_bracket_still_open() {
    assert_eq!(error_of("[[]]]["), ParseError::UnmatchedRightBracket);
    assert_eq!(error_of("[]][["), ParseError::UnmatchedRightBracket);
}

#[test]
fn left_bracket_open_at_the_end() {
    assert_eq!(error_of("[[]"), ParseError::UnmatchedLeftBracket);
    assert_eq!(error_of("[][+"), ParseError::UnmatchedLeftBracket);
    assert_eq!(error_of("[[[[]]]"), ParseError::UnmatchedLeftBracket);
}

#[test]
fn other_bytes_are_inert() {
    let plain = ops_of("+[->+<]>.");
    assert_eq!(ops_of("+ [ - > + < ] > ."), plain);
    assert_eq!(ops_of("add: +\nloop [\n\t-\t>\t+\t<\n]\nprint >. done"), plain);
    assert_eq!(ops_of("\u{e9}+\u{4e16}[-\u{1f600}>+<]>.\u{0}"), plain);
    assert_eq!(plain.len(), 9);
}

#[test]
fn other_bytes_do_not_hide_errors() {
    assert_eq!(error_of("x[y"), ParseError::UnmatchedLeftBracket);
    assert_eq!(error_of("x]y"), ParseError::UnmatchedRightBracket);
}

#[test]
fn empty_and_comment_only_sources_are_empty_programs() {
    assert_eq!(ops_of(""), vec![]);
    assert_eq!(ops_of("hello, world? no: the comma counts"), vec![Comma]);
    assert_eq!(ops_of("nothing to see here\n\t 0123456789"), vec![]);
    assert_eq!(parse("").unwrap().len(), 0);
    assert_eq!(parse("").unwrap().get(0), None);
}

#[test]
fn program_length_counts_instruction_characters() {
    let program = parse(HELLO).unwrap();
    let expected = HELLO.bytes().filter(|b| b"><+-.,[]".contains(b)).count();
    assert_eq!(program.len(), expected);
    assert_eq!(program.len(), 106);
    assert_eq!(program.get(0), Some(Plus));
    assert_eq!(program.get(8), Some(LBracket(48)));
    assert_eq!(program.get(48), Some(RBracket(8)));
    assert_eq!(program.get(106), None);
}

#[test]
fn brackets_of_a_program_refer_to_each_other() {
    for code in [HELLO, "[[]][]", "+[-[>]<].", "[[[[[]]]]]", ",[.,]"] {
        let ops = ops_of(code);
        let mut brackets = 0;
        for (i, op) in ops.iter().enumerate() {
            match *op {
                LBracket(j) => {
                    assert!(i < j);
                    assert_eq!(ops[j], RBracket(i));
                    brackets += 1;
                }
                RBracket(j) => {
                    assert!(j < i);
                    assert_eq!(ops[j], LBracket(i));
                    brackets += 1;
                }
                _ => {}
            }
        }
        let expected = code.bytes().filter(|b| *b == b'[' || *b == b']').count();
        assert_eq!(brackets, expected);
    }
}

#[test]
fn parsing_is_deterministic() {
    assert_eq!(ops_of(HELLO), ops_of(HELLO));
    assert_eq!(error_of("[[]"), error_of("[[]"));
}

#[test]
fn errors_describe_themselves() {
    assert_eq!(
        ParseError::UnmatchedLeftBracket.message(),
        "Unmatched left bracket"
    );
    assert_eq!(
        ParseError::UnmatchedRightBracket.message(),
        "Unmatched right bracket"
    );
}
