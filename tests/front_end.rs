use stackofstacks::expander::{code_len, evaluate, expand, parse, push_code, MacroErrorKind};
use stackofstacks::labels::LabelTable;
use stackofstacks::lexer::{tokenise, LexError, Token};

fn bytes(s: &str) -> Vec<u8> {
    s.as_bytes().to_vec()
}

fn describe(tokens: &[Token]) -> Vec<(char, Vec<u8>)> {
    tokens
        .iter()
        .map(|t| match t {
            Token::Script(v) => ('s', v.clone()),
            Token::Macro(v) => ('m', v.clone()),
            Token::Label(v) => ('l', v.clone()),
        })
        .collect()
}

fn table(entries: &[(&str, usize)]) -> LabelTable {
    let mut t = LabelTable::new();
    for (n, o) in entries {
        t.insert(bytes(n), *o);
    }
    t
}

#[test]
fn tokenise_splits_scripts_macros_and_labels() {
    let tokens = tokenise(&bytes("!! [12]:loop.")).unwrap();
    assert_eq!(
        describe(&tokens),
        vec![
            ('s', bytes("!!")),
            ('m', bytes("12")),
            ('s', vec![]),
            ('l', bytes("loop")),
            ('s', bytes(".")),
        ]
    );
}

#[test]
fn tokenise_redispatches_byte_after_label() {
    let tokens = tokenise(&bytes(":a!")).unwrap();
    assert_eq!(describe(&tokens), vec![('s', vec![]), ('l', bytes("a")), ('s', bytes("!"))]);
    let tokens = tokenise(&bytes(":a[1]")).unwrap();
    assert_eq!(
        describe(&tokens),
        vec![('s', vec![]), ('l', bytes("a")), ('s', vec![]), ('m', bytes("1")), ('s', vec![])]
    );
}

#[test]
fn tokenise_label_at_end_of_input() {
    let tokens = tokenise(&bytes("!:end")).unwrap();
    assert_eq!(describe(&tokens), vec![('s', bytes("!")), ('l', bytes("end"))]);
}

#[test]
fn tokenise_strips_comments() {
    let tokens = tokenise(&bytes("!# push [1] here\n.")).unwrap();
    assert_eq!(describe(&tokens), vec![('s', bytes("!."))]);
}

#[test]
fn tokenise_drops_script_before_final_unterminated_comment() {
    let tokens = tokenise(&bytes("!.# no newline")).unwrap();
    assert!(tokens.is_empty());
}

#[test]
fn tokenise_skips_other_bytes() {
    let tokens = tokenise(&bytes("a b\tc!2")).unwrap();
    assert_eq!(describe(&tokens), vec![('s', bytes("!"))]);
}

#[test]
fn tokenise_empty_source() {
    let tokens = tokenise(&vec![]).unwrap();
    assert_eq!(describe(&tokens), vec![('s', vec![])]);
}

#[test]
fn tokenise_reports_non_ascii_position() {
    let src = vec![b'!', b'\n', b'.', b'\r', b'.', 0xC3, 0xA9];
    assert_eq!(tokenise(&src).unwrap_err(), LexError::NonAscii { line: 2, column: 3 });
    assert_eq!(tokenise(&vec![0x80]).unwrap_err(), LexError::NonAscii { line: 1, column: 1 });
}

#[test]
fn tokenise_non_ascii_inside_comment_is_refused() {
    let src = vec![b'#', 0xFF, b'\n'];
    assert_eq!(tokenise(&src).unwrap_err(), LexError::NonAscii { line: 1, column: 2 });
}

#[test]
fn tokenise_unclosed_macro() {
    assert_eq!(tokenise(&bytes("![12")).unwrap_err(), LexError::UnclosedMacro);
}

#[test]
fn evaluate_arithmetic() {
    let t = table(&[]);
    assert_eq!(evaluate(&bytes("65"), &t), Ok(65));
    assert_eq!(evaluate(&bytes("10-3+2"), &t), Ok(9));
    assert_eq!(evaluate(&bytes("-5"), &t), Ok(-5));
    assert_eq!(evaluate(&bytes("+7"), &t), Ok(7));
    assert_eq!(evaluate(&bytes("007"), &t), Ok(7));
    assert_eq!(evaluate(&bytes("9223372036854775807"), &t), Ok(i64::MAX));
}

#[test]
fn evaluate_wraps_in_64_bits() {
    let t = table(&[]);
    assert_eq!(evaluate(&bytes("9223372036854775807+1"), &t), Ok(i64::MIN));
    assert_eq!(evaluate(&bytes("-9223372036854775807-2"), &t), Ok(i64::MAX));
}

#[test]
fn evaluate_label_terms() {
    let t = table(&[("start", 0), ("end", 130)]);
    assert_eq!(evaluate(&bytes("end-start"), &t), Ok(130));
    assert_eq!(evaluate(&bytes("start-end-1"), &t), Ok(-131));
}

#[test]
fn evaluate_errors() {
    let t = table(&[("a", 3)]);
    assert_eq!(evaluate(&bytes(""), &t), Err(MacroErrorKind::Empty));
    assert_eq!(evaluate(&bytes("1+"), &t), Err(MacroErrorKind::TrailingOperator));
    assert_eq!(evaluate(&bytes("-"), &t), Err(MacroErrorKind::TrailingOperator));
    assert_eq!(evaluate(&bytes("1+-2"), &t), Err(MacroErrorKind::RepeatedOperator));
    assert_eq!(evaluate(&bytes("--2"), &t), Err(MacroErrorKind::RepeatedOperator));
    assert_eq!(evaluate(&bytes("a+b"), &t), Err(MacroErrorKind::UnknownLabel));
    assert_eq!(evaluate(&bytes("1+A"), &t), Err(MacroErrorKind::MalformedTerm));
    assert_eq!(evaluate(&bytes("1 2"), &t), Err(MacroErrorKind::MalformedTerm));
    assert_eq!(evaluate(&bytes("9223372036854775808"), &t), Err(MacroErrorKind::MalformedTerm));
    assert_eq!(evaluate(&bytes("x1"), &t), Err(MacroErrorKind::MalformedTerm));
}

#[test]
fn first_bad_term_decides_the_error() {
    let t = table(&[]);
    assert_eq!(evaluate(&bytes("nolabel+X"), &t), Err(MacroErrorKind::UnknownLabel));
    assert_eq!(evaluate(&bytes("X+nolabel"), &t), Err(MacroErrorKind::MalformedTerm));
}

#[test]
fn push_code_of_small_values() {
    let mut expected = vec![b'!'];
    expected.extend(std::iter::repeat(b'0').take(57));
    expected.extend(b"1000001");
    assert_eq!(push_code(65), expected);
    let mut ones = vec![b'!'];
    ones.extend(std::iter::repeat(b'1').take(64));
    assert_eq!(push_code(-1), ones);
    let mut min = vec![b'!', b'1'];
    min.extend(std::iter::repeat(b'0').take(63));
    assert_eq!(push_code(i64::MIN), min);
}

#[test]
fn expand_gives_sixty_five_bytes() {
    let t = table(&[("x", 12)]);
    for body in ["0", "-1", "x+5", "123456789", "-9223372036854775807"] {
        let c = expand(&bytes(body), &t).unwrap();
        assert_eq!(c.len(), 65);
        assert_eq!(c[0], b'!');
        assert!(c[1..].iter().all(|&b| b == b'0' || b == b'1'));
    }
    assert_eq!(expand(&bytes("x+"), &t).unwrap_err(), MacroErrorKind::TrailingOperator);
}

#[test]
fn labels_later_declaration_wins() {
    let mut t = LabelTable::new();
    t.insert(bytes("a"), 1);
    t.insert(bytes("b"), 2);
    t.insert(bytes("a"), 3);
    assert_eq!(t.get(&bytes("a")), Some(3));
    assert_eq!(t.get(&bytes("b")), Some(2));
    assert_eq!(t.get(&bytes("c")), None);
}

#[test]
fn parse_resolves_forward_label_references() {
    let tokens = tokenise(&bytes("[end]@ !.:end !")).unwrap();
    let code = parse(&tokens).unwrap();
    assert_eq!(code.len(), 65 + 3 + 1);
    assert_eq!(code[..65].to_vec(), push_code(68));
    assert_eq!(code[65..].to_vec(), bytes("@!.!"));
}

#[test]
fn parse_uses_last_declaration_of_a_label() {
    let tokens = tokenise(&bytes(":a!![a]:a")).unwrap();
    let code = parse(&tokens).unwrap();
    assert_eq!(code[2..].to_vec(), push_code(67));
}

#[test]
fn parse_reports_first_bad_macro_with_body() {
    let tokens = tokenise(&bytes("![1+][2++]")).unwrap();
    let err = parse(&tokens).unwrap_err();
    assert_eq!(err.kind, MacroErrorKind::TrailingOperator);
    assert_eq!(err.body, bytes("1+"));
    let tokens = tokenise(&bytes("[]")).unwrap();
    let err = parse(&tokens).unwrap_err();
    assert_eq!(err.kind, MacroErrorKind::Empty);
    assert!(err.body.is_empty());
    let tokens = tokenise(&bytes("[nowhere]")).unwrap();
    assert_eq!(parse(&tokens).unwrap_err().kind, MacroErrorKind::UnknownLabel);
}

#[test]
fn code_len_counts_scripts_and_macros() {
    let tokens = tokenise(&bytes("!![1]:x.[x]")).unwrap();
    assert_eq!(code_len(&tokens), Some(2 + 65 + 1 + 65));
    assert_eq!(parse(&tokens).unwrap().len(), 133);
}
