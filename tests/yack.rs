use dinky::error::DinkyError;
use dinky::yack::{parse_yack, YackOpcode};

struct Ins {
    op: u8,
    conds: Vec<u32>,
    a0: i32,
    a1: i32,
}

fn ins(op: u8, conds: &[u32], a0: i32, a1: i32) -> Ins {
    Ins { op, conds: conds.to_vec(), a0, a1 }
}

fn script(strings: &[&str], code: &[Ins], end: bool) -> Vec<u8> {
    let mut body = Vec::new();
    for (k, i) in code.iter().enumerate() {
        body.push(i.op);
        body.extend_from_slice(&(k as u64).to_le_bytes());
        body.push(i.conds.len() as u8);
        for c in &i.conds {
            body.extend_from_slice(&c.to_le_bytes());
        }
        body.extend_from_slice(&i.a0.to_le_bytes());
        body.extend_from_slice(&i.a1.to_le_bytes());
    }
    if end {
        body.push(0);
    }
    let mut out = Vec::new();
    out.extend_from_slice(&0x1234_5678u32.to_le_bytes());
    out.extend_from_slice(&((8 + body.len()) as u32).to_le_bytes());
    out.extend_from_slice(&body);
    out.extend_from_slice(&0xABCD_0001u32.to_le_bytes());
    out.extend_from_slice(&(strings.len() as u32).to_le_bytes());
    for s in strings {
        out.extend_from_slice(s.as_bytes());
        out.push(0);
    }
    out
}

fn lines(v: &[&str]) -> Vec<String> {
    v.iter().map(|s| s.to_string()).collect()
}

#[test]
fn minimal_decompile() {
    let data = script(&["Guybrush", "Hello"], &[ins(1, &[], 0, 1)], true);
    assert_eq!(parse_yack(&data), Ok(lines(&["Guybrush: SAY(Hello)"])));
}

#[test]
fn if_block_from_else_goto_and_label() {
    let data = script(
        &["flag", "L1", "A", "x", "B", "y"],
        &[ins(19, &[0], 1, -1), ins(1, &[], 2, 3), ins(9, &[], 1, -1), ins(1, &[], 4, 5)],
        true,
    );
    assert_eq!(
        parse_yack(&data),
        Ok(lines(&["if [flag]", "\tA: SAY(x)", "endif", "B: SAY(y)"]))
    );
}

#[test]
fn else_if_chain() {
    let data = script(
        &["flag", "L1", "A", "x", "other", "L2", "B", "y", "C", "z"],
        &[
            ins(19, &[0], 1, -1),
            ins(1, &[], 2, 3),
            ins(9, &[], 1, -1),
            ins(19, &[4], 5, -1),
            ins(1, &[], 6, 7),
            ins(9, &[], 5, -1),
            ins(1, &[], 8, 9),
        ],
        true,
    );
    assert_eq!(
        parse_yack(&data),
        Ok(lines(&[
            "if [flag]",
            "\tA: SAY(x)",
            "else if [other]",
            "\tB: SAY(y)",
            "endif",
            "C: SAY(z)",
        ]))
    );
}

#[test]
fn unknown_opcode_gives_one_diagnostic_line() {
    let data = script(&["c", "x"], &[ins(42, &[0], 1, -1)], true);
    assert_eq!(
        parse_yack(&data),
        Ok(lines(&["?? Unknown opcode 42 cond=[c] arg1=Some(x) arg2=None"]))
    );
}

#[test]
fn unknown_opcode_between_lines() {
    let data = script(
        &["A", "x"],
        &[ins(1, &[], 0, 1), ins(200, &[], -1, -1), ins(1, &[], 0, 1)],
        true,
    );
    let out = parse_yack(&data).unwrap();
    assert_eq!(out.len(), 3);
    assert_eq!(out[1], "?? Unknown opcode 200 cond=[] arg1=None arg2=None");
    assert_eq!(out.iter().filter(|l| l.contains("Unknown opcode")).count(), 1);
}

#[test]
fn label_that_closes_nothing_is_a_section() {
    let data = script(&["start", "A", "x"], &[ins(9, &[], 0, -1), ins(1, &[], 1, 2)], true);
    assert_eq!(parse_yack(&data), Ok(lines(&["", "===start===", "A: SAY(x)"])));
}

#[test]
fn guarded_code_closes_on_next_record() {
    let data = script(
        &["a", "?once_flag", "code()", "A", "x"],
        &[ins(8, &[0, 1], 2, -1), ins(1, &[], 3, 4)],
        true,
    );
    assert_eq!(
        parse_yack(&data),
        Ok(lines(&["if [a || once]", "\tcode()", "endif", "A: SAY(x)"]))
    );
}

#[test]
fn plain_code_line() {
    let data = script(&["x = 1"], &[ins(8, &[], 0, -1)], true);
    assert_eq!(parse_yack(&data), Ok(lines(&["x = 1"])));
}

#[test]
fn dialogue_choices() {
    let data = script(
        &["Hi", "L", "?seen", "Bye", "M"],
        &[ins(12, &[], -1, -1), ins(100, &[], 0, 1), ins(101, &[2], 3, 4), ins(11, &[], -1, -1)],
        true,
    );
    assert_eq!(
        parse_yack(&data),
        Ok(lines(&[
            "begin dialogue",
            "\t1 SAY(Hi) -> L",
            "\t2 SAY(Bye) -> M [once]",
            "end dialogue",
        ]))
    );
}

#[test]
fn other_statements() {
    let data = script(
        &["x", "5", "2", "joe", "L"],
        &[ins(2, &[], 0, 1), ins(5, &[], 2, -1), ins(7, &[], 3, -1), ins(10, &[], 4, -1)],
        true,
    );
    assert_eq!(
        parse_yack(&data),
        Ok(lines(&["x <- 5", "pause 2", "waitfor joe", "-> L"]))
    );
}

#[test]
fn reply_nine() {
    let data = script(&["t", "l"], &[ins(108, &[], 0, 1)], true);
    assert_eq!(parse_yack(&data), Ok(lines(&["9 SAY(t) -> l"])));
}

#[test]
fn zero_byte_after_code_ends_the_stream() {
    let mut data = Vec::new();
    let body_len: u32 = 1 + 8 + 1 + 4 + 4;
    data.extend_from_slice(&0u32.to_le_bytes());
    data.extend_from_slice(&(8 + body_len).to_le_bytes());
    data.push(1);
    data.extend_from_slice(&0u64.to_le_bytes());
    data.push(0);
    data.extend_from_slice(&0i32.to_le_bytes());
    data.extend_from_slice(&1i32.to_le_bytes());
    data.extend_from_slice(&0u32.to_le_bytes());
    data.extend_from_slice(&2u32.to_le_bytes());
    data.extend_from_slice(b"A\0x\0");
    let out = parse_yack(&data).unwrap();
    assert_eq!(out[0], "A: SAY(x)");
}

#[test]
fn empty_script() {
    let data = script(&[], &[], true);
    assert_eq!(parse_yack(&data), Ok(Vec::new()));
}

#[test]
fn string_index_out_of_range() {
    let data = script(&["A"], &[ins(1, &[], 0, 3)], true);
    assert_eq!(parse_yack(&data), Err(DinkyError::Format));
    let cond = script(&["A", "x"], &[ins(1, &[9], 0, 1)], true);
    assert_eq!(parse_yack(&cond), Err(DinkyError::Format));
    let negative = script(&["A", "x"], &[ins(1, &[], -2, 1)], true);
    assert_eq!(parse_yack(&negative), Err(DinkyError::Format));
}

#[test]
fn missing_operand() {
    let data = script(&["A"], &[ins(1, &[], 0, -1)], true);
    assert_eq!(parse_yack(&data), Err(DinkyError::Format));
}

#[test]
fn truncated_record() {
    let mut data = Vec::new();
    data.extend_from_slice(&0u32.to_le_bytes());
    data.extend_from_slice(&14u32.to_le_bytes());
    data.push(1);
    data.extend_from_slice(&[7u8; 5]);
    data.extend_from_slice(&9u32.to_le_bytes());
    data.extend_from_slice(&0u32.to_le_bytes());
    assert_eq!(data.len(), 22);
    assert_eq!(parse_yack(&data), Err(DinkyError::Format));
}

#[test]
fn bad_string_table() {
    let mut data = script(&["A", "x"], &[ins(1, &[], 0, 1)], true);
    data.truncate(data.len() - 1);
    assert_eq!(parse_yack(&data), Err(DinkyError::Format));
    assert_eq!(parse_yack(&vec![1, 2, 3]), Err(DinkyError::Format));
}

#[test]
fn opcodes_from_bytes() {
    assert_eq!(YackOpcode::from_byte(0), YackOpcode::End);
    assert_eq!(YackOpcode::from_byte(19), YackOpcode::ElseGoto);
    assert_eq!(YackOpcode::from_byte(104), YackOpcode::Reply5);
    assert_eq!(YackOpcode::from_byte(3), YackOpcode::Unknown);
}

#[test]
fn block_still_open_when_stream_ends() {
    let data = script(
        &["flag", "L1", "A", "x"],
        &[ins(19, &[0], 1, -1), ins(1, &[], 2, 3), ins(9, &[], 1, -1)],
        true,
    );
    assert_eq!(parse_yack(&data), Ok(lines(&["if [flag]", "\tA: SAY(x)", "endif"])));
}

#[test]
fn guarded_code_closed_at_end() {
    let data = script(&["c", "go()"], &[ins(8, &[0], 1, -1)], true);
    assert_eq!(parse_yack(&data), Ok(lines(&["if [c]", "\tgo()", "endif"])));
}
