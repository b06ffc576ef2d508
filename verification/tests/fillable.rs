use bitcoin::opcodes::all::{
    OP_CAT, OP_EQUAL, OP_PUSHBYTES_1, OP_PUSHBYTES_2, OP_RESERVED,
};
use bitcoin::script::Builder;
use fillable_script::{FillableScript, Instruction};

#[test]
fn test_fillable_script() {
    let script = Builder::new()
        .push_opcode(OP_PUSHBYTES_1)
        .push_opcode(OP_PUSHBYTES_1)
        .push_opcode(OP_RESERVED)
        .push_opcode(OP_CAT)
        .push_opcode(OP_PUSHBYTES_2)
        .push_opcode(OP_PUSHBYTES_1)
        .push_opcode(OP_PUSHBYTES_2)
        .push_opcode(OP_EQUAL)
        .into_script();

    let scripts = FillableScript::from(script.as_bytes()).expect("error interpreting the script");
    assert_eq!(
        scripts.scripts[0],
        Builder::new()
            .push_opcode(OP_PUSHBYTES_1)
            .push_opcode(OP_PUSHBYTES_1)
            .into_script()
            .as_bytes()
    );
    assert_eq!(
        scripts.scripts[1],
        Builder::new()
            .push_opcode(OP_CAT)
            .push_opcode(OP_PUSHBYTES_2)
            .push_opcode(OP_PUSHBYTES_1)
            .push_opcode(OP_PUSHBYTES_2)
            .push_opcode(OP_EQUAL)
            .into_script()
            .as_bytes()
    );
}

fn read_back(segment: &[u8]) -> Vec<bitcoin::script::Instruction<'_>> {
    bitcoin::Script::from_bytes(segment)
        .instructions()
        .map(|item| item.expect("a segment reads to its end"))
        .collect()
}

#[test]
fn script_is_cut_at_op_reserved() {
    let cut = FillableScript::from(&[0x01, 0x01, 0x50, 0x7e, 0x02, 0x01, 0x02, 0x87]).unwrap();
    assert_eq!(
        cut.scripts,
        vec![vec![0x01, 0x01], vec![0x7e, 0x02, 0x01, 0x02, 0x87]]
    );
}

#[test]
fn leading_op_reserved_gives_an_empty_first_segment() {
    let cut = FillableScript::from(&[0x50, 0x76]).unwrap();
    assert_eq!(cut.scripts, vec![vec![], vec![0x76]]);
}

#[test]
fn trailing_op_reserved_adds_no_segment() {
    let cut = FillableScript::from(&[0x76, 0x50]).unwrap();
    assert_eq!(cut.scripts, vec![vec![0x76]]);
}

#[test]
fn empty_script_has_no_segment() {
    let cut = FillableScript::from(&[]).unwrap();
    assert!(cut.scripts.is_empty());
}

#[test]
fn op_0_is_an_empty_push() {
    let cut = FillableScript::from(&[0x00]).unwrap();
    assert_eq!(cut.scripts, vec![vec![0x00]]);
    let cut = FillableScript::from(&[0x00, 0x50, 0x00]).unwrap();
    assert_eq!(cut.scripts, vec![vec![0x00], vec![0x00]]);
}

#[test]
fn pushed_0x50_does_not_cut() {
    let cut = FillableScript::from(&[0x02, 0x50, 0x50, 0x50, 0x01, 0x50]).unwrap();
    assert_eq!(cut.scripts, vec![vec![0x02, 0x50, 0x50], vec![0x01, 0x50]]);
}

#[test]
fn one_byte_length_is_narrowed() {
    let cut = FillableScript::from(&[0x4c, 0x02, 0xaa, 0xbb, 0x87]).unwrap();
    assert_eq!(cut.scripts, vec![vec![0x02, 0xaa, 0xbb, 0x87]]);
}

#[test]
fn two_byte_length_is_narrowed() {
    let cut = FillableScript::from(&[0x4d, 0x01, 0x00, 0xaa, 0x50, 0x4d, 0x00, 0x00]).unwrap();
    assert_eq!(cut.scripts, vec![vec![0x01, 0xaa], vec![0x00]]);
}

#[test]
fn four_byte_length_is_narrowed() {
    let cut = FillableScript::from(&[0x4e, 0x03, 0x00, 0x00, 0x00, 0x01, 0x02, 0x03]).unwrap();
    assert_eq!(cut.scripts, vec![vec![0x03, 0x01, 0x02, 0x03]]);
}

#[test]
fn wide_length_of_a_long_push_is_narrowed() {
    let mut script = vec![0x4e, 100, 0x00, 0x00, 0x00];
    script.extend_from_slice(&[0x42; 100]);
    let mut expected = vec![0x4c, 100];
    expected.extend_from_slice(&[0x42; 100]);
    let cut = FillableScript::from(&script).unwrap();
    assert_eq!(cut.scripts, vec![expected]);
}

#[test]
fn minimal_script_comes_back_as_it_was() {
    let script = Builder::new()
        .push_opcode(bitcoin::opcodes::all::OP_DUP)
        .push_slice([0x11; 20])
        .push_slice(bitcoin::script::PushBytesBuf::try_from(vec![0x22; 300]).unwrap())
        .push_opcode(OP_EQUAL)
        .into_script();
    let cut = FillableScript::from(script.as_bytes()).unwrap();
    assert_eq!(cut.scripts, vec![script.to_bytes()]);
}

#[test]
fn long_push_goes_through() {
    let payload = vec![0x99; 100000];
    let script = Builder::new()
        .push_opcode(OP_RESERVED)
        .push_slice(bitcoin::script::PushBytesBuf::try_from(payload.clone()).unwrap())
        .into_script();
    let cut = FillableScript::from(script.as_bytes()).unwrap();
    assert_eq!(cut.scripts.len(), 2);
    assert!(cut.scripts[0].is_empty());
    assert_eq!(cut.scripts[1][..5], [0x4e, 0xa0, 0x86, 0x01, 0x00]);
    assert_eq!(cut.scripts[1][5..], payload[..]);
}

#[test]
fn truncated_push_is_an_error() {
    let failed = FillableScript::from(&[0x76, 0x50, 0x02, 0x01]).unwrap_err();
    assert_eq!(failed.cause, bitcoin::script::Error::EarlyEndOfScript);
}

#[test]
fn missing_length_is_an_error() {
    assert!(FillableScript::from(&[0x4c]).is_err());
    assert!(FillableScript::from(&[0x4d, 0x01]).is_err());
    assert!(FillableScript::from(&[0x4e, 0x01, 0x00, 0x00]).is_err());
}

#[test]
fn length_beyond_the_script_is_an_error() {
    assert!(FillableScript::from(&[0x4c, 0x02, 0xaa]).is_err());
    assert!(FillableScript::from(&[0x4e, 0xff, 0xff, 0xff, 0xff, 0x00]).is_err());
}

#[test]
fn no_segment_reads_back_with_a_placeholder() {
    let script = [
        0x01, 0x50, 0x50, 0x76, 0x4c, 0x01, 0x50, 0x50, 0x50, 0x02, 0x50, 0x50, 0x93, 0x50,
    ];
    let cut = FillableScript::from(&script).unwrap();
    assert_eq!(cut.scripts.len(), 4);
    for segment in &cut.scripts {
        for instruction in read_back(segment) {
            assert_ne!(instruction.opcode(), Some(OP_RESERVED));
        }
    }
}

#[test]
fn segments_read_back_as_the_runs_between_placeholders() {
    let script = Builder::new()
        .push_opcode(bitcoin::opcodes::all::OP_DUP)
        .push_slice([0x0a, 0x0b])
        .push_opcode(OP_RESERVED)
        .push_opcode(OP_CAT)
        .push_opcode(OP_RESERVED)
        .push_opcode(OP_RESERVED)
        .push_slice([0x50])
        .push_opcode(OP_EQUAL)
        .into_script();
    let whole: Vec<_> = script.instructions().map(|item| item.unwrap()).collect();
    let runs: Vec<Vec<_>> = whole
        .split(|instruction| instruction.opcode() == Some(OP_RESERVED))
        .map(|run| run.to_vec())
        .collect();

    let cut = FillableScript::from(script.as_bytes()).unwrap();
    assert_eq!(cut.scripts.len(), runs.len());
    for (segment, run) in cut.scripts.iter().zip(&runs) {
        assert_eq!(&read_back(segment), run);
    }
}

#[test]
fn cutting_what_was_read_is_cutting_the_script() {
    let script = [0x4c, 0x01, 0xab, 0x50, 0x7e, 0x00, 0x50];
    let instructions = vec![
        Instruction::DataPush(vec![0xab]),
        Instruction::Operation(0x50),
        Instruction::Operation(0x7e),
        Instruction::DataPush(vec![]),
        Instruction::Operation(0x50),
    ];
    assert_eq!(
        FillableScript::from(&script).unwrap(),
        FillableScript::encode_and_segment(&instructions)
    );
}
