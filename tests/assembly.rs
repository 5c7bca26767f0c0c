use lmc_assembly::{assemble, parse, parse_line, Instruction, Label, Operand};

fn image(code: &str) -> Result<[i16; 100], String> {
    assemble(parse(code)?)
}

#[test]
fn assembling_twice_gives_the_same_image() {
    let code = "start INP\nBRZ end\nOUT\nBRA start\nend HLT\nDAT 7";
    let first = image(code).unwrap();
    let second = image(code).unwrap();
    assert_eq!(first, second);
    assert_eq!(&first[..6], &[901, 704, 902, 600, 0, 7]);
    assert!(first[6..].iter().all(|w| *w == 0));
}

#[test]
fn labels_resolve_to_their_positions() {
    let code = "BRA third\nsecond OUT\nthird LDA second\nfourth DAT 5\nSTA fourth";
    let ram = image(code).unwrap();
    assert_eq!(&ram[..5], &[602, 902, 501, 5, 303]);
}

#[test]
fn first_of_duplicate_labels_wins() {
    let ram = image("BRA twice\ntwice OUT\ntwice HLT").unwrap();
    assert_eq!(ram[0], 601);
}

#[test]
fn undefined_label_fails_assembly() {
    let program = parse("LDA missing\nHLT").unwrap();
    assert_eq!(
        assemble(program),
        Err("Invalid label... missing".to_string())
    );
}

#[test]
fn first_failing_operand_is_reported() {
    assert_eq!(
        image("LDA 100\nBRA nowhere"),
        Err("Invalid address... 100".to_string())
    );
    assert_eq!(
        image("BRA nowhere\nLDA 100"),
        Err("Invalid label... nowhere".to_string())
    );
}

#[test]
fn address_out_of_memory_fails_assembly() {
    assert_eq!(
        image("STA -1"),
        Err("Invalid address... -1".to_string())
    );
}

#[test]
fn dat_value_out_of_range_fails_assembly() {
    assert_eq!(
        image("DAT 1000"),
        Err("Invalid value... 1000".to_string())
    );
    assert_eq!(image("DAT -999").unwrap()[0], -999);
}

#[test]
fn dat_stores_its_value_verbatim() {
    let ram = image("DAT 42\nDAT\nhere DAT here").unwrap();
    assert_eq!(&ram[..3], &[42, 0, 2]);
}

#[test]
fn every_base_encoding() {
    let code = "LDA 1\nSTA 1\nADD 1\nSUB 1\nINP\nOUT\nOTC\nHLT\nBRZ 1\nBRP 1\nBRA 1";
    let ram = image(code).unwrap();
    assert_eq!(
        &ram[..11],
        &[501, 301, 101, 201, 901, 902, 922, 0, 701, 801, 601]
    );
}

#[test]
fn mnemonics_ignore_case() {
    let ram = image("lda 5\nHlt").unwrap();
    assert_eq!(&ram[..2], &[505, 0]);
    assert!(matches!(
        Instruction::from_string("bRz", Some(Operand::Value(3))),
        Ok(Some(Instruction::BRZ(Operand::Value(3))))
    ));
}

#[test]
fn unknown_mnemonic_is_none() {
    assert!(matches!(Instruction::from_string("JMP", None), Ok(None)));
    assert!(matches!(Instruction::from_mnemonic("lda", None), Ok(None)));
}

#[test]
fn missing_operand_is_an_error() {
    assert!(matches!(
        Instruction::from_string("sta", None),
        Err(e) if e == "STA requires an operand"
    ));
    assert_eq!(
        parse("LDA").err(),
        Some("LDA requires an operand".to_string())
    );
    assert_eq!(
        parse("here BRA").err(),
        Some("BRA requires an operand".to_string())
    );
}

#[test]
fn dat_operand_defaults_to_zero() {
    assert!(matches!(
        Instruction::from_string("dat", None),
        Ok(Some(Instruction::DAT(Operand::Value(0))))
    ));
}

#[test]
fn operand_tokens_read_as_numbers_or_labels() {
    assert!(matches!(Operand::from_token("-12"), Operand::Value(-12)));
    assert!(matches!(Operand::from_token("+7"), Operand::Value(7)));
    assert!(matches!(Operand::from_token("40000"), Operand::Label(s) if s == "40000"));
    assert!(matches!(Operand::from_token("loop"), Operand::Label(s) if s == "loop"));
    assert!(matches!("9".parse::<Operand>(), Ok(Operand::Value(9))));
}

#[test]
fn two_tokens_prefer_mnemonic_and_operand() {
    let line = parse_line("INP extra", &vec!["INP".to_string(), "extra".to_string()]);
    assert!(matches!(line, Ok(Some((Label::Unlabeled, Instruction::INP)))));

    let line = parse_line("start INP", &vec!["start".to_string(), "INP".to_string()]);
    assert!(matches!(
        line,
        Ok(Some((Label::LBL(name), Instruction::INP))) if name == "start"
    ));
}

#[test]
fn three_tokens_are_label_mnemonic_operand() {
    let tokens = vec!["top".to_string(), "add".to_string(), "9".to_string()];
    let line = parse_line("top add 9", &tokens);
    assert!(matches!(
        line,
        Ok(Some((Label::LBL(name), Instruction::ADD(Operand::Value(9))))) if name == "top"
    ));
}

#[test]
fn unknown_opcode_is_a_parse_error() {
    assert_eq!(parse("FOO").err(), Some("Invalid opcode... FOO".to_string()));
    assert_eq!(
        parse("here FOO").err(),
        Some("Invalid opcode... FOO".to_string())
    );
    assert_eq!(
        parse("a FOO 1").err(),
        Some("Invalid opcode... FOO".to_string())
    );
}

#[test]
fn too_many_tokens_is_a_parse_error() {
    assert_eq!(
        parse("HLT\na LDA 1 2").err(),
        Some("Error while reading line: a LDA 1 2".to_string())
    );
}

#[test]
fn comments_and_blank_lines_are_skipped() {
    let program = parse("// heading\n\n   \nOUT\n//LDA 1 2 3 4\r\nHLT\n").unwrap();
    assert_eq!(program.len(), 2);
    assert!(matches!(program[0], (Label::Unlabeled, Instruction::OUT)));
    assert!(matches!(program[1], (Label::Unlabeled, Instruction::HLT)));
}

#[test]
fn labels_compare_by_name() {
    assert!(Label::LBL("x".to_string()) == Label::LBL("x".to_string()));
    assert!(Label::LBL("x".to_string()) != Label::LBL("y".to_string()));
    assert!(Label::Unlabeled == Label::Unlabeled);
    assert!(Label::LBL("x".to_string()) != Label::Unlabeled);
}

#[test]
fn base_encodings() {
    assert_eq!(Instruction::OTC.get_base(), 922);
    assert_eq!(Instruction::DAT(Operand::Value(5)).get_base(), 0);
    assert_eq!(Instruction::BRP(Operand::Value(5)).get_base(), 800);
}

#[test]
fn program_longer_than_memory_fails_assembly() {
    let code = vec!["OUT"; 101].join("\n");
    let program = parse(&code).unwrap();
    assert_eq!(program.len(), 101);
    assert_eq!(
        assemble(program),
        Err("Program does not fit in memory".to_string())
    );
    let code = vec!["OUT"; 100].join("\n");
    assert!(assemble(parse(&code).unwrap()).is_ok());
}
