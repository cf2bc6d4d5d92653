use rust_casl2::context::AssemblyContext;
use rust_casl2::error::ErrorKind;
use rust_casl2::grammar::Shape;
use rust_casl2::token::{Line, SymbolTable, Token, TokenType};

fn line_of(code: &str) -> Line {
    let mut line = Line::new(0);
    assert_eq!(line.parse(code), Ok(()));
    line
}

fn kinds(line: &Line) -> Vec<TokenType> {
    line.tokens.iter().map(|t| t.kind).collect()
}

fn texts(line: &Line) -> Vec<String> {
    line.tokens.iter().map(|t| t.value.clone()).collect()
}

fn context(location_counter: u16) -> AssemblyContext {
    AssemblyContext { location_counter: location_counter, end_reached: false }
}

fn table() -> SymbolTable {
    let mut labels = SymbolTable::new();
    labels.insert("BUF".to_string(), 0x20);
    labels.insert("LOOP".to_string(), 3);
    labels
}

fn words_of(code: &str, location_counter: u16) -> Result<(Vec<u16>, AssemblyContext, bool), ErrorKind> {
    let mut line = line_of(code);
    let mut ctx = context(0);
    assert_eq!(line.semantic_check(&mut ctx), Ok(()));
    line.set_opcode_len();
    assert_eq!(line.machine_code_len, ctx.location_counter);
    line.with_literal = false;
    let mut ctx = context(location_counter);
    match line.set_machine_code(&table(), &mut ctx) {
        Ok(()) => Ok((line.machine_code, ctx, line.with_literal)),
        Err(e) => {
            assert!(line.machine_code.is_empty());
            assert!(ctx == context(location_counter));
            Err(e)
        },
    }
}

fn checked(code: &str) -> Result<u16, ErrorKind> {
    let line = line_of(code);
    let mut ctx = context(100);
    match line.semantic_check(&mut ctx) {
        Ok(()) => Ok(ctx.location_counter - 100),
        Err(e) => {
            assert!(ctx == context(100));
            Err(e)
        },
    }
}

#[test]
fn a_new_line_is_empty() {
    let line = Line::new(7);
    assert_eq!(line.line_number, 7);
    assert_eq!(line.with_label, false);
    assert_eq!(line.with_literal, false);
    assert!(line.tokens.is_empty());
    assert!(line.machine_code.is_empty());
    assert_eq!(line.machine_code_len, 0);
    let token = Token::new(TokenType::Opcode, "LD".to_string());
    assert!(token.kind == TokenType::Opcode);
    assert_eq!(token.value, "LD");
}

#[test]
fn parse_takes_each_word_for_what_it_is_at_its_place() {
    let line = line_of("LOOP LD GR1 GR2");
    assert_eq!(line.with_label, true);
    assert_eq!(line.with_literal, false);
    assert_eq!(texts(&line), vec!["LOOP", "LD", "GR1", "GR2"]);
    assert_eq!(
        kinds(&line),
        vec![TokenType::Label, TokenType::Opcode, TokenType::Register, TokenType::Register]
    );
    let line = line_of(" LD GR1 =5");
    assert_eq!(line.with_label, false);
    assert_eq!(line.with_literal, true);
    assert_eq!(kinds(&line), vec![TokenType::Opcode, TokenType::Register, TokenType::Literal]);
    let line = line_of("\tJUMP LOOP GR1");
    assert_eq!(line.with_label, false);
    assert_eq!(kinds(&line), vec![TokenType::Opcode, TokenType::Constant, TokenType::Register]);
    let line = line_of("MAIN START");
    assert_eq!(kinds(&line), vec![TokenType::Label, TokenType::Assembler]);
    let line = line_of(" RPUSH");
    assert_eq!(kinds(&line), vec![TokenType::Macro]);
    let line = line_of(" DC 12 #000A 'ab' LOOP");
    assert_eq!(
        kinds(&line),
        vec![
            TokenType::Assembler,
            TokenType::Constant,
            TokenType::Constant,
            TokenType::Constant,
            TokenType::Constant
        ]
    );
}

#[test]
fn parse_stops_at_a_comment() {
    let line = line_of(" LD GR1 GR2 ; load it");
    assert_eq!(texts(&line), vec!["LD", "GR1", "GR2"]);
    let line = line_of(" RET ; done @@@ ;");
    assert_eq!(texts(&line), vec!["RET"]);
    let line = line_of(" ; nothing but a comment");
    assert!(line.tokens.is_empty());
    assert_eq!(line.with_label, false);
    let line = line_of("; comment in the first column");
    assert!(line.tokens.is_empty());
    assert_eq!(line.with_label, true);
    let line = line_of("");
    assert!(line.tokens.is_empty());
    assert_eq!(line.with_label, true);
    let line = line_of("   ");
    assert!(line.tokens.is_empty());
    assert_eq!(line.with_label, false);
}

#[test]
fn a_longer_word_with_a_semicolon_is_no_comment() {
    let line = line_of(" RET ;f");
    assert_eq!(texts(&line), vec!["RET", ";f"]);
    assert_eq!(kinds(&line), vec![TokenType::Opcode, TokenType::Constant]);
    let line = line_of(" LD GR1 ;f00");
    assert_eq!(texts(&line), vec!["LD", "GR1", ";f00"]);
    assert_eq!(words_of(" LD GR1 ;f00", 0), Ok((vec![0x1010, 0x0f00], context(0), false)));
    let line = line_of(" LD GR1 GR2 ;f ; the rest is comment");
    assert_eq!(texts(&line), vec!["LD", "GR1", "GR2", ";f"]);
    for code in [" RET ;done", " RET ;done @@@", " RET ;;", " RET ;; x", ";x RET", " ;RET"] {
        let mut line = Line::new(0);
        assert_eq!(line.parse(code), Err(ErrorKind::Lexical), "{:?}", code);
        assert!(line.tokens.is_empty());
    }
}

#[test]
fn parse_adds_to_the_tokens_that_are_there() {
    let mut line = Line::new(1);
    assert_eq!(line.parse(" LD GR1"), Ok(()));
    assert_eq!(line.parse(" ST =5"), Ok(()));
    assert_eq!(texts(&line), vec!["LD", "GR1", "ST", "=5"]);
    assert_eq!(line.with_literal, true);
    assert_eq!(line.parse(" RET"), Ok(()));
    assert_eq!(line.with_literal, true);
    assert_eq!(line.tokens.len(), 5);
}

#[test]
fn parse_refuses_a_word_that_fits_nowhere() {
    for code in [
        " FOO GR1",
        " GR1",
        " 12",
        "lower LD GR1 GR2",
        "GR1 LD GR1 GR2",
        "TOOLONGLABEL RET",
        "LOOP FOO",
        "START MAIN",
        " LD GR1 @",
        " LD GR1 loop",
        " LD gr1 GR2",
        " DC 'a b'",
        " SVC 1",
        " NOP",
    ] {
        let mut line = Line::new(3);
        assert_eq!(line.parse(code), Err(ErrorKind::Lexical), "{:?}", code);
        assert!(line.tokens.is_empty());
        assert_eq!(line.with_label, false);
        assert_eq!(line.with_literal, false);
        assert_eq!(line.line_number, 3);
    }
}

#[test]
fn shapes_of_mnemonics() {
    assert!(line_of(" RET").shape() == Shape::NoOperand);
    assert!(line_of(" POP GR1").shape() == Shape::SingleRegister);
    for m in ["SLA", "SRA", "SLL", "SRL", "ST", "LAD"] {
        assert!(line_of(&format!(" {} GR1 1", m)).shape() == Shape::RegisterAddress);
    }
    for m in ["JMI", "JPL", "JZE", "JNZ", "JOV", "JUMP", "CALL", "PUSH"] {
        assert!(line_of(&format!("L {} 1", m)).shape() == Shape::AddressOnly);
    }
    for m in ["LD", "ADDA", "SUBA", "ADDL", "SUBL", "CPA", "CPL"] {
        assert!(line_of(&format!(" {} GR1 1", m)).shape() == Shape::RegisterPairOrAddress);
    }
    assert!(line_of("A START").shape() == Shape::Start);
    assert!(line_of(" DC 1").shape() == Shape::DataConstant);
    assert!(line_of(" DS 1").shape() == Shape::DefineStorage);
    assert!(line_of(" END").shape() == Shape::End);
    assert!(line_of(" RPUSH").shape() == Shape::SaveRegisters);
    assert!(line_of(" RPOP").shape() == Shape::RestoreRegisters);
    assert!(line_of(" IN A B").shape() == Shape::RecordIo);
    assert!(line_of(" OUT A B").shape() == Shape::RecordIo);
    assert!(line_of("").shape() == Shape::Unknown);
    assert!(line_of("LOOP").shape() == Shape::Unknown);
}

#[test]
fn accepted_lines_and_their_lengths() {
    assert_eq!(checked(" RET"), Ok(1));
    assert_eq!(checked(" POP GR7"), Ok(1));
    assert_eq!(checked(" ST GR1 BUF"), Ok(2));
    assert_eq!(checked(" ST GR1 BUF GR2"), Ok(2));
    assert_eq!(checked(" LAD GR1 =5"), Ok(2));
    assert_eq!(checked(" SLA GR1 1 GR7"), Ok(2));
    assert_eq!(checked(" JUMP LOOP"), Ok(2));
    assert_eq!(checked(" PUSH 0 GR1"), Ok(2));
    assert_eq!(checked(" CALL =5"), Ok(2));
    assert_eq!(checked(" LD GR1 GR2"), Ok(1));
    assert_eq!(checked(" LD GR1 BUF"), Ok(2));
    assert_eq!(checked(" LD GR1 =5 GR3"), Ok(2));
    assert_eq!(checked("L ADDA GR0 GR0"), Ok(1));
    assert_eq!(checked("MAIN START"), Ok(0));
    assert_eq!(checked("MAIN START BEGIN"), Ok(0));
    assert_eq!(checked(" END"), Ok(0));
    assert_eq!(checked(" DC 1"), Ok(1));
    assert_eq!(checked("DATA DC 1 2 3"), Ok(3));
    assert_eq!(checked(" DC 'abc' 7 'it''s' LOOP #0010"), Ok(10));
    assert_eq!(checked(" DC ''"), Ok(0));
    assert_eq!(checked(" DS 0"), Ok(0));
    assert_eq!(checked(" DS 3"), Ok(3));
    assert_eq!(checked("BUF DS 256"), Ok(256));
    assert_eq!(checked(" RPUSH"), Ok(7));
    assert_eq!(checked(" RPOP"), Ok(7));
    assert_eq!(checked(" IN BUF LEN"), Ok(14));
    assert_eq!(checked("L OUT BUF LEN"), Ok(14));
}

#[test]
fn refused_lines_and_their_defects() {
    for code in [
        "",
        "   ",
        "LOOP",
        " RET GR1",
        " POP",
        " POP 1",
        " POP GR1 GR2",
        " ST GR1",
        " ST BUF GR1",
        " ST GR1 GR2",
        " ST GR1 BUF GR0",
        " ST GR1 BUF 1",
        " ST GR1 BUF GR1 GR2",
        " JUMP",
        " JUMP GR1",
        " JUMP LOOP GR0",
        " JUMP LOOP LOOP",
        " JUMP LOOP GR1 GR2",
        "BAD1 LD GR1",
        " LD",
        " LD 1 GR1",
        " LD GR1 GR2 GR3",
        " LD GR1 BUF GR0",
        " LD GR1 BUF GR1 GR2",
        " START",
        "M START A B",
        "L END",
        " END 1",
        " DC",
        " DS",
        " DS 1 2",
        " RPUSH 1",
        " RPOP GR1",
        " IN BUF",
        " IN BUF LEN MORE",
        " IN BUF 12",
        " OUT GR1 LEN",
    ] {
        assert_eq!(checked(code), Err(ErrorKind::Grammar), "{:?}", code);
    }
    for code in [" DS BUF", " DS #0010", " DS 65536", " DS =5", " DC GR1", " DC 1 GR1 2", " DC =LOOP"] {
        assert_eq!(checked(code), Err(ErrorKind::MalformedDirective), "{:?}", code);
    }
}

#[test]
fn the_check_moves_the_location_counter_and_marks_the_end() {
    let mut ctx = AssemblyContext::new();
    assert_eq!(ctx.location_counter, 0);
    assert_eq!(ctx.end_reached, false);
    assert_eq!(line_of(" LD GR1 BUF").semantic_check(&mut ctx), Ok(()));
    assert!(ctx == context(2));
    assert_eq!(line_of(" DS 0").semantic_check(&mut ctx), Ok(()));
    assert!(ctx == context(2));
    assert_eq!(line_of(" DS 10").semantic_check(&mut ctx), Ok(()));
    assert!(ctx == context(12));
    assert_eq!(line_of(" END").semantic_check(&mut ctx), Ok(()));
    assert!(ctx == AssemblyContext { location_counter: 12, end_reached: true });
    assert_eq!(line_of(" RET").semantic_check(&mut ctx), Ok(()));
    assert!(ctx == AssemblyContext { location_counter: 13, end_reached: true });
}

#[test]
fn the_check_refuses_what_does_not_fit_into_the_address_space() {
    let mut ctx = context(0xffff);
    assert_eq!(line_of(" RET").semantic_check(&mut ctx), Err(ErrorKind::AddressOverflow));
    assert!(ctx == context(0xffff));
    assert_eq!(line_of(" END").semantic_check(&mut ctx), Ok(()));
    assert_eq!(ctx.location_counter, 0xffff);
    let mut ctx = context(0xfffe);
    assert_eq!(line_of(" RET").semantic_check(&mut ctx), Ok(()));
    assert_eq!(ctx.location_counter, 0xffff);
    let mut ctx = context(1);
    assert_eq!(line_of(" DS 65535").semantic_check(&mut ctx), Err(ErrorKind::AddressOverflow));
    let mut ctx = context(0);
    assert_eq!(line_of(" DS 65535").semantic_check(&mut ctx), Ok(()));
    assert_eq!(ctx.location_counter, 65535);
    let long = format!(" DC '{}'", "x".repeat(70000));
    let mut ctx = context(0);
    assert_eq!(line_of(&long).semantic_check(&mut ctx), Err(ErrorKind::AddressOverflow));
    let fits = format!(" DC '{}' 1", "x".repeat(65534));
    let mut ctx = context(0);
    assert_eq!(line_of(&fits).semantic_check(&mut ctx), Ok(()));
    assert_eq!(ctx.location_counter, 65535);
}

#[test]
fn the_length_is_entered_in_the_line() {
    for (code, len) in [
        (" RET", 1),
        (" POP GR1", 1),
        (" JUMP LOOP", 2),
        (" ST GR1 BUF GR2", 2),
        (" LD GR1 GR2", 1),
        (" LD GR1 =5", 2),
        (" RPUSH", 7),
        (" RPOP", 7),
        (" IN BUF LEN", 14),
        (" DC 'abc' 7 'it''s'", 8),
        (" DS 0", 0),
        (" DS 300", 300),
        ("MAIN START", 0),
        (" END", 0),
    ] {
        let mut line = line_of(code);
        let before = texts(&line);
        line.set_opcode_len();
        assert_eq!(line.machine_code_len, len, "{:?}", code);
        assert_eq!(texts(&line), before);
        assert!(line.machine_code.is_empty());
    }
}

#[test]
fn instructions_and_their_words() {
    assert_eq!(words_of(" RET", 50), Ok((vec![0x8100], context(50), false)));
    assert_eq!(words_of(" POP GR3", 50), Ok((vec![0x7130], context(50), false)));
    assert_eq!(words_of(" ST GR1 BUF GR2", 50), Ok((vec![0x1112, 0x0020], context(50), false)));
    assert_eq!(words_of(" ST GR1 BUF", 50), Ok((vec![0x1110, 0x0020], context(50), false)));
    assert_eq!(words_of(" LAD GR7 10", 50), Ok((vec![0x1270, 10], context(50), false)));
    assert_eq!(words_of(" SLA GR2 1", 50), Ok((vec![0x5020, 1], context(50), false)));
    assert_eq!(words_of(" SRA GR2 1", 50), Ok((vec![0x5120, 1], context(50), false)));
    assert_eq!(words_of(" SLL GR2 1 GR3", 50), Ok((vec![0x5223, 1], context(50), false)));
    assert_eq!(words_of(" SRL GR2 #000F", 50), Ok((vec![0x5320, 15], context(50), false)));
    assert_eq!(words_of(" JUMP LOOP", 50), Ok((vec![0x6400, 3], context(50), false)));
    assert_eq!(words_of(" JMI LOOP GR1", 50), Ok((vec![0x6101, 3], context(50), false)));
    assert_eq!(words_of(" JNZ LOOP", 50), Ok((vec![0x6200, 3], context(50), false)));
    assert_eq!(words_of(" JZE LOOP", 50), Ok((vec![0x6300, 3], context(50), false)));
    assert_eq!(words_of(" JPL LOOP", 50), Ok((vec![0x6500, 3], context(50), false)));
    assert_eq!(words_of(" JOV LOOP", 50), Ok((vec![0x6600, 3], context(50), false)));
    assert_eq!(words_of(" PUSH 0 GR1", 50), Ok((vec![0x7001, 0], context(50), false)));
    assert_eq!(words_of(" CALL BUF", 50), Ok((vec![0x8000, 0x20], context(50), false)));
    assert_eq!(words_of(" LD GR1 GR2", 50), Ok((vec![0x1412], context(50), false)));
    assert_eq!(words_of(" ADDA GR0 GR7", 50), Ok((vec![0x2407], context(50), false)));
    assert_eq!(words_of(" SUBA GR7 GR0", 50), Ok((vec![0x2570], context(50), false)));
    assert_eq!(words_of(" ADDL GR1 BUF", 50), Ok((vec![0x2210, 0x20], context(50), false)));
    assert_eq!(words_of(" SUBL GR1 BUF GR2", 50), Ok((vec![0x2312, 0x20], context(50), false)));
    assert_eq!(words_of(" CPA GR0 #0010", 50), Ok((vec![0x4000, 0x10], context(50), false)));
    assert_eq!(words_of(" CPL GR3 GR4", 50), Ok((vec![0x4534], context(50), false)));
}

#[test]
fn a_literal_takes_the_slot_at_the_location_counter() {
    assert_eq!(words_of(" LD GR1 =5", 50), Ok((vec![0x1010, 50], context(51), true)));
    assert_eq!(words_of(" LD GR1 =5 GR2", 0), Ok((vec![0x1012, 0], context(1), true)));
    assert_eq!(words_of(" LAD GR1 ='abc'", 7), Ok((vec![0x1210, 7], context(8), true)));
    assert_eq!(words_of(" PUSH =#000A", 0xfffe), Ok((vec![0x7000, 0xfffe], context(0xffff), true)));
    assert_eq!(words_of(" PUSH =#000A", 0xffff), Err(ErrorKind::AddressOverflow));
}

#[test]
fn directives_and_macros_and_their_words() {
    assert_eq!(words_of("MAIN START", 5), Ok((vec![], context(5), false)));
    assert_eq!(words_of("MAIN START LOOP", 5), Ok((vec![], context(5), false)));
    assert_eq!(words_of("MAIN START NOWHERE", 5), Err(ErrorKind::UnresolvedSymbol));
    assert_eq!(
        words_of(" END", 5),
        Ok((vec![], AssemblyContext { location_counter: 5, end_reached: true }, false))
    );
    assert_eq!(words_of("DATA DC 1 2 3", 5), Ok((vec![1, 2, 3], context(5), false)));
    assert_eq!(
        words_of(" DC 'ab' 7 'it''s' LOOP #0010 ''", 5),
        Ok((vec![0x61, 0x62, 7, 0x69, 0x74, 0x27, 0x73, 3, 0x10], context(5), false))
    );
    assert_eq!(words_of(" DC 1 NOWHERE 2", 5), Err(ErrorKind::UnresolvedSymbol));
    assert_eq!(words_of(" DS 0", 5), Ok((vec![], context(5), false)));
    assert_eq!(words_of(" DS 3", 5), Ok((vec![0, 0, 0], context(5), false)));
    assert_eq!(
        words_of(" RPOP", 5),
        Ok((vec![0x7110, 0x7120, 0x7130, 0x7140, 0x7150, 0x7160, 0x7170], context(5), false))
    );
    assert_eq!(words_of(" IN BUF LOOP", 5), Err(ErrorKind::NoEncoding));
    assert_eq!(words_of(" OUT BUF LOOP", 5), Err(ErrorKind::NoEncoding));
    assert_eq!(words_of(" JUMP NOWHERE", 5), Err(ErrorKind::UnresolvedSymbol));
    assert_eq!(words_of(" LD GR1 NOWHERE GR2", 5), Err(ErrorKind::UnresolvedSymbol));
}

#[test]
fn saving_the_registers_takes_seven_words_and_yields_fourteen() {
    let mut line = line_of(" RPUSH");
    let mut ctx = context(0);
    assert_eq!(line.semantic_check(&mut ctx), Ok(()));
    assert_eq!(ctx.location_counter, 7);
    line.set_opcode_len();
    assert_eq!(line.machine_code_len, 7);
    assert_eq!(line.set_machine_code(&table(), &mut ctx), Ok(()));
    assert_eq!(
        line.machine_code,
        vec![0x7001, 0, 0x7002, 0, 0x7003, 0, 0x7004, 0, 0x7005, 0, 0x7006, 0, 0x7007, 0]
    );
    assert_eq!(ctx.location_counter, 7);
}

#[test]
fn translating_puts_the_words_behind_those_that_are_there() {
    let mut line = line_of(" LD GR1 GR2");
    let mut ctx = context(9);
    assert_eq!(line.set_machine_code(&table(), &mut ctx), Ok(()));
    assert_eq!(line.set_machine_code(&table(), &mut ctx), Ok(()));
    assert_eq!(line.machine_code, vec![0x1412, 0x1412]);
    assert_eq!(line.with_literal, false);
    assert!(ctx == context(9));
}

#[test]
fn translating_refuses_a_line_that_the_grammar_refuses() {
    let mut line = line_of("BAD1 LD GR1");
    let mut ctx = context(9);
    assert_eq!(line.set_machine_code(&table(), &mut ctx), Err(ErrorKind::Grammar));
    assert!(line.machine_code.is_empty());
    assert!(ctx == context(9));
    let mut line = line_of(" DS BUF");
    assert_eq!(line.set_machine_code(&table(), &mut ctx), Err(ErrorKind::MalformedDirective));
    let mut line = Line::new(0);
    assert_eq!(line.set_machine_code(&table(), &mut ctx), Err(ErrorKind::Grammar));
}

#[test]
fn lines_built_by_hand() {
    let mut line = Line::new(0);
    line.tokens.push(Token::new(TokenType::Opcode, "SVC".to_string()));
    line.tokens.push(Token::new(TokenType::Constant, "1".to_string()));
    assert!(line.shape() == Shape::AddressOnly);
    let mut ctx = context(0);
    assert_eq!(line.semantic_check(&mut ctx), Ok(()));
    assert_eq!(ctx.location_counter, 2);
    assert_eq!(line.set_machine_code(&table(), &mut ctx), Ok(()));
    assert_eq!(line.machine_code, vec![0xff00, 1]);

    let mut line = Line::new(0);
    line.tokens.push(Token::new(TokenType::Opcode, "AND".to_string()));
    line.tokens.push(Token::new(TokenType::Register, "GR1".to_string()));
    line.tokens.push(Token::new(TokenType::Register, "GR2".to_string()));
    assert_eq!(line.set_machine_code(&table(), &mut ctx), Ok(()));
    assert_eq!(line.machine_code, vec![0x3412]);

    let mut line = Line::new(0);
    line.tokens.push(Token::new(TokenType::Opcode, "POP".to_string()));
    line.tokens.push(Token::new(TokenType::Register, "BUF".to_string()));
    assert_eq!(line.semantic_check(&mut ctx), Err(ErrorKind::Grammar));

    let mut line = Line::new(0);
    line.tokens.push(Token::new(TokenType::Assembler, "LD".to_string()));
    assert!(line.shape() == Shape::Unknown);
    assert_eq!(line.semantic_check(&mut ctx), Err(ErrorKind::Grammar));

    let mut line = Line::new(0);
    line.tokens.push(Token::new(TokenType::Macro, "END".to_string()));
    assert_eq!(line.semantic_check(&mut ctx), Err(ErrorKind::Grammar));

    let mut line = Line::new(0);
    line.tokens.push(Token::new(TokenType::Register, "RET".to_string()));
    assert_eq!(line.semantic_check(&mut ctx), Err(ErrorKind::Grammar));
}

#[test]
fn each_literal_gives_one_group_in_the_order_of_the_line() {
    let mut line = Line::new(0);
    assert!(line.get_value_from_literal().is_empty());
    line.tokens.push(Token::new(TokenType::Opcode, "LD".to_string()));
    line.tokens.push(Token::new(TokenType::Literal, "='ab'".to_string()));
    line.tokens.push(Token::new(TokenType::Constant, "=9".to_string()));
    line.tokens.push(Token::new(TokenType::Literal, "=5".to_string()));
    line.tokens.push(Token::new(TokenType::Literal, "=LOOP".to_string()));
    line.tokens.push(Token::new(TokenType::Literal, "=#000A".to_string()));
    line.tokens.push(Token::new(TokenType::Literal, "".to_string()));
    assert_eq!(line.get_value_from_literal(), vec![0x61, 0x62, 5, 10]);
    assert_eq!(line_of(" LD GR1 =5").get_value_from_literal(), vec![5]);
    assert_eq!(line_of(" LD GR1 ='abc'").get_value_from_literal(), vec![0x61, 0x62, 0x63]);
    assert_eq!(line_of(" LD GR1 5").get_value_from_literal(), vec![]);
}
