use bones::wmach::Insn;
use bones::wmach::IoOp;
use bones::wmach::Program;
use bones::wmach::SeekOp;
use bones::wmach::Source;
use bones::wmach::Stmt;
use bones::wmach::Target;
use bones::wmach::WmachErr;
use bones::wmach::WriteOp;

#[test]
fn parse_label() {
    let name = "my_label";
    let program = format!("{}:", name);
    let result = Source::new(&program).label_op(0);

    let (id, _) = match result {
        Some(whatever) => whatever,
        _ => panic!("parse failed: {:?}", result),
    };

    let id = match id {
        Stmt::Label(id) => id,
        _ => panic!("wrong variant"),
    };
    assert_eq!(id, name);
}

#[test]
fn parse_jmp_single() {
    let true_branch = "first";
    let program = format!("jmp {}", true_branch);
    let result = Source::new(&program).jmp_op(0);

    let (jmp, _) = match result {
        Some(whatever) => whatever,
        _ => panic!("parse failed: {:?}", result),
    };

    let (branch_a, branch_b) = match jmp {
        Stmt::Jmp(branch_a, branch_b) => (branch_a, branch_b),
        _ => panic!("parsed stmt incorrect: {:?}", jmp),
    };

    match branch_a {
        Target::Name(name) => assert_eq!(name, true_branch),
        _ => panic!("parsed frist branch incorrectly: {:?}", branch_a),
    };
    match branch_b {
        Target::NextAddress => assert!(true),
        _ => panic!("parsed second branch incorrectly: {:?}", branch_b),
    };
}

#[test]
fn parse_jmp_double() {
    let true_branch = "first";
    let false_branch = "first";
    let program = format!("jmp {}, {}", true_branch, false_branch);
    let result = Source::new(&program).jmp_op(0);

    let (jmp, _) = match result {
        Some(whatever) => whatever,
        _ => panic!("parse failed: {:?}", result),
    };

    let (branch_a, branch_b) = match jmp {
        Stmt::Jmp(branch_a, branch_b) => (branch_a, branch_b),
        _ => panic!("parsed stmt incorrect: {:?}", jmp),
    };

    match branch_a {
        Target::Name(name) => assert_eq!(name, true_branch),
        _ => panic!("parsed frist branch incorrectly: {:?}", branch_a),
    };
    match branch_b {
        Target::Name(name) => assert_eq!(name, false_branch),
        _ => panic!("parsed second branch incorrectly: {:?}", branch_b),
    };
}

fn sign_at_start(program: &str) -> Stmt {
    let result = Source::new(program).sign_op(0);
    match result {
        Some((stmt, _)) => stmt,
        _ => panic!("parse failed: {:?}", result),
    }
}

#[test]
fn parse_set() {
    let program = format!("+");
    let set = sign_at_start(&program);

    let op = match set {
        Stmt::Write(op) => op,
        _ => panic!("parsed stmt incorect: {:?}", set),
    };

    match op {
        WriteOp::SetBit => assert!(true),
        _ => panic!("invalid op: {:?}", op),
    };
}

#[test]
fn parse_unset() {
    let program = format!("-");
    let unset = sign_at_start(&program);

    let op = match unset {
        Stmt::Write(op) => op,
        _ => panic!("parsed stmt incorect: {:?}", unset),
    };

    match op {
        WriteOp::Unset => assert!(true),
        _ => panic!("invalid op: {:?}", op),
    };
}

#[test]
fn parse_seek_left() {
    let program = format!("<");
    let stmt = sign_at_start(&program);

    let op = match stmt {
        Stmt::Seek(op) => op,
        _ => panic!("parsed stmt incorect: {:?}", stmt),
    };

    match op {
        SeekOp::Left => assert!(true),
        _ => panic!("invalid op: {:?}", op),
    };
}

#[test]
fn parse_seek_right() {
    let program = format!(">");
    let stmt = sign_at_start(&program);

    let op = match stmt {
        Stmt::Seek(op) => op,
        _ => panic!("parsed stmt incorect: {:?}", stmt),
    };

    match op {
        SeekOp::Right => assert!(true),
        _ => panic!("invalid op: {:?}", op),
    };
}

#[test]
fn parse_input() {
    let program = format!(",");
    let stmt = sign_at_start(&program);

    let op = match stmt {
        Stmt::Io(op) => op,
        _ => panic!("parsed stmt incorect: {:?}", stmt),
    };

    match op {
        IoOp::In => assert!(true),
        _ => panic!("invalid op: {:?}", op),
    };
}

#[test]
fn parse_output() {
    let program = format!(".");
    let stmt = sign_at_start(&program);

    let op = match stmt {
        Stmt::Io(op) => op,
        _ => panic!("parsed stmt incorect: {:?}", stmt),
    };

    match op {
        IoOp::Out => assert!(true),
        _ => panic!("invalid op: {:?}", op),
    };
}

#[test]
fn parse_debug() {
    let program = format!("!");
    let stmt = sign_at_start(&program);

    match stmt {
        Stmt::Debug => assert!(true),
        _ => panic!("parsed stmt incorect: {:?}", stmt),
    };
}

fn code_of(source: &str) -> Vec<Insn> {
    Program::from_str(source).expect("a program").instructions
}

#[test]
fn every_instruction_has_its_sign() {
    assert_eq!(
        code_of("+-<>,.!"),
        vec![
            Insn::Write(WriteOp::SetBit),
            Insn::Write(WriteOp::Unset),
            Insn::Seek(SeekOp::Left),
            Insn::Seek(SeekOp::Right),
            Insn::Io(IoOp::In),
            Insn::Io(IoOp::Out),
            Insn::Debug,
        ]
    );
    assert_eq!(code_of(""), Vec::<Insn>::new());
}

#[test]
fn white_space_between_statements_is_skipped() {
    assert_eq!(
        code_of("+ \t\r\n -\n\n<"),
        vec![
            Insn::Write(WriteOp::SetBit),
            Insn::Write(WriteOp::Unset),
            Insn::Seek(SeekOp::Left),
        ]
    );
    assert_eq!(code_of("  +"), vec![Insn::Write(WriteOp::SetBit)]);
}

#[test]
fn a_comment_may_stand_before_a_statement() {
    assert_eq!(
        code_of("/* set */ + /* and read */\n,"),
        vec![Insn::Write(WriteOp::SetBit), Insn::Io(IoOp::In)]
    );
    // A comment holds one character at least, and neither an asterisk nor a slash.
    assert!(matches!(Program::from_str("/**/+"), Err(WmachErr::GeneralError { .. })));
    assert!(matches!(Program::from_str("/* a*b */+"), Err(WmachErr::GeneralError { .. })));
    // A comment that no statement follows is left over.
    match Program::from_str("+ /* the end */") {
        Err(WmachErr::GeneralError { message }) => {
            assert_eq!(message, "Left over data: /* the end */")
        }
        other => panic!("expected an error, have {:?}", other),
    }
}

#[test]
fn labels_stand_for_the_offset_of_the_next_instruction() {
    assert_eq!(
        code_of("start: + loop': - jmp loop', start jmp end_0 end_0:"),
        vec![
            Insn::Write(WriteOp::SetBit),
            Insn::Write(WriteOp::Unset),
            Insn::Jmp(1, 0),
            Insn::Jmp(4, 4),
        ]
    );
    // A label may be used before it is defined, and blanks may stand before the colon.
    assert_eq!(
        code_of("jmp there\n+\nthere \t:\n-"),
        vec![Insn::Jmp(2, 1), Insn::Write(WriteOp::SetBit), Insn::Write(WriteOp::Unset)]
    );
    // The word of a branch may be a label too.
    assert_eq!(code_of("jmp: jmp jmp"), vec![Insn::Jmp(0, 1)]);
}

#[test]
fn a_branch_without_a_second_target_falls_through() {
    assert_eq!(code_of("a: jmp a"), vec![Insn::Jmp(0, 1)]);
    assert_eq!(code_of("a: + jmp a\n,\n+"), vec![
        Insn::Write(WriteOp::SetBit),
        Insn::Jmp(0, 2),
        Insn::Io(IoOp::In),
        Insn::Write(WriteOp::SetBit),
    ]);
    // A comma that no label follows is the input instruction.
    assert_eq!(code_of("a: jmp a , +"), vec![
        Insn::Jmp(0, 1),
        Insn::Io(IoOp::In),
        Insn::Write(WriteOp::SetBit),
    ]);
}

#[test]
fn a_label_defined_twice_is_an_error() {
    match Program::from_str("a: + b: - a: .") {
        Err(WmachErr::DuplicateLabel { label }) => assert_eq!(label, "a"),
        other => panic!("expected an error, have {:?}", other),
    }
}

#[test]
fn an_unknown_target_is_an_error() {
    match Program::from_str("+ - jmp nowhere") {
        Err(WmachErr::UnknownTarget { offset, target }) => {
            assert_eq!(offset, 2);
            assert!(matches!(target, Target::Name(name) if name == "nowhere"));
        }
        other => panic!("expected an error, have {:?}", other),
    }
    match Program::from_str("here: jmp here, there") {
        Err(WmachErr::UnknownTarget { offset, target }) => {
            assert_eq!(offset, 0);
            assert!(matches!(target, Target::Name(name) if name == "there"));
        }
        other => panic!("expected an error, have {:?}", other),
    }
}

#[test]
fn text_that_is_no_statement_is_left_over() {
    match Program::from_str("+ ? -") {
        Err(WmachErr::GeneralError { message }) => assert_eq!(message, "Left over data: ? -"),
        other => panic!("expected an error, have {:?}", other),
    }
    match Program::from_str("jmpx y") {
        Err(WmachErr::GeneralError { message }) => assert_eq!(message, "Left over data: jmpx y"),
        other => panic!("expected an error, have {:?}", other),
    }
    // The parse error comes before the others.
    assert!(matches!(
        Program::from_str("a: a: jmp b ?"),
        Err(WmachErr::GeneralError { .. })
    ));
    // A label defined twice comes before an unknown target.
    assert!(matches!(
        Program::from_str("jmp b a: a:"),
        Err(WmachErr::DuplicateLabel { .. })
    ));
}

#[test]
fn the_trait_parses_as_the_function_does() {
    let parsed: Program = "+ a: jmp a".parse().expect("a program");
    assert_eq!(parsed.instructions, code_of("+ a: jmp a"));
    let statements = Program::parse_statements("x: jmp x, x .").expect("statements");
    assert_eq!(statements.len(), 3);
    assert!(matches!(&statements[0], Stmt::Label(name) if name == "x"));
    assert!(matches!(&statements[2], Stmt::Io(IoOp::Out)));
}

#[test]
fn a_target_in_writing() {
    assert_eq!(Target::NextAddress.to_string(), "<fallthrough>");
    assert_eq!(Target::Name("loop'".to_string()).to_string(), "loop'");
}
