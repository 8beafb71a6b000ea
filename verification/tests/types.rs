use zircon::compiler::types::{DataTarget, LongRegister, Register, ShortRegister};

fn described(target: &DataTarget) -> String {
    let mut out = String::new();
    target.describe(&mut out);
    out
}

#[test]
fn operands_are_described_as_debug_prints_them() {
    let targets = vec![
        DataTarget::Register(Register::Short(ShortRegister::A)),
        DataTarget::Register(Register::Short(ShortRegister::R)),
        DataTarget::Register(Register::Long(LongRegister::HL)),
        DataTarget::Register(Register::Long(LongRegister::IY)),
        DataTarget::Address(0),
        DataTarget::Address(24576),
        DataTarget::Immediate(65535),
        DataTarget::IdentifierImmediate("boot".to_string()),
        DataTarget::IdentifierAddress("Target_1".to_string()),
        DataTarget::IdentifierAddress("\u{e9}t\u{e9}".to_string()),
        DataTarget::IdentifierImmediate("a\"b\\c\n".to_string()),
    ];
    for target in &targets {
        assert_eq!(described(target), format!("{:?}", target));
    }
    assert_eq!(described(&targets[0]), "Register(Short(A))");
    assert_eq!(described(&targets[5]), "Address(24576)");
    assert_eq!(described(&targets[7]), "IdentifierImmediate(\"boot\")");
}

#[test]
fn register_names() {
    assert_eq!(ShortRegister::A.name(), "A");
    assert_eq!(ShortRegister::L.name(), "L");
    assert_eq!(LongRegister::AF.name(), "AF");
    assert_eq!(LongRegister::SP.name(), "SP");
    for r in [ShortRegister::B, ShortRegister::F, ShortRegister::I] {
        assert_eq!(r.name(), format!("{:?}", r));
    }
    for r in [LongRegister::BC, LongRegister::PC, LongRegister::IX] {
        assert_eq!(r.name(), format!("{:?}", r));
    }
    let mut out = String::from("<");
    Register::Long(LongRegister::DE).describe(&mut out);
    assert_eq!(out, "<Long(DE)");
}

#[test]
fn operands_clone() {
    let t = DataTarget::IdentifierAddress("x".to_string());
    assert_eq!(t.clone(), t);
    assert_eq!(DataTarget::Immediate(3).clone(), DataTarget::Immediate(3));
}
