use isbfc::lir::{LIRBuilder, LVal, RVal, LIR};

#[test]
fn builder_keeps_order() {
    let mut b = LIRBuilder::new();
    b.shift(3);
    b.mov(LVal::Tape(0), RVal::Immediate(7));
    b.label("loop1".to_string());
    let lir = b.build();
    assert_eq!(
        lir,
        vec![
            LIR::Shift(3),
            LIR::Mov(LVal::Tape(0), RVal::Immediate(7)),
            LIR::Label("loop1".to_string()),
        ]
    );
}

#[test]
fn lval_converts_to_rval() {
    assert_eq!(RVal::from(LVal::Reg(4)), RVal::Reg(4));
    assert_eq!(RVal::from(LVal::Tape(-2)), RVal::Tape(-2));
    assert_eq!(
        RVal::from(LVal::Buf("strbuf".to_string(), 1)),
        RVal::Buf("strbuf".to_string(), 1)
    );
}
